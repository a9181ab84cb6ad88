use vstd::prelude::*;

verus! {

/// What came back for one part: its bytes and where they land in the file,
/// or nothing when its download failed.
pub type PartResultView = Option<(Seq<u8>, usize)>;

/// The views of the results of the parts.
pub open spec fn results_view(rs: Seq<Option<(Vec<u8>, usize)>>) -> Seq<PartResultView> {
    rs.map_values(|r: Option<(Vec<u8>, usize)>| match r {
        Some(p) => Some((p.0@, p.1)),
        None => None,
    })
}

/// `buf` with `data` written over it from position `at`.
pub open spec fn write_at(buf: Seq<u8>, data: Seq<u8>, at: int) -> Seq<u8> {
    buf.take(at) + data + buf.skip(at + data.len())
}

/// `buf` after writing every part that arrived, in order.
pub open spec fn apply_parts(buf: Seq<u8>, rs: Seq<PartResultView>) -> Seq<u8>
    decreases rs.len(),
{
    if rs.len() == 0 {
        buf
    } else {
        let before = apply_parts(buf, rs.drop_last());
        match rs.last() {
            Some(p) => write_at(before, p.0, p.1 as int),
            None => before,
        }
    }
}

/// How many parts failed.
pub open spec fn failures(rs: Seq<PartResultView>) -> nat
    decreases rs.len(),
{
    if rs.len() == 0 {
        0
    } else {
        failures(rs.drop_last()) + if rs.last() is None { 1nat } else { 0nat }
    }
}

/// Every part that arrived lies inside a file of `n` bytes.
pub open spec fn parts_fit(rs: Seq<PartResultView>, n: int) -> bool {
    forall|i: int| 0 <= i < rs.len() ==> (#[trigger] rs[i] matches Some(p) ==> p.1 + p.0.len() <= n)
}

/// `n` zero bytes.
pub open spec fn zeros(n: nat) -> Seq<u8> {
    Seq::new(n, |i: int| 0u8)
}

/// Copies `data` into `buffer` from position `at`.
pub fn write_part(buffer: &mut Vec<u8>, data: &Vec<u8>, at: usize)
    requires
        at + data@.len() <= old(buffer)@.len(),
    ensures
        final(buffer)@ == write_at(old(buffer)@, data@, at as int),
{
    let ghost start = buffer@;
    let total = buffer.len();
    let mut i: usize = 0;
    while i < data.len()
        invariant
            at + data@.len() <= start.len(),
            total == start.len(),
            i <= data@.len(),
            buffer@.len() == start.len(),
            forall|k: int| 0 <= k < at ==> buffer@[k] == start[k],
            forall|k: int| 0 <= k < i ==> buffer@[at + k] == data@[k],
            forall|k: int| at + i <= k < start.len() ==> buffer@[k] == start[k],
        decreases data.len() - i,
    {
        buffer.set(at + i, data[i]);
        i = i + 1;
    }
    assert(buffer@ =~= write_at(start, data@, at as int));
}

/// Builds the file from the results of its parts, in order: every part that
/// arrived is written at its offset over a zeroed buffer of `file_size`
/// bytes; also counts the parts that failed.
pub fn assemble_file(file_size: usize, results: &Vec<Option<(Vec<u8>, usize)>>) -> (r: (Vec<u8>, usize))
    requires
        parts_fit(results_view(results@), file_size as int),
    ensures
        r.0@ == apply_parts(zeros(file_size as nat), results_view(results@)),
        r.1 == failures(results_view(results@)),
{
    let ghost rv = results_view(results@);
    let mut buffer: Vec<u8> = vec![0u8; file_size];
    assert(buffer@ =~= zeros(file_size as nat));
    let mut failed: usize = 0;
    let mut i: usize = 0;
    while i < results.len()
        invariant
            rv == results_view(results@),
            parts_fit(rv, file_size as int),
            i <= results@.len(),
            buffer@.len() == file_size,
            buffer@ == apply_parts(zeros(file_size as nat), rv.take(i as int)),
            failed == failures(rv.take(i as int)),
            failed <= i,
        decreases results.len() - i,
    {
        assert(rv.take(i + 1).drop_last() =~= rv.take(i as int));
        assert(rv[i as int] == rv.take(i + 1).last());
        match &results[i] {
            Some(part) => {
                assert(rv[i as int] == Some((part.0@, part.1)));
                write_part(&mut buffer, &part.0, part.1);
            },
            None => {
                failed = failed + 1;
            },
        }
        i = i + 1;
    }
    assert(rv.take(results@.len() as int) =~= rv);
    (buffer, failed)
}

/// The bytes of the parts, one after the other.
pub open spec fn concat_parts(ps: Seq<(Seq<u8>, usize)>) -> Seq<u8>
    decreases ps.len(),
{
    if ps.len() == 0 {
        Seq::empty()
    } else {
        concat_parts(ps.drop_last()) + ps.last().0
    }
}

/// Each part starts where the ones before it end.
pub open spec fn end_to_end(ps: Seq<(Seq<u8>, usize)>) -> bool {
    forall|i: int| 0 <= i < ps.len() ==> (#[trigger] ps[i]).1 == concat_parts(ps.take(i)).len()
}

/// Every part arrived.
pub open spec fn all_arrived(ps: Seq<(Seq<u8>, usize)>) -> Seq<PartResultView> {
    ps.map_values(|p: (Seq<u8>, usize)| Some(p))
}

/// When every part of a file arrives and the parts lie end to end, the
/// assembled file is the parts' bytes one after the other, followed by
/// the zeros that no part covered.
pub proof fn lemma_complete_download(ps: Seq<(Seq<u8>, usize)>, n: nat)
    requires
        end_to_end(ps),
        concat_parts(ps).len() <= n,
    ensures
        apply_parts(zeros(n), all_arrived(ps)) == concat_parts(ps) + zeros(
            (n - concat_parts(ps).len()) as nat,
        ),
    decreases ps.len(),
{
    if ps.len() == 0 {
        assert(apply_parts(zeros(n), all_arrived(ps)) == zeros(n));
        assert(concat_parts(ps) + zeros(n) =~= zeros(n));
    } else {
        let init = ps.drop_last();
        let last = ps.last();
        assert forall|i: int| 0 <= i < init.len() implies (#[trigger] init[i]).1 == concat_parts(init.take(i)).len() by {
            assert(init.take(i) =~= ps.take(i));
            assert(ps[i] == init[i]);
        }
        assert(init.take(init.len() as int) =~= init);
        assert(ps[ps.len() - 1] == last);
        lemma_complete_download(init, n);
        assert(all_arrived(ps).drop_last() =~= all_arrived(init));
        let c = concat_parts(init);
        let z = zeros((n - c.len()) as nat);
        let before = c + z;
        assert(last.1 == c.len());
        assert(write_at(before, last.0, last.1 as int) =~= concat_parts(ps) + zeros(
            (n - concat_parts(ps).len()) as nat,
        ));
    }
}

/// A file whose parts all arrived, end to end and filling it exactly, is
/// the concatenation of the parts.
pub proof fn lemma_complete_download_exact(ps: Seq<(Seq<u8>, usize)>)
    requires
        end_to_end(ps),
    ensures
        apply_parts(zeros(concat_parts(ps).len()), all_arrived(ps)) == concat_parts(ps),
{
    lemma_complete_download(ps, concat_parts(ps).len());
    assert(concat_parts(ps) + zeros(0) =~= concat_parts(ps));
}

} // verus!

verus! {

/// Position `j` of the file falls in a part that arrived.
pub open spec fn covers(r: PartResultView, j: int) -> bool {
    r matches Some(p) && p.1 <= j < p.1 + p.0.len()
}

/// The byte that a part that arrived puts at position `j` of the file.
pub open spec fn part_byte(r: PartResultView, j: int) -> u8 {
    match r {
        Some(p) => p.0[j - p.1],
        None => 0,
    }
}

/// No two parts that arrived overlap.
pub open spec fn parts_disjoint(rs: Seq<PartResultView>) -> bool {
    forall|i: int, k: int, j: int|
        0 <= i < rs.len() && 0 <= k < rs.len() && i != k && #[trigger] covers(rs[i], j) ==> !#[trigger] covers(rs[k], j)
}

/// Where `data` is written, the buffer holds `data`; elsewhere it is as
/// before.
proof fn lemma_write_at_index(buf: Seq<u8>, data: Seq<u8>, at: int, j: int)
    requires
        0 <= at,
        at + data.len() <= buf.len(),
        0 <= j < buf.len(),
    ensures
        write_at(buf, data, at).len() == buf.len(),
        at <= j < at + data.len() ==> write_at(buf, data, at)[j] == data[j - at],
        !(at <= j < at + data.len()) ==> write_at(buf, data, at)[j] == buf[j],
{
    let w = write_at(buf, data, at);
    if j < at {
        assert(w[j] == buf.take(at)[j]);
    } else if j < at + data.len() {
        assert(w[j] == (buf.take(at) + data)[j]);
    } else {
        assert(w[j] == buf.skip(at + data.len())[j - at - data.len()]);
    }
}

/// Writing parts that do not overlap, in any order: each position covered
/// by a part that arrived holds that part's byte, and every other position
/// keeps the byte it had.
pub proof fn lemma_disjoint_parts(buf: Seq<u8>, rs: Seq<PartResultView>)
    requires
        parts_fit(rs, buf.len() as int),
        parts_disjoint(rs),
    ensures
        apply_parts(buf, rs).len() == buf.len(),
        forall|i: int, j: int| 0 <= i < rs.len() && 0 <= j < buf.len() && #[trigger] covers(rs[i], j)
            ==> apply_parts(buf, rs)[j] == part_byte(rs[i], j),
        forall|j: int| 0 <= j < buf.len() && (forall|i: int| 0 <= i < rs.len() ==> !#[trigger] covers(rs[i], j))
            ==> apply_parts(buf, rs)[j] == buf[j],
    decreases rs.len(),
{
    if rs.len() > 0 {
        let init = rs.drop_last();
        let n = rs.len() - 1;
        assert(rs.last() == rs[n]);
        assert forall|i: int| 0 <= i < init.len() implies (#[trigger] init[i] matches Some(p) ==> p.1 + p.0.len() <= buf.len()) by {
            assert(init[i] == rs[i]);
            assert(rs[i] matches Some(p) ==> p.1 + p.0.len() <= buf.len());
        }
        assert forall|i: int, k: int, j: int|
            0 <= i < init.len() && 0 <= k < init.len() && i != k && #[trigger] covers(init[i], j)
            implies !#[trigger] covers(init[k], j) by {
            assert(init[i] == rs[i]);
            assert(init[k] == rs[k]);
        }
        lemma_disjoint_parts(buf, init);
        let before = apply_parts(buf, init);
        match rs[n] {
            None => {
                assert forall|i: int, j: int| 0 <= i < rs.len() && 0 <= j < buf.len() && #[trigger] covers(rs[i], j)
                    implies apply_parts(buf, rs)[j] == part_byte(rs[i], j) by {
                    assert(i < n);
                    assert(init[i] == rs[i]);
                }
                assert forall|j: int| 0 <= j < buf.len() && (forall|i: int| 0 <= i < rs.len() ==> !#[trigger] covers(rs[i], j))
                    implies apply_parts(buf, rs)[j] == buf[j] by {
                    assert forall|i: int| 0 <= i < init.len() implies !#[trigger] covers(init[i], j) by {
                        assert(init[i] == rs[i]);
                        assert(!covers(rs[i], j));
                    }
                }
            },
            Some(last) => {
                assert(last.1 + last.0.len() <= buf.len());
                assert(apply_parts(buf, rs) == write_at(before, last.0, last.1 as int));
                assert forall|i: int, j: int| 0 <= i < rs.len() && 0 <= j < buf.len() && #[trigger] covers(rs[i], j)
                    implies apply_parts(buf, rs)[j] == part_byte(rs[i], j) by {
                    lemma_write_at_index(before, last.0, last.1 as int, j);
                    if i < n {
                        assert(init[i] == rs[i]);
                        assert(covers(init[i], j));
                        assert(!covers(rs[n], j));
                    }
                }
                assert forall|j: int| 0 <= j < buf.len() && (forall|i: int| 0 <= i < rs.len() ==> !#[trigger] covers(rs[i], j))
                    implies apply_parts(buf, rs)[j] == buf[j] by {
                    lemma_write_at_index(before, last.0, last.1 as int, j);
                    assert(!covers(rs[n], j));
                    assert forall|i: int| 0 <= i < init.len() implies !#[trigger] covers(init[i], j) by {
                        assert(init[i] == rs[i]);
                        assert(!covers(rs[i], j));
                    }
                }
                assert(write_at(before, last.0, last.1 as int).len() == buf.len());
            },
        }
    }
}

/// The file assembled over zeros: each byte covered by a part that arrived
/// is that part's byte, whatever the order of the parts, and every byte
/// that no arrived part covers is zero.
pub proof fn lemma_assembled_file(n: nat, rs: Seq<PartResultView>)
    requires
        parts_fit(rs, n as int),
        parts_disjoint(rs),
    ensures
        apply_parts(zeros(n), rs).len() == n,
        forall|i: int, j: int| 0 <= i < rs.len() && 0 <= j < n && #[trigger] covers(rs[i], j)
            ==> apply_parts(zeros(n), rs)[j] == part_byte(rs[i], j),
        forall|j: int| 0 <= j < n && (forall|i: int| 0 <= i < rs.len() ==> !#[trigger] covers(rs[i], j))
            ==> apply_parts(zeros(n), rs)[j] == 0,
{
    lemma_disjoint_parts(zeros(n), rs);
    assert forall|j: int| 0 <= j < n && (forall|i: int| 0 <= i < rs.len() ==> !#[trigger] covers(rs[i], j))
        implies #[trigger] apply_parts(zeros(n), rs)[j] == 0 by {
        assert(apply_parts(zeros(n), rs)[j] == zeros(n)[j]);
    }
}

} // verus!
