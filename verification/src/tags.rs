use vstd::prelude::*;
use crate::model::{FileEntry, FileEntryView, files_view, strings_view};
use crate::order::{text_lt, lemma_text_lt_total, lemma_text_lt_asymmetric, lemma_text_lt_transitive, text_less};
use crate::text::{chars_of, contains_text, text_contains};

verus! {

/// The word that marks the tags of internal chunk groups.
pub open spec fn chunk_word() -> Seq<char> {
    seq!['c', 'h', 'u', 'n', 'k']
}

/// `t` is a tag of some file and does not name a chunk group, so it is
/// offered for selection.
pub open spec fn offered_tag(files: Seq<FileEntryView>, t: Seq<char>) -> bool {
    &&& !text_contains(t, chunk_word())
    &&& exists|i: int, j: int|
        0 <= i < files.len() && 0 <= j < files[i].install_tags.len() && #[trigger] files[i].install_tags[j] == t
}

/// Every text is below the next one: sorted, without repeats.
pub open spec fn strictly_sorted(s: Seq<Seq<char>>) -> bool {
    forall|i: int, j: int| 0 <= i < j < s.len() ==> text_lt(s[i], s[j])
}

/// Puts `x` in its place in the sorted list, unless it is there already.
fn insert_sorted(tags: &mut Vec<String>, keys: &mut Vec<Vec<char>>, tag: &String, x: Vec<char>)
    requires
        x@ == tag@,
        old(keys)@.len() == old(tags)@.len(),
        forall|i: int| 0 <= i < old(keys)@.len() ==> #[trigger] old(keys)@[i]@ == old(tags)@[i]@,
        strictly_sorted(strings_view(old(tags)@)),
    ensures
        final(keys)@.len() == final(tags)@.len(),
        forall|i: int| 0 <= i < final(keys)@.len() ==> #[trigger] final(keys)@[i]@ == final(tags)@[i]@,
        strictly_sorted(strings_view(final(tags)@)),
        forall|t: Seq<char>| strings_view(final(tags)@).contains(t)
            <==> (strings_view(old(tags)@).contains(t) || t == tag@),
{
    let ghost s = strings_view(tags@);
    let n = keys.len();
    let mut p: usize = 0;
    while p < n && text_less(&keys[p], &x)
        invariant
            n == keys@.len(),
            n == tags@.len(),
            s == strings_view(tags@),
            p <= n,
            forall|i: int| 0 <= i < n ==> #[trigger] keys@[i]@ == tags@[i]@,
            forall|i: int| 0 <= i < p ==> text_lt(#[trigger] s[i], x@),
        decreases n - p,
    {
        p = p + 1;
    }
    if p < n && !text_less(&x, &keys[p]) {
        proof {
            lemma_text_lt_total(s[p as int], x@);
            assert(s[p as int] == tag@);
            assert forall|t: Seq<char>| s.contains(t) <==> (s.contains(t) || t == tag@) by {
                if t == tag@ {
                    assert(s[p as int] == t);
                }
            }
        }
        return;
    }
    proof {
        if p < n {
            lemma_text_lt_total(s[p as int], x@);
            lemma_text_lt_asymmetric(s[p as int], x@);
        }
    }
    tags.insert(p, tag.clone());
    keys.insert(p, x);
    proof {
        let s2 = strings_view(tags@);
        assert(s2 =~= s.insert(p as int, tag@));
        assert forall|i: int, j: int| 0 <= i < j < s2.len() implies text_lt(s2[i], s2[j]) by {
            if j < p {
            } else if i < p && j == p {
            } else if i < p && j > p {
                assert(s2[j] == s[j - 1]);
                if j - 1 > p {
                    lemma_text_lt_transitive(x@, s[p as int], s[j - 1]);
                }
                lemma_text_lt_transitive(s[i], x@, s[j - 1]);
            } else if i == p {
                assert(s2[j] == s[j - 1]);
                if j - 1 > p {
                    lemma_text_lt_transitive(x@, s[p as int], s[j - 1]);
                }
            } else {
                assert(s2[i] == s[i - 1]);
                assert(s2[j] == s[j - 1]);
            }
        }
        assert forall|t: Seq<char>| s2.contains(t) <==> (s.contains(t) || t == tag@) by {
            if s2.contains(t) {
                let k = choose|k: int| 0 <= k < s2.len() && s2[k] == t;
                if k < p {
                    assert(s[k] == t);
                } else if k > p {
                    assert(s[k - 1] == t);
                }
            }
            if s.contains(t) {
                let k = choose|k: int| 0 <= k < s.len() && s[k] == t;
                if k < p {
                    assert(s2[k] == t);
                } else {
                    assert(s2[k + 1] == t);
                }
            }
            if t == tag@ {
                assert(s2[p as int] == t);
            }
        }
        assert forall|i: int| 0 <= i < keys@.len() implies #[trigger] keys@[i]@ == tags@[i]@ by {
            if i > p {
                assert(keys@[i] == old(keys)@[i - 1]);
                assert(tags@[i] == old(tags)@[i - 1]);
            }
        }
    }
}

/// `t` is the tag at position `b` of file `a`, and (a, b) comes before
/// (i, j) in reading order.
pub open spec fn tag_before(files: Seq<FileEntryView>, i: int, j: int, t: Seq<char>, a: int, b: int) -> bool {
    &&& 0 <= a < files.len()
    &&& 0 <= b < files[a].install_tags.len()
    &&& (a < i || (a == i && b < j))
    &&& files[a].install_tags[b] == t
}

/// `t` is offered and already met when reading up to (i, j).
pub open spec fn offered_before(files: Seq<FileEntryView>, i: int, j: int, t: Seq<char>) -> bool {
    &&& !text_contains(t, chunk_word())
    &&& exists|a: int, b: int| #[trigger] tag_before(files, i, j, t, a, b)
}

proof fn lemma_offered_step(files: Seq<FileEntryView>, i: int, j: int, t: Seq<char>)
    requires
        0 <= i < files.len(),
        0 <= j < files[i].install_tags.len(),
    ensures
        offered_before(files, i, j + 1, t) <==> (offered_before(files, i, j, t) || (
            t == files[i].install_tags[j] && !text_contains(t, chunk_word()))),
{
    if exists|a: int, b: int| #[trigger] tag_before(files, i, j + 1, t, a, b) {
        let (a, b) = choose|a: int, b: int| #[trigger] tag_before(files, i, j + 1, t, a, b);
        if !(a == i && b == j) {
            assert(tag_before(files, i, j, t, a, b));
        }
    }
    if exists|a: int, b: int| #[trigger] tag_before(files, i, j, t, a, b) {
        let (a, b) = choose|a: int, b: int| #[trigger] tag_before(files, i, j, t, a, b);
        assert(tag_before(files, i, j + 1, t, a, b));
    }
    if t == files[i].install_tags[j] {
        assert(tag_before(files, i, j + 1, t, i, j));
    }
}

proof fn lemma_offered_row(files: Seq<FileEntryView>, i: int, t: Seq<char>)
    requires
        0 <= i < files.len(),
    ensures
        offered_before(files, i, files[i].install_tags.len() as int, t) <==> offered_before(files, i + 1, 0, t),
{
    let n = files[i].install_tags.len() as int;
    if exists|a: int, b: int| #[trigger] tag_before(files, i, n, t, a, b) {
        let (a, b) = choose|a: int, b: int| #[trigger] tag_before(files, i, n, t, a, b);
        assert(tag_before(files, i + 1, 0, t, a, b));
    }
    if exists|a: int, b: int| #[trigger] tag_before(files, i + 1, 0, t, a, b) {
        let (a, b) = choose|a: int, b: int| #[trigger] tag_before(files, i + 1, 0, t, a, b);
        assert(tag_before(files, i, n, t, a, b));
    }
}

proof fn lemma_offered_all(files: Seq<FileEntryView>, t: Seq<char>)
    ensures
        offered_before(files, files.len() as int, 0, t) <==> offered_tag(files, t),
{
    let n = files.len() as int;
    if exists|a: int, b: int| #[trigger] tag_before(files, n, 0, t, a, b) {
        let (a, b) = choose|a: int, b: int| #[trigger] tag_before(files, n, 0, t, a, b);
        assert(files[a].install_tags[b] == t);
    }
    if offered_tag(files, t) {
        let (a, b) = choose|a: int, b: int|
            0 <= a < files.len() && 0 <= b < files[a].install_tags.len() && #[trigger] files[a].install_tags[b] == t;
        assert(tag_before(files, n, 0, t, a, b));
    }
}

/// The tags offered for selection: every install tag of every file that
/// does not contain "chunk", sorted and without repeats.
pub fn collect_tags(files: &Vec<FileEntry>) -> (tags: Vec<String>)
    ensures
        strictly_sorted(strings_view(tags@)),
        forall|t: Seq<char>| strings_view(tags@).contains(t) <==> offered_tag(files_view(files@), t),
{
    let ghost fv = files_view(files@);
    let word: Vec<char> = vec!['c', 'h', 'u', 'n', 'k'];
    assert(word@ =~= chunk_word());
    let mut tags: Vec<String> = Vec::new();
    let mut keys: Vec<Vec<char>> = Vec::new();
    let mut i: usize = 0;
    while i < files.len()
        invariant
            i <= files@.len(),
            fv == files_view(files@),
            word@ == chunk_word(),
            keys@.len() == tags@.len(),
            forall|k: int| 0 <= k < keys@.len() ==> #[trigger] keys@[k]@ == tags@[k]@,
            strictly_sorted(strings_view(tags@)),
            forall|t: Seq<char>| strings_view(tags@).contains(t) <==> offered_before(fv, i as int, 0, t),
        decreases files@.len() - i,
    {
        let file = &files[i];
        let mut j: usize = 0;
        while j < file.install_tags.len()
            invariant
                i < files@.len(),
                file == files@[i as int],
                j <= file.install_tags@.len(),
                fv == files_view(files@),
                fv[i as int] == file@,
                word@ == chunk_word(),
                keys@.len() == tags@.len(),
                forall|k: int| 0 <= k < keys@.len() ==> #[trigger] keys@[k]@ == tags@[k]@,
                strictly_sorted(strings_view(tags@)),
                forall|t: Seq<char>| strings_view(tags@).contains(t) <==> offered_before(fv, i as int, j as int, t),
            decreases file.install_tags@.len() - j,
        {
            let tag = &file.install_tags[j];
            let x = chars_of(tag);
            let ghost before = strings_view(tags@);
            assert(fv[i as int].install_tags[j as int] == tag@);
            let has_word = contains_text(&x, &word);
            if !has_word {
                insert_sorted(&mut tags, &mut keys, tag, x);
            }
            proof {
                assert forall|t: Seq<char>|
                    strings_view(tags@).contains(t) <==> offered_before(fv, i as int, j + 1, t)
                by {
                    lemma_offered_step(fv, i as int, j as int, t);
                }
            }
            j = j + 1;
        }
        proof {
            assert forall|t: Seq<char>|
                strings_view(tags@).contains(t) <==> offered_before(fv, i + 1, 0, t)
            by {
                lemma_offered_row(fv, i as int, t);
            }
        }
        i = i + 1;
    }
    proof {
        assert forall|t: Seq<char>|
            strings_view(tags@).contains(t) <==> offered_tag(files_view(files@), t)
        by {
            lemma_offered_all(fv, t);
        }
    }
    tags
}

} // verus!
