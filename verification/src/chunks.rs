use vstd::prelude::*;
use crate::model::{ChunkInfo, ChunkPart, Guid};
use crate::text::push_char;

verus! {

/// The sixteen upper-case hexadecimal digits.
pub open spec fn hex_table() -> Seq<char> {
    seq!['0', '1', '2', '3', '4', '5', '6', '7', '8', '9', 'A', 'B', 'C', 'D', 'E', 'F']
}

/// The hexadecimal digit of `d` (below 16); also the decimal digit of `d`
/// below 10.
pub open spec fn digit_char(d: nat) -> char {
    hex_table()[d as int]
}

/// The last `width` digits of `n` in base `base`, most significant first,
/// with leading zeros.
pub open spec fn fixed_digits(n: nat, base: nat, width: nat) -> Seq<char>
    decreases width,
{
    if width == 0 {
        Seq::empty()
    } else {
        fixed_digits(n / base, base, (width - 1) as nat) + seq![digit_char(n % base)]
    }
}

/// The upper-case hexadecimal digits of `n`, without leading zeros.
pub open spec fn hex_digits(n: nat) -> Seq<char>
    decreases n,
{
    if n < 16 {
        seq![digit_char(n)]
    } else {
        hex_digits(n / 16) + seq![digit_char(n % 16)]
    }
}

/// `s` right-aligned in a field of `width` characters filled with `fill`.
pub open spec fn pad_left(s: Seq<char>, width: nat, fill: char) -> Seq<char> {
    if s.len() >= width {
        s
    } else {
        Seq::new((width - s.len()) as nat, |i: int| fill) + s
    }
}

/// A word as `{:8X}` writes it: upper-case hexadecimal, right-aligned with
/// spaces in eight columns.
pub open spec fn hex8(n: u32) -> Seq<char> {
    pad_left(hex_digits(n as nat), 8, ' ')
}

/// The text of a chunk identifier: its four words, each as `{:8X}`.
pub open spec fn guid_text(g: Guid) -> Seq<char> {
    hex8(g.a) + hex8(g.b) + hex8(g.c) + hex8(g.d)
}

/// A group number as `{:02}`: decimal with at least two digits.
pub open spec fn group_text(n: u8) -> Seq<char> {
    if n < 100 {
        fixed_digits(n as nat, 10, 2)
    } else {
        fixed_digits(n as nat, 10, 3)
    }
}

/// A chunk hash as `{:016X}`: sixteen upper-case hexadecimal digits.
pub open spec fn hash_text(h: u64) -> Seq<char> {
    fixed_digits(h as nat, 16, 16)
}

/// Where a chunk lies in the chunk store `base`:
/// `base/group/hash_guid.chunk`.
pub open spec fn chunk_url_text(base: Seq<char>, c: ChunkInfo) -> Seq<char> {
    base + seq!['/'] + group_text(c.group_num) + seq!['/'] + hash_text(c.hash) + seq!['_']
        + guid_text(c.guid) + seq!['.', 'c', 'h', 'u', 'n', 'k']
}

/// Calls `FGuid::to_string` of `epic_manifest_parser_rs` on the identifier
/// with the same four words. Claimed, from its source
/// (`format!("{:8X}{:8X}{:8X}{:8X}", ..)`): the text is the four words in
/// upper-case hexadecimal, each right-aligned with spaces in eight columns.
#[verifier::external_body]
fn guid_string(g: Guid) -> (s: String)
    ensures
        s@ == guid_text(g),
{
    epic_manifest_parser_rs::manifest::shared::FGuid { a: g.a, b: g.b, c: g.c, d: g.d }.to_string()
}

/// The digit character of `d`.
fn digit(d: u64) -> (c: char)
    requires
        d < 16,
    ensures
        c == digit_char(d as nat),
{
    if d < 8 {
        if d < 4 {
            if d == 0 { '0' } else if d == 1 { '1' } else if d == 2 { '2' } else { '3' }
        } else {
            if d == 4 { '4' } else if d == 5 { '5' } else if d == 6 { '6' } else { '7' }
        }
    } else {
        if d < 12 {
            if d == 8 { '8' } else if d == 9 { '9' } else if d == 10 { 'A' } else { 'B' }
        } else {
            if d == 12 { 'C' } else if d == 13 { 'D' } else if d == 14 { 'E' } else { 'F' }
        }
    }
}

/// Appends the last `width` digits of `n` in base `base`.
fn push_fixed_digits(s: &mut String, n: u64, base: u64, width: usize)
    requires
        2 <= base <= 16,
    ensures
        final(s)@ == old(s)@ + fixed_digits(n as nat, base as nat, width as nat),
    decreases width,
{
    if width > 0 {
        push_fixed_digits(s, n / base, base, width - 1);
        push_char(s, digit(n % base));
    }
}

/// The address of a chunk in the chunk store `base_url`.
pub fn chunk_url(base_url: &String, chunk: &ChunkInfo) -> (url: String)
    ensures
        url@ == chunk_url_text(base_url@, *chunk),
{
    let mut url = base_url.clone();
    push_char(&mut url, '/');
    if chunk.group_num < 100 {
        push_fixed_digits(&mut url, chunk.group_num as u64, 10, 2);
    } else {
        push_fixed_digits(&mut url, chunk.group_num as u64, 10, 3);
    }
    push_char(&mut url, '/');
    push_fixed_digits(&mut url, chunk.hash, 16, 16);
    push_char(&mut url, '_');
    let guid = guid_string(chunk.guid);
    url.append(guid.as_str());
    push_char(&mut url, '.');
    push_char(&mut url, 'c');
    push_char(&mut url, 'h');
    push_char(&mut url, 'u');
    push_char(&mut url, 'n');
    push_char(&mut url, 'k');
    proof {
        assert(url@ =~= chunk_url_text(base_url@, *chunk));
    }
    url
}

/// The position of the first chunk with identifier `guid`.
pub fn find_chunk(chunks: &Vec<ChunkInfo>, guid: Guid) -> (r: Option<usize>)
    ensures
        match r {
            Some(i) => i < chunks@.len() && chunks@[i as int].guid == guid
                && forall|k: int| 0 <= k < i ==> chunks@[k].guid != guid,
            None => forall|k: int| 0 <= k < chunks@.len() ==> chunks@[k].guid != guid,
        },
{
    let mut i: usize = 0;
    while i < chunks.len()
        invariant
            i <= chunks@.len(),
            forall|k: int| 0 <= k < i ==> chunks@[k].guid != guid,
        decreases chunks.len() - i,
    {
        if chunks[i].guid == guid {
            return Some(i);
        }
        i = i + 1;
    }
    None
}

/// A part fits in a chunk of `chunk_len` bytes.
pub open spec fn part_in_chunk(part: ChunkPart, chunk_len: int) -> bool {
    part.offset + part.size <= chunk_len
}

/// Whether the part lies inside the downloaded chunk data.
pub fn part_fits(chunk_data: &Vec<u8>, part: &ChunkPart) -> (r: bool)
    ensures
        r == part_in_chunk(*part, chunk_data@.len() as int),
{
    let len = chunk_data.len();
    (part.offset as usize) <= len && (part.size as usize) <= len - part.offset as usize
}

/// The bytes of the part, cut out of its chunk.
pub fn part_data(chunk_data: &Vec<u8>, part: &ChunkPart) -> (r: Vec<u8>)
    requires
        part_in_chunk(*part, chunk_data@.len() as int),
    ensures
        r@ == chunk_data@.subrange(part.offset as int, part.offset + part.size),
{
    let len = chunk_data.len();
    let start = part.offset as usize;
    let end = start + part.size as usize;
    let mut r: Vec<u8> = Vec::new();
    let mut i = start;
    while i < end
        invariant
            start <= i <= end,
            end <= chunk_data@.len(),
            start == part.offset,
            end == part.offset + part.size,
            r@ == chunk_data@.subrange(start as int, i as int),
        decreases end - i,
    {
        r.push(chunk_data[i]);
        assert(chunk_data@.subrange(start as int, i + 1) =~= chunk_data@.subrange(start as int, i as int).push(chunk_data@[i as int]));
        i = i + 1;
    }
    r
}

/// The value of a digit character: '0' to '9' are 0 to 9 and 'A' to 'F'
/// are 10 to 15; any other character is no digit (-1).
pub open spec fn digit_value(c: char) -> int {
    if c == '0' { 0 }
    else if c == '1' { 1 }
    else if c == '2' { 2 }
    else if c == '3' { 3 }
    else if c == '4' { 4 }
    else if c == '5' { 5 }
    else if c == '6' { 6 }
    else if c == '7' { 7 }
    else if c == '8' { 8 }
    else if c == '9' { 9 }
    else if c == 'A' { 10 }
    else if c == 'B' { 11 }
    else if c == 'C' { 12 }
    else if c == 'D' { 13 }
    else if c == 'E' { 14 }
    else if c == 'F' { 15 }
    else { -1 }
}

/// The number that a text of digits writes in base `base`, most
/// significant digit first.
pub open spec fn value_in_base(s: Seq<char>, base: int) -> int
    decreases s.len(),
{
    if s.len() == 0 {
        0
    } else {
        value_in_base(s.drop_last(), base) * base + digit_value(s.last())
    }
}

/// `base` to the power `w`.
pub open spec fn power(base: int, w: nat) -> int
    decreases w,
{
    if w == 0 {
        1
    } else {
        base * power(base, (w - 1) as nat)
    }
}

/// Every character of `s` is a digit of base `base`.
pub open spec fn digits_of_base(s: Seq<char>, base: int) -> bool {
    forall|i: int| 0 <= i < s.len() ==> 0 <= #[trigger] digit_value(s[i]) < base
}

proof fn lemma_digit_char_value(d: nat)
    requires
        d < 16,
    ensures
        digit_value(digit_char(d)) == d,
{
    let t = hex_table();
    if d == 0 { assert(t[0] == '0'); }
    else if d == 1 { assert(t[1] == '1'); }
    else if d == 2 { assert(t[2] == '2'); }
    else if d == 3 { assert(t[3] == '3'); }
    else if d == 4 { assert(t[4] == '4'); }
    else if d == 5 { assert(t[5] == '5'); }
    else if d == 6 { assert(t[6] == '6'); }
    else if d == 7 { assert(t[7] == '7'); }
    else if d == 8 { assert(t[8] == '8'); }
    else if d == 9 { assert(t[9] == '9'); }
    else if d == 10 { assert(t[10] == 'A'); }
    else if d == 11 { assert(t[11] == 'B'); }
    else if d == 12 { assert(t[12] == 'C'); }
    else if d == 13 { assert(t[13] == 'D'); }
    else if d == 14 { assert(t[14] == 'E'); }
    else { assert(t[15] == 'F'); }
}

/// The fixed-width digits of `n` are `width` digits of the base, and read
/// back in that base they give `n` modulo `base` to the power `width`.
pub proof fn lemma_fixed_digits_read_back(n: nat, base: nat, width: nat)
    requires
        2 <= base <= 16,
    ensures
        fixed_digits(n, base, width).len() == width,
        digits_of_base(fixed_digits(n, base, width), base as int),
        power(base as int, width) > 0,
        value_in_base(fixed_digits(n, base, width), base as int) == (n as int) % power(base as int, width),
    decreases width,
{
    if width == 0 {
    } else {
        let w1 = (width - 1) as nat;
        let head = fixed_digits(n / base, base, w1);
        let d = n % base;
        lemma_fixed_digits_read_back(n / base, base, w1);
        lemma_digit_char_value(d);
        let s = fixed_digits(n, base, width);
        assert(s == head + seq![digit_char(d)]);
        assert(s.drop_last() =~= head);
        assert(s.last() == digit_char(d));
        assert forall|i: int| 0 <= i < s.len() implies 0 <= #[trigger] digit_value(s[i]) < base by {
            if i < head.len() {
                assert(s[i] == head[i]);
            }
        }
        let p = power(base as int, w1);
        assert(power(base as int, width) == base * p);
        vstd::arithmetic::div_mod::lemma_mod_breakdown(n as int, base as int, p);
        assert(value_in_base(s, base as int) == value_in_base(head, base as int) * base + d);
        assert(value_in_base(head, base as int) * base == base * ((n / base) as int % p)) by (nonlinear_arith)
            requires value_in_base(head, base as int) == (n / base) as int % p;
        assert(base * p > 0) by (nonlinear_arith) requires base >= 2, p > 0;
    }
}

/// The hash field of a chunk address is sixteen upper-case hexadecimal
/// digits that, read back in base 16, give the hash.
pub proof fn lemma_hash_text_reads_back(h: u64)
    ensures
        hash_text(h).len() == 16,
        digits_of_base(hash_text(h), 16),
        value_in_base(hash_text(h), 16) == h,
{
    lemma_fixed_digits_read_back(h as nat, 16, 16);
    assert(power(16, 16) == 0x1_0000_0000_0000_0000) by {
        reveal_with_fuel(power, 17);
    }
}

/// The group field of a chunk address is two decimal digits (three from
/// 100 on) that, read back in base 10, give the group number.
pub proof fn lemma_group_text_reads_back(n: u8)
    ensures
        group_text(n).len() == if n < 100 { 2int } else { 3int },
        digits_of_base(group_text(n), 10),
        value_in_base(group_text(n), 10) == n,
{
    assert(power(10, 2) == 100 && power(10, 3) == 1000) by {
        reveal_with_fuel(power, 4);
    }
    if n < 100 {
        lemma_fixed_digits_read_back(n as nat, 10, 2);
    } else {
        lemma_fixed_digits_read_back(n as nat, 10, 3);
    }
}

/// The shortest hexadecimal digits of `n` read back to `n`, and they have
/// no leading zero (but for zero itself, written `0`); below 16 to the
/// power `k` there are at most `k` of them (`k` at least 1).
pub proof fn lemma_hex_digits_read_back(n: nat, k: nat)
    requires
        k >= 1,
        n < power(16, k),
    ensures
        digits_of_base(hex_digits(n), 16),
        value_in_base(hex_digits(n), 16) == n,
        hex_digits(n).len() >= 1,
        hex_digits(n).len() <= k,
        hex_digits(n).len() > 1 ==> hex_digits(n)[0] != '0',
    decreases n,
{
    let s = hex_digits(n);
    if n < 16 {
        lemma_digit_char_value(n);
        assert(s.drop_last() =~= Seq::<char>::empty());
        assert(s.last() == digit_char(n));
        assert(value_in_base(s.drop_last(), 16) == 0);
        assert(value_in_base(s, 16) == value_in_base(s.drop_last(), 16) * 16 + digit_value(s.last()));
    } else {
        let k1 = (k - 1) as nat;
        assert(power(16, k) == 16 * power(16, k1));
        if k == 1 {
            assert(power(16, 0) == 1);
        }
        assert(k1 >= 1);
        assert(n / 16 < power(16, k1)) by (nonlinear_arith)
            requires n < 16 * power(16, k1), n >= 16;
        lemma_hex_digits_read_back(n / 16, k1);
        let head = hex_digits(n / 16);
        lemma_digit_char_value(n % 16);
        assert(s == head + seq![digit_char(n % 16)]);
        assert(s.drop_last() =~= head);
        assert(s.last() == digit_char(n % 16));
        assert forall|i: int| 0 <= i < s.len() implies 0 <= #[trigger] digit_value(s[i]) < 16 by {
            if i < head.len() {
                assert(s[i] == head[i]);
            }
        }
        assert(s[0] == head[0]);
        assert(value_in_base(s, 16) == value_in_base(head, 16) * 16 + (n % 16) as int);
        assert(n == (n / 16) * 16 + n % 16);
        if head.len() == 1 {
            assert(head.drop_last() =~= Seq::<char>::empty());
            assert(head.last() == head[0]);
            assert(value_in_base(head.drop_last(), 16) == 0);
            assert(value_in_base(head, 16) == digit_value(head[0]));
            assert(n / 16 >= 1);
        }
    }
}

/// A word as the chunk identifier writes it: eight columns, spaces first,
/// then the shortest upper-case hexadecimal digits of the word, which read
/// back to it.
pub proof fn lemma_hex8_layout(n: u32)
    ensures
        hex8(n).len() == 8,
        exists|p: int| 0 <= p < 8 && (forall|i: int| 0 <= i < p ==> #[trigger] hex8(n)[i] == ' ')
            && #[trigger] hex8(n).skip(p) == hex_digits(n as nat),
        value_in_base(hex_digits(n as nat), 16) == n,
        digits_of_base(hex_digits(n as nat), 16),
{
    assert(power(16, 8) == 0x1_0000_0000) by {
        reveal_with_fuel(power, 9);
    }
    lemma_hex_digits_read_back(n as nat, 8);
    let d = hex_digits(n as nat);
    let p = 8 - d.len();
    if d.len() >= 8 {
        assert(hex8(n) == d);
        assert(d.skip(0) =~= d);
    } else {
        assert(hex8(n).skip(p) =~= d);
    }
    assert(hex8(n).skip(p) == d);
}

} // verus!
