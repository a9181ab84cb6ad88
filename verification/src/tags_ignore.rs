use vstd::prelude::*;
use crate::model::strings_view;
use crate::text::chars_of;

verus! {

/// A character with the Unicode `White_Space` property, the ones that
/// `str::trim` removes.
pub open spec fn is_white_space(c: char) -> bool {
    ||| '\t' <= c <= '\r'
    ||| c == ' '
    ||| c == '\u{85}'
    ||| c == '\u{A0}'
    ||| c == '\u{1680}'
    ||| '\u{2000}' <= c <= '\u{200A}'
    ||| c == '\u{2028}'
    ||| c == '\u{2029}'
    ||| c == '\u{202F}'
    ||| c == '\u{205F}'
    ||| c == '\u{3000}'
}

/// `s` without its leading white space.
pub open spec fn trim_start(s: Seq<char>) -> Seq<char>
    decreases s.len(),
{
    if s.len() > 0 && is_white_space(s[0]) {
        trim_start(s.drop_first())
    } else {
        s
    }
}

/// `s` without its trailing white space.
pub open spec fn trim_end(s: Seq<char>) -> Seq<char>
    decreases s.len(),
{
    if s.len() > 0 && is_white_space(s.last()) {
        trim_end(s.drop_last())
    } else {
        s
    }
}

/// `s` without white space at either end.
pub open spec fn trim(s: Seq<char>) -> Seq<char> {
    trim_end(trim_start(s))
}

/// The pieces of `s` between commas, as `str::split(",")` gives them.
pub open spec fn split_commas(s: Seq<char>) -> Seq<Seq<char>>
    decreases s.len(),
{
    if s.len() == 0 {
        seq![Seq::empty()]
    } else {
        let before = split_commas(s.drop_last());
        if s.last() == ',' {
            before.push(Seq::empty())
        } else {
            before.update(before.len() - 1, before.last().push(s.last()))
        }
    }
}

/// The value of a decimal digit.
pub open spec fn digit_value(c: char) -> int {
    if c == '0' { 0 }
    else if c == '1' { 1 }
    else if c == '2' { 2 }
    else if c == '3' { 3 }
    else if c == '4' { 4 }
    else if c == '5' { 5 }
    else if c == '6' { 6 }
    else if c == '7' { 7 }
    else if c == '8' { 8 }
    else { 9 }
}

/// `c` is an ASCII decimal digit.
pub open spec fn is_digit(c: char) -> bool {
    '0' <= c <= '9'
}

/// The number that a string of decimal digits writes.
pub open spec fn decimal_value(d: Seq<char>) -> int
    decreases d.len(),
{
    if d.len() == 0 {
        0
    } else {
        decimal_value(d.drop_last()) * 10 + digit_value(d.last())
    }
}

/// The digits of a number: the text without a leading `+`.
pub open spec fn number_digits(s: Seq<char>) -> Seq<char> {
    if s.len() > 0 && s[0] == '+' {
        s.drop_first()
    } else {
        s
    }
}

/// What `str::parse::<usize>` reads in `s`: an optional `+` and at least one
/// decimal digit, with a value that fits in a `usize`; `None` otherwise.
pub open spec fn parse_index(s: Seq<char>) -> Option<int> {
    let d = number_digits(s);
    if d.len() > 0 && (forall|i: int| 0 <= i < d.len() ==> is_digit(#[trigger] d[i]))
        && decimal_value(d) <= usize::MAX {
        Some(decimal_value(d))
    } else {
        None
    }
}

/// Why an answer names no list of tags.
#[derive(Clone, Copy, Debug, PartialEq, Eq, Structural)]
pub enum AnswerError {
    /// A piece, once trimmed, is not a number that fits in a `usize`.
    InvalidNumber,
    /// A number is not the position of a tag.
    NoSuchTag,
}

/// The tags that the pieces name, read in order; the first piece that is not
/// a number, or not the position of a tag, decides the error.
pub open spec fn answer_tags(tags: Seq<Seq<char>>, pieces: Seq<Seq<char>>) -> Result<Seq<Seq<char>>, AnswerError>
    decreases pieces.len(),
{
    if pieces.len() == 0 {
        Ok(Seq::empty())
    } else {
        match answer_tags(tags, pieces.drop_last()) {
            Err(e) => Err(e),
            Ok(acc) => match parse_index(trim(pieces.last())) {
                None => Err(AnswerError::InvalidNumber),
                Some(n) => if n < tags.len() {
                    Ok(acc.push(tags[n]))
                } else {
                    Err(AnswerError::NoSuchTag)
                },
            },
        }
    }
}

/// Once a prefix of the pieces fails, the whole answer fails the same way.
proof fn lemma_answer_error_persists(tags: Seq<Seq<char>>, pieces: Seq<Seq<char>>, k: int, e: AnswerError)
    requires
        0 <= k <= pieces.len(),
        answer_tags(tags, pieces.take(k)) == Err::<Seq<Seq<char>>, AnswerError>(e),
    ensures
        answer_tags(tags, pieces) == Err::<Seq<Seq<char>>, AnswerError>(e),
    decreases pieces.len() - k,
{
    if k < pieces.len() {
        assert(pieces.take(k + 1).drop_last() =~= pieces.take(k));
        lemma_answer_error_persists(tags, pieces, k + 1, e);
    } else {
        assert(pieces.take(k) =~= pieces);
    }
}

/// Leading white space of `s` up to `i` can be dropped first.
proof fn lemma_trim_start_skip(s: Seq<char>, i: int)
    requires
        0 <= i <= s.len(),
        forall|j: int| 0 <= j < i ==> is_white_space(#[trigger] s[j]),
    ensures
        trim_start(s) == trim_start(s.skip(i)),
    decreases i,
{
    if i > 0 {
        assert forall|j: int| 0 <= j < i - 1 implies is_white_space(#[trigger] s.drop_first()[j]) by {
            assert(s.drop_first()[j] == s[j + 1]);
        }
        lemma_trim_start_skip(s.drop_first(), i - 1);
        assert(s.drop_first().skip(i - 1) =~= s.skip(i));
    } else {
        assert(s.skip(0) =~= s);
    }
}

/// Trailing white space of `s` from `n` on can be dropped first.
proof fn lemma_trim_end_take(s: Seq<char>, n: int)
    requires
        0 <= n <= s.len(),
        forall|j: int| n <= j < s.len() ==> is_white_space(#[trigger] s[j]),
    ensures
        trim_end(s) == trim_end(s.take(n)),
    decreases s.len() - n,
{
    if n < s.len() {
        assert forall|j: int| n <= j < s.drop_last().len() implies is_white_space(#[trigger] s.drop_last()[j]) by {
            assert(s.drop_last()[j] == s[j]);
        }
        lemma_trim_end_take(s.drop_last(), n);
        assert(s.drop_last().take(n) =~= s.take(n));
    } else {
        assert(s.take(n) =~= s);
    }
}

/// Whether `c` has the Unicode `White_Space` property.
fn white_space(c: char) -> (r: bool)
    ensures
        r == is_white_space(c),
{
    ('\t' <= c && c <= '\r') || c == ' ' || c == '\u{85}' || c == '\u{A0}' || c == '\u{1680}'
        || ('\u{2000}' <= c && c <= '\u{200A}') || c == '\u{2028}' || c == '\u{2029}' || c == '\u{202F}'
        || c == '\u{205F}' || c == '\u{3000}'
}

/// The characters of `s` without white space at either end.
fn trimmed(s: &Vec<char>) -> (r: Vec<char>)
    ensures
        r@ == trim(s@),
{
    let n = s.len();
    let mut start: usize = 0;
    while start < n && white_space(s[start])
        invariant
            n == s@.len(),
            start <= n,
            forall|j: int| 0 <= j < start ==> is_white_space(#[trigger] s@[j]),
        decreases n - start,
    {
        start = start + 1;
    }
    proof {
        lemma_trim_start_skip(s@, start as int);
    }
    let ghost t = s@.skip(start as int);
    assert(trim_start(t) == t);
    let mut end: usize = n;
    while end > start && white_space(s[end - 1])
        invariant
            n == s@.len(),
            start <= end <= n,
            t == s@.skip(start as int),
            forall|j: int| end - start <= j < t.len() ==> is_white_space(#[trigger] t[j]),
        decreases end - start,
    {
        end = end - 1;
    }
    proof {
        lemma_trim_end_take(t, end - start);
    }
    let mut r: Vec<char> = Vec::new();
    let mut i = start;
    while i < end
        invariant
            start <= i <= end <= n,
            n == s@.len(),
            r@ == s@.subrange(start as int, i as int),
        decreases end - i,
    {
        r.push(s[i]);
        assert(s@.subrange(start as int, i + 1) =~= s@.subrange(start as int, i as int).push(s@[i as int]));
        i = i + 1;
    }
    assert(t.take(end - start) =~= s@.subrange(start as int, end as int));
    r
}

/// The value of a decimal digit character.
fn digit_of(c: char) -> (v: usize)
    requires
        is_digit(c),
    ensures
        v == digit_value(c),
{
    if c == '0' { 0 }
    else if c == '1' { 1 }
    else if c == '2' { 2 }
    else if c == '3' { 3 }
    else if c == '4' { 4 }
    else if c == '5' { 5 }
    else if c == '6' { 6 }
    else if c == '7' { 7 }
    else if c == '8' { 8 }
    else { 9 }
}

/// Reads a `usize` as `str::parse` does: an optional `+`, then decimal
/// digits whose value fits.
fn parse_number(s: &Vec<char>) -> (r: Option<usize>)
    ensures
        match r {
            Some(v) => parse_index(s@) == Some(v as int),
            None => parse_index(s@) is None,
        },
{
    let ghost d = number_digits(s@);
    let first: usize = if s.len() > 0 && s[0] == '+' { 1 } else { 0 };
    assert(d =~= s@.skip(first as int));
    if first >= s.len() {
        return None;
    }
    let mut value: usize = 0;
    let mut too_big = false;
    let mut i = first;
    while i < s.len()
        invariant
            first <= i <= s@.len(),
            d == s@.skip(first as int),
            d == number_digits(s@),
            forall|j: int| 0 <= j < i - first ==> is_digit(#[trigger] d[j]),
            !too_big ==> value == decimal_value(d.take(i - first)),
            too_big ==> decimal_value(d.take(i - first)) > usize::MAX,
            decimal_value(d.take(i - first)) >= 0,
        decreases s.len() - i,
    {
        let c = s[i];
        assert(d[i - first] == c);
        if !('0' <= c && c <= '9') {
            assert(!is_digit(d[i - first]));
            return None;
        }
        let k = digit_of(c);
        assert(d.take(i + 1 - first).drop_last() =~= d.take(i - first));
        assert(d.take(i + 1 - first).last() == c);
        if !too_big {
            if value > (usize::MAX - k) / 10 {
                too_big = true;
            } else {
                value = value * 10 + k;
            }
        }
        i = i + 1;
    }
    assert(d.take(d.len() as int) =~= d);
    if too_big {
        None
    } else {
        Some(value)
    }
}

/// The pieces of `s` between commas.
fn split_on_commas(s: &Vec<char>) -> (r: Vec<Vec<char>>)
    ensures
        r@.len() == split_commas(s@).len(),
        forall|k: int| 0 <= k < r@.len() ==> #[trigger] r@[k]@ == split_commas(s@)[k],
{
    let mut pieces: Vec<Vec<char>> = Vec::new();
    let mut current: Vec<char> = Vec::new();
    let mut i: usize = 0;
    assert(s@.take(0) =~= Seq::<char>::empty());
    while i < s.len()
        invariant
            i <= s@.len(),
            pieces@.len() + 1 == split_commas(s@.take(i as int)).len(),
            forall|k: int| 0 <= k < pieces@.len() ==> #[trigger] pieces@[k]@ == split_commas(s@.take(i as int))[k],
            current@ == split_commas(s@.take(i as int)).last(),
        decreases s.len() - i,
    {
        let c = s[i];
        assert(s@.take(i + 1).drop_last() =~= s@.take(i as int));
        assert(s@.take(i + 1).last() == c);
        if c == ',' {
            pieces.push(current);
            current = Vec::new();
            assert(current@ =~= Seq::<char>::empty());
        } else {
            current.push(c);
        }
        i = i + 1;
    }
    assert(s@.take(s@.len() as int) =~= s@);
    pieces.push(current);
    pieces
}

/// The tag list shown to the user, who answers with the positions of the
/// tags to ignore.
pub struct TagsIgnored {
    pub tags: Vec<String>,
}

impl TagsIgnored {
    /// Offers `tags`.
    pub fn new(tags: Vec<String>) -> (r: TagsIgnored)
        ensures
            r.tags == tags,
    {
        TagsIgnored { tags }
    }

    /// The tags that the answer names: its pieces between commas, trimmed,
    /// read as positions in the list, in order and with repeats; the first
    /// piece that is not a number, or is past the end of the list, gives
    /// the error.
    pub fn ignored_tags(&self, answer: &String) -> (r: Result<Vec<String>, AnswerError>)
        ensures
            match r {
                Ok(v) => answer_tags(strings_view(self.tags@), split_commas(answer@)) == Ok::<Seq<Seq<char>>, AnswerError>(strings_view(v@)),
                Err(e) => answer_tags(strings_view(self.tags@), split_commas(answer@)) == Err::<Seq<Seq<char>>, AnswerError>(e),
            },
    {
        let ghost tv = strings_view(self.tags@);
        let chars = chars_of(answer);
        let pieces = split_on_commas(&chars);
        let ghost ps = split_commas(answer@);
        let mut ignored: Vec<String> = Vec::new();
        let mut i: usize = 0;
        assert(ps.take(0) =~= Seq::<Seq<char>>::empty());
        assert(strings_view(ignored@) =~= Seq::<Seq<char>>::empty());
        while i < pieces.len()
            invariant
                tv == strings_view(self.tags@),
                ps == split_commas(answer@),
                pieces@.len() == ps.len(),
                forall|k: int| 0 <= k < pieces@.len() ==> #[trigger] pieces@[k]@ == ps[k],
                i <= pieces@.len(),
                answer_tags(tv, ps.take(i as int)) == Ok::<Seq<Seq<char>>, AnswerError>(strings_view(ignored@)),
            decreases pieces.len() - i,
        {
            let piece = trimmed(&pieces[i]);
            assert(ps.take(i + 1).drop_last() =~= ps.take(i as int));
            assert(ps.take(i + 1).last() == ps[i as int]);
            match parse_number(&piece) {
                None => {
                    proof {
                        lemma_answer_error_persists(tv, ps, i + 1, AnswerError::InvalidNumber);
                    }
                    return Err(AnswerError::InvalidNumber);
                },
                Some(n) => {
                    if n >= self.tags.len() {
                        proof {
                            lemma_answer_error_persists(tv, ps, i + 1, AnswerError::NoSuchTag);
                        }
                        return Err(AnswerError::NoSuchTag);
                    }
                    let ghost before = strings_view(ignored@);
                    ignored.push(self.tags[n].clone());
                    assert(strings_view(ignored@) =~= before.push(tv[n as int]));
                },
            }
            i = i + 1;
        }
        assert(ps.take(ps.len() as int) =~= ps);
        Ok(ignored)
    }
}

/// The characters with the Unicode `White_Space` property, one by one:
/// U+0009 to U+000D (tab, line feed, vertical tab, form feed, carriage
/// return), space, next line, no-break space, ogham space mark, U+2000 to
/// U+200A, line and paragraph separators, narrow no-break space, medium
/// mathematical space and ideographic space.
pub open spec fn unicode_white_space() -> Seq<char> {
    seq![
        '\u{9}', '\u{A}', '\u{B}', '\u{C}', '\u{D}', '\u{20}', '\u{85}', '\u{A0}', '\u{1680}',
        '\u{2000}', '\u{2001}', '\u{2002}', '\u{2003}', '\u{2004}', '\u{2005}', '\u{2006}',
        '\u{2007}', '\u{2008}', '\u{2009}', '\u{200A}', '\u{2028}', '\u{2029}', '\u{202F}',
        '\u{205F}', '\u{3000}',
    ]
}

/// `is_white_space` is the Unicode `White_Space` property: it holds of the
/// twenty-five white space characters and of no other character.
pub proof fn lemma_white_space_is_unicode(c: char)
    ensures
        is_white_space(c) <==> unicode_white_space().contains(c),
{
    let w = unicode_white_space();
    if is_white_space(c) {
        if '\t' <= c <= '\r' {
            if c == '\u{9}' { assert(w[0] == c); }
            else if c == '\u{A}' { assert(w[1] == c); }
            else if c == '\u{B}' { assert(w[2] == c); }
            else if c == '\u{C}' { assert(w[3] == c); }
            else { assert(w[4] == c); }
        } else if '\u{2000}' <= c <= '\u{200A}' {
            if c == '\u{2000}' { assert(w[9] == c); }
            else if c == '\u{2001}' { assert(w[10] == c); }
            else if c == '\u{2002}' { assert(w[11] == c); }
            else if c == '\u{2003}' { assert(w[12] == c); }
            else if c == '\u{2004}' { assert(w[13] == c); }
            else if c == '\u{2005}' { assert(w[14] == c); }
            else if c == '\u{2006}' { assert(w[15] == c); }
            else if c == '\u{2007}' { assert(w[16] == c); }
            else if c == '\u{2008}' { assert(w[17] == c); }
            else if c == '\u{2009}' { assert(w[18] == c); }
            else { assert(w[19] == c); }
        } else if c == ' ' { assert(w[5] == c); }
        else if c == '\u{85}' { assert(w[6] == c); }
        else if c == '\u{A0}' { assert(w[7] == c); }
        else if c == '\u{1680}' { assert(w[8] == c); }
        else if c == '\u{2028}' { assert(w[20] == c); }
        else if c == '\u{2029}' { assert(w[21] == c); }
        else if c == '\u{202F}' { assert(w[22] == c); }
        else if c == '\u{205F}' { assert(w[23] == c); }
        else { assert(w[24] == c); }
    }
    if w.contains(c) {
        let k = choose|k: int| 0 <= k < w.len() && w[k] == c;
        assert(0 <= k < 25);
    }
}

/// `trim_start` drops a leading run of white space and stops at the first
/// other character.
proof fn lemma_trim_start_shape(s: Seq<char>) -> (i: int)
    ensures
        0 <= i <= s.len(),
        trim_start(s) == s.skip(i),
        forall|k: int| 0 <= k < i ==> is_white_space(#[trigger] s[k]),
        i < s.len() ==> !is_white_space(s[i]),
    decreases s.len(),
{
    if s.len() > 0 && is_white_space(s[0]) {
        let i1 = lemma_trim_start_shape(s.drop_first());
        assert(s.drop_first().skip(i1) =~= s.skip(i1 + 1));
        assert forall|k: int| 0 <= k < i1 + 1 implies is_white_space(#[trigger] s[k]) by {
            if k > 0 {
                assert(s[k] == s.drop_first()[k - 1]);
            }
        }
        if i1 + 1 < s.len() {
            assert(s[i1 + 1] == s.drop_first()[i1]);
        }
        i1 + 1
    } else {
        assert(s.skip(0) =~= s);
        0
    }
}

/// `trim_end` drops a trailing run of white space and stops at the last
/// other character.
proof fn lemma_trim_end_shape(s: Seq<char>) -> (j: int)
    ensures
        0 <= j <= s.len(),
        trim_end(s) == s.take(j),
        forall|k: int| j <= k < s.len() ==> is_white_space(#[trigger] s[k]),
        j > 0 ==> !is_white_space(s[j - 1]),
    decreases s.len(),
{
    if s.len() > 0 && is_white_space(s.last()) {
        let j1 = lemma_trim_end_shape(s.drop_last());
        assert(s.drop_last().take(j1) =~= s.take(j1));
        assert forall|k: int| j1 <= k < s.len() implies is_white_space(#[trigger] s[k]) by {
            if k < s.len() - 1 {
                assert(s[k] == s.drop_last()[k]);
            }
        }
        if j1 > 0 {
            assert(s[j1 - 1] == s.drop_last()[j1 - 1]);
        }
        j1
    } else {
        assert(s.take(s.len() as int) =~= s);
        s.len() as int
    }
}

/// Trimming removes white space only, and all of it at both ends: the text
/// is some white space, the trimmed text, then some white space, and the
/// trimmed text neither starts nor ends with white space.
pub proof fn lemma_trim_strips_white_space(s: Seq<char>)
    ensures
        exists|i: int, j: int| 0 <= i <= j <= s.len() && #[trigger] s.subrange(i, j) == trim(s)
            && (forall|k: int| 0 <= k < i ==> is_white_space(#[trigger] s[k]))
            && (forall|k: int| j <= k < s.len() ==> is_white_space(#[trigger] s[k])),
        trim(s).len() > 0 ==> !is_white_space(trim(s)[0]) && !is_white_space(trim(s).last()),
{
    let i = lemma_trim_start_shape(s);
    let t = s.skip(i);
    let j = lemma_trim_end_shape(t);
    assert(t.take(j) =~= s.subrange(i, i + j));
    assert forall|k: int| i + j <= k < s.len() implies is_white_space(#[trigger] s[k]) by {
        assert(s[k] == t[k - i]);
    }
    assert(s.subrange(i, i + j) == trim(s));
    if j > 0 {
        assert(trim(s)[0] == t[0]);
        assert(t[0] == s[i]);
        assert(trim(s).last() == t[j - 1]);
    }
}

/// The pieces put back together with a comma between two of them.
pub open spec fn join_commas(pieces: Seq<Seq<char>>) -> Seq<char>
    decreases pieces.len(),
{
    if pieces.len() <= 1 {
        if pieces.len() == 1 { pieces[0] } else { Seq::empty() }
    } else {
        join_commas(pieces.drop_last()) + seq![','] + pieces.last()
    }
}

/// Splitting at commas loses nothing: there is at least one piece, no piece
/// holds a comma, and the pieces joined by commas give the text back.
pub proof fn lemma_split_commas_join(s: Seq<char>)
    ensures
        split_commas(s).len() >= 1,
        join_commas(split_commas(s)) == s,
        forall|k: int, i: int| 0 <= k < split_commas(s).len() && 0 <= i < split_commas(s)[k].len()
            ==> #[trigger] split_commas(s)[k][i] != ',',
    decreases s.len(),
{
    if s.len() == 0 {
        assert(split_commas(s) =~= seq![Seq::<char>::empty()]);
        assert(s =~= Seq::<char>::empty());
    } else {
        let s1 = s.drop_last();
        let c = s.last();
        lemma_split_commas_join(s1);
        let b = split_commas(s1);
        let r = split_commas(s);
        if c == ',' {
            assert(r == b.push(Seq::<char>::empty()));
            assert(r.drop_last() =~= b);
            assert(join_commas(r) =~= s1 + seq![','] + Seq::<char>::empty());
            assert(s =~= s1 + seq![',']);
            assert forall|k: int, i: int| 0 <= k < r.len() && 0 <= i < r[k].len() implies #[trigger] r[k][i] != ',' by {
                if k < b.len() {
                    assert(r[k] == b[k]);
                }
            }
        } else {
            let n = b.len() - 1;
            let y = b.last().push(c);
            assert(r == b.update(n, y));
            if b.len() == 1 {
                assert(join_commas(b) == b[0]);
                assert(join_commas(r) == r[0]);
                assert(s =~= b[0].push(c));
            } else {
                assert(r.drop_last() =~= b.drop_last());
                assert(join_commas(r) == join_commas(b.drop_last()) + seq![','] + y);
                assert(join_commas(b) == join_commas(b.drop_last()) + seq![','] + b.last());
                assert(join_commas(r) =~= s1.push(c));
            }
            assert(s =~= s1.push(c));
            assert forall|k: int, i: int| 0 <= k < r.len() && 0 <= i < r[k].len() implies #[trigger] r[k][i] != ',' by {
                if k < n {
                    assert(r[k] == b[k]);
                } else if i < b.last().len() {
                    assert(r[k][i] == b[n][i]);
                }
            }
        }
    }
}

/// Decimal reading agrees with reading in base 10 with the standard digit
/// values: a decimal digit is a character of value 0 to 9, and a text of
/// decimal digits writes the number that base 10 gives.
pub proof fn lemma_decimal_value_is_base_ten(d: Seq<char>)
    requires
        forall|i: int| 0 <= i < d.len() ==> is_digit(#[trigger] d[i]),
    ensures
        decimal_value(d) == crate::chunks::value_in_base(d, 10),
        forall|c: char| is_digit(c) <==> 0 <= #[trigger] crate::chunks::digit_value(c) < 10,
    decreases d.len(),
{
    assert forall|c: char| is_digit(c) <==> 0 <= #[trigger] crate::chunks::digit_value(c) < 10 by {
        if is_digit(c) {
            assert(c == '0' || c == '1' || c == '2' || c == '3' || c == '4' || c == '5' || c == '6' || c == '7'
                || c == '8' || c == '9');
        }
    }
    if d.len() > 0 {
        let d1 = d.drop_last();
        assert forall|i: int| 0 <= i < d1.len() implies is_digit(#[trigger] d1[i]) by {
            assert(d1[i] == d[i]);
        }
        lemma_decimal_value_is_base_ten(d1);
        let c = d.last();
        assert(is_digit(d[d.len() - 1]));
        assert(c == '0' || c == '1' || c == '2' || c == '3' || c == '4' || c == '5' || c == '6' || c == '7'
            || c == '8' || c == '9');
    }
}

/// The answer names a tag for every piece, in order: it succeeds exactly
/// when every trimmed piece is a number below the number of tags, and then
/// its `k`-th tag is the tag at the position the `k`-th piece names.
pub proof fn lemma_answer_tags_piecewise(tags: Seq<Seq<char>>, pieces: Seq<Seq<char>>)
    ensures
        answer_tags(tags, pieces) is Ok <==> forall|k: int| 0 <= k < pieces.len()
            ==> (#[trigger] parse_index(trim(pieces[k])) matches Some(n) && n < tags.len()),
        answer_tags(tags, pieces) matches Ok(v) ==> v.len() == pieces.len()
            && forall|k: int| 0 <= k < pieces.len() ==> #[trigger] v[k] == tags[parse_index(trim(pieces[k]))->0],
    decreases pieces.len(),
{
    if pieces.len() > 0 {
        let p1 = pieces.drop_last();
        lemma_answer_tags_piecewise(tags, p1);
        let last = pieces.len() - 1;
        assert(pieces.last() == pieces[last]);
        assert forall|k: int| 0 <= k < p1.len() implies #[trigger] p1[k] == pieces[k] by {}
        if answer_tags(tags, pieces) is Ok {
            assert forall|k: int| 0 <= k < pieces.len()
                implies (#[trigger] parse_index(trim(pieces[k])) matches Some(n) && n < tags.len()) by {
                if k < last {
                    assert(p1[k] == pieces[k]);
                    assert(parse_index(trim(p1[k])) matches Some(n) && n < tags.len());
                }
            }
        } else {
            if forall|k: int| 0 <= k < pieces.len()
                ==> (#[trigger] parse_index(trim(pieces[k])) matches Some(n) && n < tags.len()) {
                assert forall|k: int| 0 <= k < p1.len()
                    implies (#[trigger] parse_index(trim(p1[k])) matches Some(n) && n < tags.len()) by {
                    assert(p1[k] == pieces[k]);
                    assert(parse_index(trim(pieces[k])) matches Some(n) && n < tags.len());
                }
                assert(parse_index(trim(pieces[last])) matches Some(n) && n < tags.len());
            }
        }
        if answer_tags(tags, pieces) is Ok {
            let v = answer_tags(tags, pieces)->Ok_0;
            let v1 = answer_tags(tags, p1)->Ok_0;
            assert forall|k: int| 0 <= k < pieces.len() implies #[trigger] v[k] == tags[parse_index(trim(pieces[k]))->0] by {
                if k < last {
                    assert(p1[k] == pieces[k]);
                    assert(v[k] == v1[k]);
                }
            }
        }
    }
}

} // verus!
