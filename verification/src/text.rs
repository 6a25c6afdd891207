//! Character-level text primitives: whitespace, trimming, splitting, and
//! substring search, each with its mathematical meaning over `Seq<char>`.

use vstd::prelude::*;
use vstd::string::StrSliceExecFns;

verus! {

/// The characters with the Unicode `White_Space` property.
pub open spec fn is_whitespace(c: char) -> bool {
    let n = c as u32;
    ||| 0x09 <= n <= 0x0D
    ||| n == 0x20
    ||| n == 0x85
    ||| n == 0xA0
    ||| n == 0x1680
    ||| 0x2000 <= n <= 0x200A
    ||| n == 0x2028
    ||| n == 0x2029
    ||| n == 0x202F
    ||| n == 0x205F
    ||| n == 0x3000
}

/// `needle` occurs in `hay` starting at index `i`.
pub open spec fn occurs_at<T>(hay: Seq<T>, needle: Seq<T>, i: int) -> bool {
    &&& 0 <= i
    &&& i + needle.len() <= hay.len()
    &&& hay.subrange(i, i + needle.len()) == needle
}

/// `needle` occurs somewhere in `hay` as a contiguous run.
pub open spec fn contains<T>(hay: Seq<T>, needle: Seq<T>) -> bool {
    exists|i: int| occurs_at(hay, needle, i)
}

/// `s` with its leading whitespace removed.
pub open spec fn trim_start(s: Seq<char>) -> Seq<char>
    decreases s.len(),
{
    if s.len() > 0 && is_whitespace(s[0]) {
        trim_start(s.drop_first())
    } else {
        s
    }
}

/// `s` with its trailing whitespace removed.
pub open spec fn trim_end(s: Seq<char>) -> Seq<char>
    decreases s.len(),
{
    if s.len() > 0 && is_whitespace(s.last()) {
        trim_end(s.drop_last())
    } else {
        s
    }
}

/// `s` with whitespace removed at both ends.
pub open spec fn trim(s: Seq<char>) -> Seq<char> {
    trim_end(trim_start(s))
}

/// The pieces of `s` between occurrences of `sep`, in order. There is always
/// one piece more than there are separators, so the empty text has one
/// (empty) piece.
pub open spec fn split(s: Seq<char>, sep: char) -> Seq<Seq<char>>
    decreases s.len(),
{
    if s.len() == 0 {
        seq![Seq::<char>::empty()]
    } else {
        let before = split(s.drop_last(), sep);
        if s.last() == sep {
            before.push(Seq::<char>::empty())
        } else {
            before.drop_last().push(before.last().push(s.last()))
        }
    }
}

/// Whether `c` is whitespace.
pub fn is_space(c: char) -> (b: bool)
    ensures
        b == is_whitespace(c),
{
    let n: u32 = c as u32;
    (0x09 <= n && n <= 0x0D) || n == 0x20 || n == 0x85 || n == 0xA0 || n == 0x1680 || (0x2000 <= n
        && n <= 0x200A) || n == 0x2028 || n == 0x2029 || n == 0x202F || n == 0x205F || n == 0x3000
}

/// The characters of `s`, in order.
pub fn chars_of(s: &str) -> (v: Vec<char>)
    ensures
        v@ == s@,
{
    let mut v: Vec<char> = Vec::new();
    for c in it: s.chars()
        invariant
            v@ == it.seq().take(it.index()),
            it.seq() == s@,
    {
        v.push(c);
    }
    v
}

/// Trimming the front of `s` from index `a` on gives the same as trimming
/// all of it, when everything before `a` is whitespace.
proof fn lemma_trim_start_skips(s: Seq<char>, a: int)
    requires
        0 <= a <= s.len(),
        forall|i: int| 0 <= i < a ==> is_whitespace(s[i]),
    ensures
        trim_start(s) == trim_start(s.subrange(a, s.len() as int)),
    decreases a,
{
    if a == 0 {
        assert(s.subrange(0, s.len() as int) =~= s);
    } else {
        let t = s.drop_first();
        lemma_trim_start_skips(t, a - 1);
        assert(t.subrange(a - 1, t.len() as int) =~= s.subrange(a, s.len() as int));
    }
}

/// Trimming the end of `s` up to index `b` gives the same as trimming all of
/// it, when everything from `b` on is whitespace.
proof fn lemma_trim_end_skips(s: Seq<char>, b: int)
    requires
        0 <= b <= s.len(),
        forall|i: int| b <= i < s.len() ==> is_whitespace(s[i]),
    ensures
        trim_end(s) == trim_end(s.subrange(0, b)),
    decreases s.len() - b,
{
    if b == s.len() {
        assert(s.subrange(0, b) =~= s);
    } else {
        let t = s.drop_last();
        lemma_trim_end_skips(t, b);
        assert(t.subrange(0, b) =~= s.subrange(0, b));
    }
}

/// The bounds, within `chars[from..to]`, of what trimming leaves of it.
pub fn trim_span(chars: &Vec<char>, from: usize, to: usize) -> (span: (usize, usize))
    requires
        from <= to <= chars.len(),
    ensures
        from <= span.0 <= span.1 <= to,
        chars@.subrange(span.0 as int, to as int) == trim_start(
            chars@.subrange(from as int, to as int),
        ),
        chars@.subrange(span.0 as int, span.1 as int) == trim(
            chars@.subrange(from as int, to as int),
        ),
{
    let ghost whole = chars@.subrange(from as int, to as int);
    let mut a: usize = from;
    while a < to && is_space(chars[a])
        invariant
            from <= a <= to <= chars.len(),
            forall|i: int| from <= i < a ==> is_whitespace(chars@[i]),
        decreases to - a,
    {
        a += 1;
    }
    let ghost front = chars@.subrange(a as int, to as int);
    proof {
        lemma_trim_start_skips(whole, a - from);
        assert(whole.subrange(a - from, whole.len() as int) =~= front);
    }
    let mut b: usize = to;
    while b > a && is_space(chars[b - 1])
        invariant
            a <= b <= to <= chars.len(),
            forall|i: int| b <= i < to ==> is_whitespace(chars@[i]),
        decreases b,
    {
        b -= 1;
    }
    proof {
        lemma_trim_end_skips(front, b - a);
        assert(front.subrange(0, b - a) =~= chars@.subrange(a as int, b as int));
    }
    (a, b)
}

/// Where `split` cuts: the bounds of each piece of `chars` between
/// occurrences of `sep`, in order. Each piece starts one past the end of the
/// piece before it.
pub fn split_spans(chars: &Vec<char>, sep: char) -> (spans: Vec<(usize, usize)>)
    ensures
        spans.len() == split(chars@, sep).len(),
        spans.len() >= 1,
        spans[0].0 == 0,
        spans[spans.len() - 1].1 == chars.len(),
        forall|k: int|
            0 <= k < spans.len() ==> {
                &&& (#[trigger] spans[k]).0 <= spans[k].1 <= chars.len()
                &&& chars@.subrange(spans[k].0 as int, spans[k].1 as int) == split(chars@, sep)[k]
            },
        forall|k: int| 0 <= k < spans.len() - 1 ==> (#[trigger] spans[k + 1]).0 == spans[k].1 + 1,
{
    let mut spans: Vec<(usize, usize)> = Vec::new();
    let mut start: usize = 0;
    let mut i: usize = 0;
    proof {
        assert(chars@.take(0).len() == 0);
        assert(chars@.subrange(0, 0) =~= Seq::<char>::empty());
    }
    while i < chars.len()
        invariant
            start <= i <= chars.len(),
            split(chars@.take(i as int), sep).len() == spans.len() + 1,
            split(chars@.take(i as int), sep).last() == chars@.subrange(start as int, i as int),
            spans.len() == 0 ==> start == 0,
            spans.len() > 0 ==> spans[0].0 == 0 && spans[spans.len() - 1].1 + 1 == start,
            forall|k: int|
                0 <= k < spans.len() ==> {
                    &&& (#[trigger] spans[k]).0 <= spans[k].1 < start
                    &&& chars@.subrange(spans[k].0 as int, spans[k].1 as int) == split(
                        chars@.take(i as int),
                        sep,
                    )[k]
                },
            forall|k: int|
                0 <= k < spans.len() - 1 ==> (#[trigger] spans[k + 1]).0 == spans[k].1 + 1,
        decreases chars.len() - i,
    {
        let ghost before = split(chars@.take(i as int), sep);
        let ghost after = split(chars@.take(i + 1), sep);
        proof {
            assert(chars@.take(i + 1).drop_last() =~= chars@.take(i as int));
            assert(chars@.take(i + 1).last() == chars@[i as int]);
        }
        if chars[i] == sep {
            spans.push((start, i));
            start = i + 1;
            proof {
                assert(after == before.push(Seq::<char>::empty()));
                assert(chars@.subrange(start as int, i + 1) =~= Seq::<char>::empty());
            }
        } else {
            proof {
                assert(after == before.drop_last().push(before.last().push(chars@[i as int])));
                assert(chars@.subrange(start as int, i + 1) =~= chars@.subrange(
                    start as int,
                    i as int,
                ).push(chars@[i as int]));
            }
        }
        i += 1;
    }
    proof {
        assert(chars@.take(i as int) =~= chars@);
    }
    spans.push((start, i));
    spans
}

/// Whether `needle` occurs in `hay` at index `at`.
pub fn matches_at(hay: &Vec<char>, needle: &Vec<char>, at: usize) -> (b: bool)
    requires
        at + needle.len() <= hay.len(),
    ensures
        b == occurs_at(hay@, needle@, at as int),
{
    let mut j: usize = 0;
    while j < needle.len()
        invariant
            j <= needle.len(),
            at + needle.len() <= hay.len(),
            forall|k: int| 0 <= k < j ==> hay@[at + k] == needle@[k],
        decreases needle.len() - j,
    {
        if hay[at + j] != needle[j] {
            proof {
                assert(hay@.subrange(at as int, at + needle.len())[j as int] == hay@[at + j]);
            }
            return false;
        }
        j += 1;
    }
    proof {
        assert(hay@.subrange(at as int, at + needle.len()) =~= needle@);
    }
    true
}

/// Whether `needle` occurs somewhere in `hay`.
pub fn contains_chars(hay: &Vec<char>, needle: &Vec<char>) -> (b: bool)
    ensures
        b == contains(hay@, needle@),
{
    if needle.len() > hay.len() {
        return false;
    }
    let last: usize = hay.len() - needle.len();
    let mut i: usize = 0;
    while i < last
        invariant
            i <= last,
            last + needle.len() == hay.len(),
            forall|k: int| 0 <= k < i ==> !occurs_at(hay@, needle@, k),
        decreases last - i,
    {
        if matches_at(hay, needle, i) {
            return true;
        }
        i += 1;
    }
    matches_at(hay, needle, last)
}

/// Whether the text `needle` occurs somewhere in the text `hay`.
pub fn str_contains(hay: &str, needle: &str) -> (b: bool)
    ensures
        b == contains(hay@, needle@),
{
    let h = chars_of(hay);
    let n = chars_of(needle);
    contains_chars(&h, &n)
}

/// The characters `from..to` of `s`, as a text of its own.
pub fn substring(s: &str, from: usize, to: usize) -> (r: String)
    requires
        from <= to <= s@.len(),
    ensures
        r@ == s@.subrange(from as int, to as int),
{
    s.substring_char(from, to).to_owned()
}

/// No piece of a split text holds the separator.
pub proof fn lemma_split_pieces_hold_no_separator(s: Seq<char>, sep: char)
    ensures
        forall|k: int| 0 <= k < split(s, sep).len() ==> !(#[trigger] split(s, sep)[k]).contains(sep),
        split(s, sep).len() >= 1,
    decreases s.len(),
{
    if s.len() == 0 {
        assert(!Seq::<char>::empty().contains(sep));
    } else {
        lemma_split_pieces_hold_no_separator(s.drop_last(), sep);
        let before = split(s.drop_last(), sep);
        let after = split(s, sep);
        assert forall|k: int| 0 <= k < after.len() implies !(#[trigger] after[k]).contains(sep) by {
            if s.last() == sep {
                if k < before.len() {
                    assert(after[k] == before[k]);
                } else {
                    assert(after[k] =~= Seq::<char>::empty());
                }
            } else {
                if k < before.len() - 1 {
                    assert(after[k] == before[k]);
                } else {
                    assert(after[k] == before.last().push(s.last()));
                    assert(!before[before.len() - 1].contains(sep));
                    if after[k].contains(sep) {
                        let i = choose|i: int| 0 <= i < after[k].len() && after[k][i] == sep;
                        assert(before.last()[i] == sep);
                    }
                }
            }
        }
    }
}

/// A part of a text holds no character that the text does not hold.
pub proof fn lemma_subrange_holds_no_more(s: Seq<char>, from: int, to: int, c: char)
    requires
        0 <= from <= to <= s.len(),
        !s.contains(c),
    ensures
        !s.subrange(from, to).contains(c),
{
    if s.subrange(from, to).contains(c) {
        let i = choose|i: int| 0 <= i < to - from && s.subrange(from, to)[i] == c;
        assert(s[from + i] == c);
    }
}

/// Trimming the front adds no character.
proof fn lemma_trim_start_holds_no_more(s: Seq<char>, c: char)
    requires
        !s.contains(c),
    ensures
        !trim_start(s).contains(c),
    decreases s.len(),
{
    if s.len() > 0 && is_whitespace(s[0]) {
        lemma_subrange_holds_no_more(s, 1, s.len() as int, c);
        lemma_trim_start_holds_no_more(s.drop_first(), c);
    }
}

/// Trimming the end adds no character.
proof fn lemma_trim_end_holds_no_more(s: Seq<char>, c: char)
    requires
        !s.contains(c),
    ensures
        !trim_end(s).contains(c),
    decreases s.len(),
{
    if s.len() > 0 && is_whitespace(s.last()) {
        lemma_subrange_holds_no_more(s, 0, s.len() - 1, c);
        lemma_trim_end_holds_no_more(s.drop_last(), c);
    }
}

/// Trimming adds no character.
pub proof fn lemma_trim_holds_no_more(s: Seq<char>, c: char)
    requires
        !s.contains(c),
    ensures
        !trim(s).contains(c),
{
    lemma_trim_start_holds_no_more(s, c);
    lemma_trim_end_holds_no_more(trim_start(s), c);
}

} // verus!
