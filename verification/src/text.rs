//! Characters and character sequences: white space, trimming, searching.
//!
//! Text is handled as a vector of `char`, so that every position is one
//! character and a span `lo..hi` of the vector is a piece of text.

use vstd::prelude::*;
use vstd::string::StringExecFns;

verus! {

/// `String::push` appends one character to the end of the string.
pub assume_specification[ String::push ](s: &mut String, c: char)
    ensures
        final(s)@ == old(s)@.push(c),
;

/// Whether `c` is white space: the characters with the Unicode property
/// `White_Space`.
pub open spec fn is_space(c: char) -> bool {
    let n = c as u32;
    ||| 0x09 <= n <= 0x0D
    ||| n == 0x20
    ||| n == 0x85
    ||| n == 0xA0
    ||| n == 0x1680
    ||| 0x2000 <= n <= 0x200A
    ||| n == 0x2028
    ||| n == 0x2029
    ||| n == 0x202F
    ||| n == 0x205F
    ||| n == 0x3000
}

/// The number of white-space characters at the start of `s`.
pub open spec fn leading(s: Seq<char>) -> nat
    decreases s.len(),
{
    if s.len() > 0 && is_space(s[0]) {
        1 + leading(s.drop_first())
    } else {
        0
    }
}

/// The number of white-space characters at the end of `s`.
pub open spec fn trailing(s: Seq<char>) -> nat
    decreases s.len(),
{
    if s.len() > 0 && is_space(s.last()) {
        1 + trailing(s.drop_last())
    } else {
        0
    }
}

/// `s` without the white space at its start.
pub open spec fn trim_start(s: Seq<char>) -> Seq<char> {
    s.skip(leading(s) as int)
}

/// `s` without the white space at its end.
pub open spec fn trim_end(s: Seq<char>) -> Seq<char> {
    s.take(s.len() - trailing(s))
}

/// `s` without the white space at its start and at its end.
pub open spec fn trim(s: Seq<char>) -> Seq<char> {
    trim_end(trim_start(s))
}

/// Whether `s` neither starts nor ends with white space.
pub open spec fn is_trimmed(s: Seq<char>) -> bool {
    s.len() > 0 ==> !is_space(s[0]) && !is_space(s.last())
}

/// The position of the first `c` in `s`, or the length of `s` where it holds
/// none.
pub open spec fn first_index(s: Seq<char>, c: char) -> nat
    decreases s.len(),
{
    if s.len() == 0 || s[0] == c {
        0
    } else {
        1 + first_index(s.drop_first(), c)
    }
}

/// The lines of `s`: the pieces between its line feeds. A line feed at the
/// very end starts no further line, so the empty text has no line. A
/// carriage return before a line feed is left on its line, where it is white
/// space at the end.
pub open spec fn lines(s: Seq<char>) -> Seq<Seq<char>>
    decreases s.len(),
{
    let n = first_index(s, '\n') as int;
    if s.len() == 0 {
        Seq::empty()
    } else if n >= s.len() {
        seq![s]
    } else {
        seq![s.take(n)] + lines(s.skip(n + 1))
    }
}

/// The texts `pieces` as one text, with `sep` between each two.
pub open spec fn join_with(pieces: Seq<Seq<char>>, sep: Seq<char>) -> Seq<char>
    decreases pieces.len(),
{
    if pieces.len() == 0 {
        Seq::empty()
    } else if pieces.len() == 1 {
        pieces[0]
    } else {
        join_with(pieces.drop_last(), sep) + sep + pieces.last()
    }
}

/// The lines `lines` as one text, with a line feed between each two.
pub open spec fn join_lines(lines: Seq<Seq<char>>) -> Seq<char> {
    join_with(lines, seq!['\n'])
}

/// Whether `s` begins with `p`.
pub open spec fn starts_with(s: Seq<char>, p: Seq<char>) -> bool {
    p.len() <= s.len() && s.take(p.len() as int) == p
}

/// The first position at which `p` stands in `s`, or the length of `s` where
/// it stands nowhere.
pub open spec fn first_match(s: Seq<char>, p: Seq<char>) -> nat
    decreases s.len(),
{
    if starts_with(s, p) || s.len() == 0 {
        0
    } else {
        1 + first_match(s.drop_first(), p)
    }
}

/// The pieces of `s` between the places where `sep` stands, read from the
/// left; a place begins where the one before it has ended. With an empty
/// `sep` the pieces are an empty one, each character by itself, and an empty
/// one.
pub open spec fn pieces(s: Seq<char>, sep: Seq<char>) -> Seq<Seq<char>>
    decreases s.len(),
{
    let at = first_match(s, sep) as int;
    if sep.len() == 0 {
        seq![Seq::<char>::empty()] + Seq::new(s.len(), |i: int| seq![s[i]]) + seq![
            Seq::<char>::empty(),
        ]
    } else if at + sep.len() > s.len() {
        seq![s]
    } else {
        seq![s.take(at)] + pieces(s.skip(at + sep.len()), sep)
    }
}

/// The pieces of `s` between the places where `sep` stands, each without the
/// white space at its two ends.
pub open spec fn trimmed_pieces(s: Seq<char>, sep: Seq<char>) -> Seq<Seq<char>> {
    Seq::new(pieces(s, sep).len(), |i: int| trim(pieces(s, sep)[i]))
}

/// What the strings `texts` hold, in order.
pub open spec fn texts_of(texts: Seq<String>) -> Seq<Seq<char>> {
    Seq::new(texts.len(), |i: int| texts[i]@)
}

/// Any `n` that splits `s` into white space and a rest that does not start
/// with white space is `leading(s)`.
pub proof fn lemma_leading_is(s: Seq<char>, n: int)
    requires
        0 <= n <= s.len(),
        forall|i: int| 0 <= i < n ==> is_space(#[trigger] s[i]),
        n < s.len() ==> !is_space(s[n]),
    ensures
        leading(s) == n,
    decreases s.len(),
{
    if n > 0 {
        let t = s.drop_first();
        assert forall|i: int| 0 <= i < n - 1 implies is_space(#[trigger] t[i]) by {
            assert(t[i] == s[i + 1]);
        }
        lemma_leading_is(t, n - 1);
    }
}

/// Any `n` that splits `s` into a start that does not end with white space
/// and `n` characters of white space is `trailing(s)`.
pub proof fn lemma_trailing_is(s: Seq<char>, n: int)
    requires
        0 <= n <= s.len(),
        forall|i: int| s.len() - n <= i < s.len() ==> is_space(#[trigger] s[i]),
        n < s.len() ==> !is_space(s[s.len() - n - 1]),
    ensures
        trailing(s) == n,
    decreases s.len(),
{
    if n > 0 {
        let t = s.drop_last();
        assert forall|i: int| t.len() - (n - 1) <= i < t.len() implies is_space(#[trigger] t[i]) by {
            assert(t[i] == s[i]);
        }
        lemma_trailing_is(t, n - 1);
    }
}

/// A span `a..b` of `s` with white space only before and after it, and none
/// at its own two ends, is `trim(s)`.
pub proof fn lemma_trim_is(s: Seq<char>, a: int, b: int)
    requires
        0 <= a <= b <= s.len(),
        forall|i: int| 0 <= i < a ==> is_space(#[trigger] s[i]),
        forall|i: int| b <= i < s.len() ==> is_space(#[trigger] s[i]),
        a < b ==> !is_space(s[a]) && !is_space(s[b - 1]),
        a == b ==> a == s.len(),
    ensures
        trim(s) == s.subrange(a, b),
{
    lemma_leading_is(s, a);
    let t = s.skip(a);
    assert forall|i: int| t.len() - (s.len() - b) <= i < t.len() implies is_space(
        #[trigger] t[i],
    ) by {
        assert(t[i] == s[i + a]);
    }
    if s.len() - b < t.len() {
        assert(t[t.len() - (s.len() - b) - 1] == s[b - 1]);
    }
    lemma_trailing_is(t, s.len() - b);
    assert(t.take(t.len() - (s.len() - b)) =~= s.subrange(a, b));
}

/// Text that neither starts nor ends with white space is its own trim.
pub proof fn lemma_trim_of_trimmed(s: Seq<char>)
    requires
        is_trimmed(s),
    ensures
        trim(s) == s,
{
    lemma_trim_is(s, 0, s.len() as int);
    assert(s.subrange(0, s.len() as int) =~= s);
}

/// Any `n` with no `c` before it, and a `c` at it unless it is the length of
/// `s`, is `first_index(s, c)`.
pub proof fn lemma_first_index_is(s: Seq<char>, c: char, n: int)
    requires
        0 <= n <= s.len(),
        forall|i: int| 0 <= i < n ==> #[trigger] s[i] != c,
        n < s.len() ==> s[n] == c,
    ensures
        first_index(s, c) == n,
    decreases s.len(),
{
    if n > 0 {
        let t = s.drop_first();
        assert forall|i: int| 0 <= i < n - 1 implies #[trigger] t[i] != c by {
            assert(t[i] == s[i + 1]);
        }
        lemma_first_index_is(t, c, n - 1);
    }
}

/// Whether `c` is white space.
pub fn is_whitespace(c: char) -> (r: bool)
    ensures
        r == is_space(c),
{
    let n: u32 = c as u32;
    (0x09 <= n && n <= 0x0D) || n == 0x20 || n == 0x85 || n == 0xA0 || n == 0x1680 || (0x2000
        <= n && n <= 0x200A) || n == 0x2028 || n == 0x2029 || n == 0x202F || n == 0x205F || n
        == 0x3000
}

/// The characters of `s`, in order.
pub fn to_chars(s: &str) -> (chars: Vec<char>)
    ensures
        chars@ == s@,
{
    let mut chars: Vec<char> = Vec::new();
    for c in it: s.chars()
        invariant
            chars@ == it.seq().take(it.index() as int),
            it.seq() == s@,
    {
        chars.push(c);
    }
    chars
}

/// The span `lo..hi` of `chars` as a string.
pub fn to_text(chars: &Vec<char>, lo: usize, hi: usize) -> (text: String)
    requires
        lo <= hi <= chars.len(),
    ensures
        text@ == chars@.subrange(lo as int, hi as int),
{
    let mut text = String::new();
    let mut i: usize = lo;
    while i < hi
        invariant
            lo <= i <= hi <= chars.len(),
            text@ == chars@.subrange(lo as int, i as int),
        decreases hi - i,
    {
        text.push(chars[i]);
        i += 1;
        assert(chars@.subrange(lo as int, i as int) == chars@.subrange(lo as int, i - 1).push(
            chars@[i - 1],
        ));
    }
    text
}

/// The span of `lo..hi` that is left when the white space at its two ends is
/// taken away. A span of white space only comes back empty, at `hi`.
pub fn trim_span(chars: &Vec<char>, lo: usize, hi: usize) -> (r: (usize, usize))
    requires
        lo <= hi <= chars.len(),
    ensures
        lo <= r.0 <= r.1 <= hi,
        chars@.subrange(r.0 as int, r.1 as int) == trim(chars@.subrange(lo as int, hi as int)),
{
    let ghost s = chars@.subrange(lo as int, hi as int);
    let mut a: usize = lo;
    while a < hi && is_whitespace(chars[a])
        invariant
            lo <= a <= hi <= chars.len(),
            forall|i: int| lo <= i < a ==> is_space(#[trigger] chars@[i]),
        decreases hi - a,
    {
        a += 1;
    }
    let mut b: usize = hi;
    while a < b && is_whitespace(chars[b - 1])
        invariant
            a <= b <= hi <= chars.len(),
            forall|i: int| b <= i < hi ==> is_space(#[trigger] chars@[i]),
        decreases b - a,
    {
        b -= 1;
    }
    proof {
        assert forall|i: int| 0 <= i < a - lo implies is_space(#[trigger] s[i]) by {
            assert(s[i] == chars@[i + lo]);
        }
        assert forall|i: int| b - lo <= i < s.len() implies is_space(#[trigger] s[i]) by {
            assert(s[i] == chars@[i + lo]);
        }
        lemma_trim_is(s, a - lo, b - lo);
        assert(s.subrange(a - lo, b - lo) =~= chars@.subrange(a as int, b as int));
    }
    (a, b)
}

/// The position of the first `c` in the span `lo..hi`, or `hi` where the span
/// holds none.
pub fn find_char(chars: &Vec<char>, lo: usize, hi: usize, c: char) -> (r: usize)
    requires
        lo <= hi <= chars.len(),
    ensures
        r == lo + first_index(chars@.subrange(lo as int, hi as int), c),
        lo <= r <= hi,
{
    let ghost s = chars@.subrange(lo as int, hi as int);
    let mut i: usize = lo;
    while i < hi && chars[i] != c
        invariant
            lo <= i <= hi <= chars.len(),
            forall|j: int| lo <= j < i ==> #[trigger] chars@[j] != c,
        decreases hi - i,
    {
        i += 1;
    }
    proof {
        assert forall|j: int| 0 <= j < i - lo implies #[trigger] s[j] != c by {
            assert(s[j] == chars@[j + lo]);
        }
        lemma_first_index_is(s, c, i - lo);
    }
    i
}

/// Any `n` before which `p` stands nowhere in `s`, and at which it stands
/// unless `n` is the length of `s`, is `first_match(s, p)`.
pub proof fn lemma_first_match_is(s: Seq<char>, p: Seq<char>, n: int)
    requires
        0 <= n <= s.len(),
        forall|i: int| 0 <= i < n ==> !starts_with(#[trigger] s.skip(i), p),
        n < s.len() ==> starts_with(s.skip(n), p),
    ensures
        first_match(s, p) == n,
    decreases s.len(),
{
    assert(s.skip(0) =~= s);
    if starts_with(s, p) || s.len() == 0 {
    } else {
        let t = s.drop_first();
        assert forall|i: int| 0 <= i < n - 1 implies !starts_with(#[trigger] t.skip(i), p) by {
            assert(t.skip(i) =~= s.skip(i + 1));
        }
        if n - 1 < t.len() {
            assert(t.skip(n - 1) =~= s.skip(n));
        }
        lemma_first_match_is(t, p, n - 1);
    }
}

/// Whether `sep` stands in `chars` at the position `at`.
pub fn matches_at(chars: &Vec<char>, at: usize, sep: &Vec<char>) -> (r: bool)
    requires
        at <= chars.len(),
    ensures
        r == starts_with(chars@.skip(at as int), sep@),
{
    let ghost rest = chars@.skip(at as int);
    if sep.len() > chars.len() - at {
        return false;
    }
    let mut i: usize = 0;
    while i < sep.len()
        invariant
            at <= chars.len(),
            sep.len() <= chars.len() - at,
            i <= sep.len(),
            rest == chars@.skip(at as int),
            forall|j: int| 0 <= j < i ==> rest[j] == sep@[j],
        decreases sep.len() - i,
    {
        if chars[at + i] != sep[i] {
            assert(rest.take(sep@.len() as int)[i as int] != sep@[i as int]);
            return false;
        }
        i += 1;
    }
    assert(rest.take(sep@.len() as int) =~= sep@);
    true
}

/// The first position from `from` on at which `sep` stands in `chars`, or the
/// length of `chars` where it stands nowhere from there on.
pub fn find_match(chars: &Vec<char>, from: usize, sep: &Vec<char>) -> (r: usize)
    requires
        from <= chars.len(),
    ensures
        r == from + first_match(chars@.skip(from as int), sep@),
        from <= r <= chars.len(),
{
    let ghost rest = chars@.skip(from as int);
    let mut i: usize = from;
    while i < chars.len() && !matches_at(chars, i, sep)
        invariant
            from <= i <= chars.len(),
            rest == chars@.skip(from as int),
            forall|j: int| 0 <= j < i - from ==> !starts_with(#[trigger] rest.skip(j), sep@),
        decreases chars.len() - i,
    {
        assert(rest.skip(i - from) =~= chars@.skip(i as int));
        i += 1;
    }
    proof {
        if i < chars.len() {
            assert(rest.skip(i - from) =~= chars@.skip(i as int));
        }
        lemma_first_match_is(rest, sep@, i - from);
    }
    i
}

/// The pieces of `chars` between the places where `sep` stands, each without
/// the white space at its two ends.
pub fn split_trimmed(chars: &Vec<char>, sep: &Vec<char>) -> (out: Vec<String>)
    ensures
        texts_of(out@) == trimmed_pieces(chars@, sep@),
{
    let mut out: Vec<String> = Vec::new();
    if sep.len() == 0 {
        out.push(String::new());
        let mut i: usize = 0;
        while i < chars.len()
            invariant
                i <= chars.len(),
                out@.len() == i + 1,
                out@[0]@ == Seq::<char>::empty(),
                forall|j: int| 0 <= j < i ==> (#[trigger] out@[j + 1])@ == trim(seq![chars@[j]]),
            decreases chars.len() - i,
        {
            let (a, b) = trim_span(chars, i, i + 1);
            assert(chars@.subrange(i as int, i + 1) =~= seq![chars@[i as int]]);
            out.push(to_text(chars, a, b));
            i += 1;
        }
        out.push(String::new());
        proof {
            let empty = Seq::<char>::empty();
            lemma_trim_is(empty, 0, 0);
            assert(empty.subrange(0, 0) =~= empty);
            assert(texts_of(out@) =~= trimmed_pieces(chars@, sep@)) by {
                assert forall|j: int| 0 <= j < out@.len() implies texts_of(out@)[j]
                    == trimmed_pieces(chars@, sep@)[j] by {
                    if 0 < j < out@.len() - 1 {
                        assert(out@[(j - 1) + 1]@ == trim(seq![chars@[j - 1]]));
                    }
                }
            }
        }
        return out;
    }
    let mut start: usize = 0;
    let ghost mut done: Seq<Seq<char>> = Seq::empty();
    proof {
        assert(chars@.skip(0) =~= chars@);
        assert(done + pieces(chars@, sep@) =~= pieces(chars@, sep@));
    }
    loop
        invariant_except_break
            start <= chars.len(),
            sep.len() > 0,
            pieces(chars@, sep@) == done + pieces(chars@.skip(start as int), sep@),
            out@.len() == done.len(),
            forall|j: int| 0 <= j < done.len() ==> (#[trigger] out@[j])@ == trim(done[j]),
        ensures
            texts_of(out@) == trimmed_pieces(chars@, sep@),
        decreases chars.len() - start,
    {
        let ghost rest = chars@.skip(start as int);
        let at = find_match(chars, start, sep);
        if sep.len() > chars.len() - at {
            let (a, b) = trim_span(chars, start, chars.len());
            out.push(to_text(chars, a, b));
            proof {
                assert(chars@.subrange(start as int, chars@.len() as int) =~= rest);
                assert(pieces(chars@, sep@) =~= done.push(rest));
                assert(texts_of(out@) =~= trimmed_pieces(chars@, sep@));
            }
            break ;
        }
        let (a, b) = trim_span(chars, start, at);
        out.push(to_text(chars, a, b));
        proof {
            let piece = rest.take(at - start);
            assert(chars@.subrange(start as int, at as int) =~= piece);
            assert(rest.skip(at - start + sep@.len()) =~= chars@.skip(at + sep@.len()));
            assert(pieces(chars@, sep@) =~= done.push(piece) + pieces(
                chars@.skip(at + sep@.len()),
                sep@,
            ));
            done = done.push(piece);
        }
        start = at + sep.len();
    }
    out
}

/// The strings `texts` as one string, with `sep` between each two.
pub fn join(texts: &Vec<String>, sep: &str) -> (joined: String)
    ensures
        joined@ == join_with(texts_of(texts@), sep@),
{
    let mut joined = String::new();
    let mut i: usize = 0;
    while i < texts.len()
        invariant
            i <= texts.len(),
            joined@ == join_with(texts_of(texts@).take(i as int), sep@),
        decreases texts.len() - i,
    {
        proof {
            let all = texts_of(texts@);
            assert(all.take(i + 1).drop_last() =~= all.take(i as int));
            assert(all.take(i + 1).last() == texts@[i as int]@);
        }
        if i > 0 {
            joined.append(sep);
        }
        joined.append(texts[i].as_str());
        i += 1;
    }
    proof {
        let all = texts_of(texts@);
        assert(all.take(i as int) =~= all);
    }
    joined
}

} // verus!
