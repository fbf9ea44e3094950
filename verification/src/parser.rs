//! The line parser: what one line of a document says.
//!
//! A line is read by itself; which section a key belongs to is for the one
//! who puts the lines together. White space around a line, a section name, a
//! key and a value does not count. A line whose first character is `;` or
//! `#` is a comment, whatever follows. A line whose first character is `[`
//! is a section header: its last character has to be `]`, and the name is
//! what stands between that first `[` and that last `]`; it must not be
//! empty. Any other line sets a key: the first `=` on the line parts the key
//! from the value, and no character escapes it; a `:` parts nothing. The key
//! must not be empty; the value may be. A value that stands between two `"`
//! or two `'` is taken as it stands between them, white space and all.

use crate::error::ParseError;
use crate::text::{find_char, first_index, to_chars, to_text, trim, trim_span};
use vstd::prelude::*;

verus! {

/// What a line says.
#[derive(Debug, PartialEq, Eq)]
pub enum Parsed {
    /// Nothing: the line is empty or white space.
    Blank,
    /// Nothing: the line is a comment.
    Comment,
    /// A section header with the section's name.
    Section(String),
    /// A key and its value.
    Value(String, String),
}

/// What a line says, as a value.
pub enum Line {
    Blank,
    Comment,
    Section(Seq<char>),
    Value(Seq<char>, Seq<char>),
}

impl View for Parsed {
    type V = Line;

    open spec fn view(&self) -> Line {
        match self {
            Parsed::Blank => Line::Blank,
            Parsed::Comment => Line::Comment,
            Parsed::Section(name) => Line::Section(name@),
            Parsed::Value(key, value) => Line::Value(key@, value@),
        }
    }
}

/// Whether `c` is one of the two quote characters.
pub open spec fn is_quote(c: char) -> bool {
    c == '"' || c == '\''
}

/// Whether `v` stands between two quote characters of one kind.
pub open spec fn is_quoted(v: Seq<char>) -> bool {
    v.len() >= 2 && v[0] == v.last() && is_quote(v[0])
}

/// `v` without the pair of quote characters around it, if it stands between
/// two of one kind; else `v`.
pub open spec fn unquote(v: Seq<char>) -> Seq<char> {
    if is_quoted(v) {
        v.subrange(1, v.len() - 1)
    } else {
        v
    }
}

/// What the line `line` says, where `index` is the number of the line.
pub open spec fn classify(line: Seq<char>, index: usize) -> Result<Line, ParseError> {
    let t = trim(line);
    if t.len() == 0 {
        Ok(Line::Blank)
    } else if t[0] == ';' || t[0] == '#' {
        Ok(Line::Comment)
    } else if t[0] == '[' {
        let name = trim(t.subrange(1, t.len() - 1));
        if t.len() >= 2 && t.last() == ']' && name.len() > 0 {
            Ok(Line::Section(name))
        } else {
            Err(ParseError::InvalidSection(index))
        }
    } else {
        let at = first_index(t, '=') as int;
        let key = trim(t.take(at));
        if at == t.len() {
            Err(ParseError::MissingSeparator(index))
        } else if key.len() == 0 {
            Err(ParseError::EmptyKey(index))
        } else {
            Ok(Line::Value(key, unquote(trim(t.skip(at + 1)))))
        }
    }
}

/// Reads the span `lo..hi` of `chars` as one line with the number `index`.
pub fn parse_span(chars: &Vec<char>, lo: usize, hi: usize, index: usize) -> (r: Result<
    Parsed,
    ParseError,
>)
    requires
        lo <= hi <= chars.len(),
    ensures
        match r {
            Ok(p) => classify(chars@.subrange(lo as int, hi as int), index) == Ok::<
                Line,
                ParseError,
            >(p@),
            Err(e) => classify(chars@.subrange(lo as int, hi as int), index) == Err::<
                Line,
                ParseError,
            >(e),
        },
{
    let (a, b) = trim_span(chars, lo, hi);
    let ghost t = chars@.subrange(a as int, b as int);
    if a == b {
        return Ok(Parsed::Blank);
    }
    let first = chars[a];
    assert(t[0] == first);
    if first == ';' || first == '#' {
        return Ok(Parsed::Comment);
    }
    if first == '[' {
        assert(t.last() == chars@[b - 1]);
        if b - a < 2 || chars[b - 1] != ']' {
            return Err(ParseError::InvalidSection(index));
        }
        let (na, nb) = trim_span(chars, a + 1, b - 1);
        assert(t.subrange(1, t.len() - 1) =~= chars@.subrange(a + 1, b - 1));
        if na == nb {
            return Err(ParseError::InvalidSection(index));
        }
        return Ok(Parsed::Section(to_text(chars, na, nb)));
    }
    let at = find_char(chars, a, b, '=');
    if at == b {
        return Err(ParseError::MissingSeparator(index));
    }
    let (ka, kb) = trim_span(chars, a, at);
    assert(t.take(at - a) =~= chars@.subrange(a as int, at as int));
    if ka == kb {
        return Err(ParseError::EmptyKey(index));
    }
    let (va, vb) = trim_span(chars, at + 1, b);
    assert(t.skip(at - a + 1) =~= chars@.subrange(at + 1, b as int));
    let ghost v = chars@.subrange(va as int, vb as int);
    let key = to_text(chars, ka, kb);
    if vb - va >= 2 && chars[va] == chars[vb - 1] && (chars[va] == '"' || chars[va] == '\'') {
        assert(v[0] == chars@[va as int] && v.last() == chars@[vb - 1]);
        assert(v.subrange(1, v.len() - 1) =~= chars@.subrange(va + 1, vb - 1));
        Ok(Parsed::Value(key, to_text(chars, va + 1, vb - 1)))
    } else {
        if vb - va >= 2 {
            assert(v[0] == chars@[va as int] && v.last() == chars@[vb - 1]);
        }
        Ok(Parsed::Value(key, to_text(chars, va, vb)))
    }
}

/// Reads `line` as one line with the number `index`.
pub fn parse_line(line: &str, index: usize) -> (r: Result<Parsed, ParseError>)
    ensures
        match r {
            Ok(p) => classify(line@, index) == Ok::<Line, ParseError>(p@),
            Err(e) => classify(line@, index) == Err::<Line, ParseError>(e),
        },
{
    let chars = to_chars(line);
    assert(chars@.subrange(0, chars@.len() as int) =~= line@);
    parse_span(&chars, 0, chars.len(), index)
}

} // verus!
