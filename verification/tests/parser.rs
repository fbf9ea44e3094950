use tini::parser::{parse_line, parse_span, Parsed};
use tini::{Error, ParseError};

fn section(name: &str) -> Result<Parsed, ParseError> {
    Ok(Parsed::Section(name.to_string()))
}

fn value(key: &str, value: &str) -> Result<Parsed, ParseError> {
    Ok(Parsed::Value(key.to_string(), value.to_string()))
}

#[test]
fn blank_lines() {
    assert_eq!(parse_line("", 0), Ok(Parsed::Blank));
    assert_eq!(parse_line("   ", 1), Ok(Parsed::Blank));
    assert_eq!(parse_line("\t \r", 2), Ok(Parsed::Blank));
    assert_eq!(parse_line("\u{A0}\u{3000}", 3), Ok(Parsed::Blank));
}

#[test]
fn comment_lines() {
    assert_eq!(parse_line("; comment", 0), Ok(Parsed::Comment));
    assert_eq!(parse_line("# comment", 0), Ok(Parsed::Comment));
    assert_eq!(parse_line("   ; a = b", 0), Ok(Parsed::Comment));
    assert_eq!(parse_line("\t#[section]", 0), Ok(Parsed::Comment));
    assert_eq!(parse_line(";", 0), Ok(Parsed::Comment));
    assert_eq!(parse_line("#", 0), Ok(Parsed::Comment));
}

#[test]
fn a_comment_sign_inside_a_line_is_text() {
    assert_eq!(parse_line("a = b ; c", 0), value("a", "b ; c"));
    assert_eq!(parse_line("a = b # c", 0), value("a", "b # c"));
    assert_eq!(parse_line("a;b = c", 0), value("a;b", "c"));
}

#[test]
fn section_headers() {
    assert_eq!(parse_line("[a]", 0), section("a"));
    assert_eq!(parse_line("  [a]  ", 0), section("a"));
    assert_eq!(parse_line("[  a b  ]", 0), section("a b"));
    assert_eq!(parse_line("\t[ name ]\r", 0), section("name"));
    assert_eq!(parse_line("[a=b]", 0), section("a=b"));
    assert_eq!(parse_line("[;]", 0), section(";"));
}

#[test]
fn section_name_runs_from_the_first_to_the_last_bracket() {
    assert_eq!(parse_line("[a]b]", 0), section("a]b"));
    assert_eq!(parse_line("[[a]]", 0), section("[a]"));
    assert_eq!(parse_line("[a[b]", 0), section("a[b"));
    assert_eq!(parse_line("[]]", 0), section("]"));
}

#[test]
fn invalid_section_headers() {
    assert_eq!(parse_line("[a", 3), Err(ParseError::InvalidSection(3)));
    assert_eq!(parse_line("[", 4), Err(ParseError::InvalidSection(4)));
    assert_eq!(parse_line("[]", 5), Err(ParseError::InvalidSection(5)));
    assert_eq!(parse_line("[   ]", 6), Err(ParseError::InvalidSection(6)));
    assert_eq!(parse_line("[a] b", 7), Err(ParseError::InvalidSection(7)));
    assert_eq!(parse_line("[a] = 3", 8), Err(ParseError::InvalidSection(8)));
    assert_eq!(parse_line("  [a  ", 9), Err(ParseError::InvalidSection(9)));
}

#[test]
fn keys_and_values() {
    assert_eq!(parse_line("k=v", 0), value("k", "v"));
    assert_eq!(parse_line("  k  =  v  ", 0), value("k", "v"));
    assert_eq!(parse_line("key with space = value with space", 0), value("key with space", "value with space"));
    assert_eq!(parse_line("k =", 0), value("k", ""));
    assert_eq!(parse_line("k=   ", 0), value("k", ""));
    assert_eq!(parse_line("k = v\r", 0), value("k", "v"));
    assert_eq!(parse_line("name=10.5", 0), value("name", "10.5"));
}

#[test]
fn the_first_separator_parts_key_and_value() {
    assert_eq!(parse_line("a = b = c", 0), value("a", "b = c"));
    assert_eq!(parse_line("a==", 0), value("a", "="));
    assert_eq!(parse_line("a = [b]", 0), value("a", "[b]"));
    assert_eq!(parse_line("a\\=b = c", 0), value("a\\", "b = c"));
}

#[test]
fn a_colon_is_no_separator() {
    assert_eq!(parse_line("a: b", 2), Err(ParseError::MissingSeparator(2)));
    assert_eq!(parse_line("a: b = c", 2), value("a: b", "c"));
}

#[test]
fn quoted_values() {
    assert_eq!(parse_line("k = \"  v  \"", 0), value("k", "  v  "));
    assert_eq!(parse_line("k = '  v  '", 0), value("k", "  v  "));
    assert_eq!(parse_line("k =   \" a = b \"   ", 0), value("k", " a = b "));
    assert_eq!(parse_line("k = \"\"", 0), value("k", ""));
    assert_eq!(parse_line("k = ''", 0), value("k", ""));
    assert_eq!(parse_line("k = \"a\"b\"", 0), value("k", "a\"b"));
    assert_eq!(parse_line("key2 = \"quoted value with = or leading space\"", 0), value("key2", "quoted value with = or leading space"));
}

#[test]
fn values_that_are_not_quoted() {
    assert_eq!(parse_line("k = \"v'", 0), value("k", "\"v'"));
    assert_eq!(parse_line("k = 'v\"", 0), value("k", "'v\""));
    assert_eq!(parse_line("k = \"", 0), value("k", "\""));
    assert_eq!(parse_line("k = '", 0), value("k", "'"));
    assert_eq!(parse_line("k = \"v", 0), value("k", "\"v"));
    assert_eq!(parse_line("k = a\"b\"", 0), value("k", "a\"b\""));
}

#[test]
fn missing_separator() {
    assert_eq!(parse_line("no_separator_here", 0), Err(ParseError::MissingSeparator(0)));
    assert_eq!(parse_line("  word  ", 17), Err(ParseError::MissingSeparator(17)));
    assert_eq!(parse_line("a]", 1), Err(ParseError::MissingSeparator(1)));
}

#[test]
fn empty_key() {
    assert_eq!(parse_line("= v", 0), Err(ParseError::EmptyKey(0)));
    assert_eq!(parse_line("   =", 9), Err(ParseError::EmptyKey(9)));
    assert_eq!(parse_line("=", 2), Err(ParseError::EmptyKey(2)));
}

#[test]
fn a_span_is_read_like_a_line() {
    let text: Vec<char> = "[a]\nk = v\nrest".chars().collect();
    assert_eq!(parse_span(&text, 0, 3, 0), section("a"));
    assert_eq!(parse_span(&text, 4, 9, 1), value("k", "v"));
    assert_eq!(parse_span(&text, 10, 14, 2), Err(ParseError::MissingSeparator(2)));
    assert_eq!(parse_span(&text, 3, 3, 5), Ok(Parsed::Blank));
    assert_eq!(parse_span(&text, 5, 9, 1), Err(ParseError::EmptyKey(1)));
}

#[test]
fn errors_tell_line_and_message() {
    let e = ParseError::InvalidSection(4);
    assert_eq!(e.line(), 4);
    assert_eq!(e.message(), "invalid section header");
    let e = ParseError::MissingSeparator(0);
    assert_eq!(e.line(), 0);
    assert_eq!(e.message(), "missing separator");
    let e = ParseError::EmptyKey(usize::MAX);
    assert_eq!(e.line(), usize::MAX);
    assert_eq!(e.message(), "empty key");
}

#[test]
fn errors_convert() {
    match Error::from(ParseError::EmptyKey(3)) {
        Error::Parse(e) => assert_eq!(e, ParseError::EmptyKey(3)),
        Error::Io(_) => panic!("a parse error became an i/o error"),
    }
    let io = std::io::Error::new(std::io::ErrorKind::NotFound, "gone");
    match Error::from(io) {
        Error::Io(e) => assert_eq!(e.kind(), std::io::ErrorKind::NotFound),
        Error::Parse(_) => panic!("an i/o error became a parse error"),
    }
}
