use tini::ini::all_or_nothing;
use tini::{Error, Ini, ParseError};

fn items(ini: &Ini, section: &str) -> Vec<(String, String)> {
    let mut out = Vec::new();
    let mut it = ini.section_iter(section);
    while let Some((k, v)) = it.next() {
        out.push((k.clone(), v.clone()));
    }
    out
}

fn sections(ini: &Ini) -> Vec<(String, Vec<(String, String)>)> {
    let mut out = Vec::new();
    let mut it = ini.iter();
    while let Some((name, mut section)) = it.next() {
        let mut items = Vec::new();
        while let Some((k, v)) = section.next() {
            items.push((k.clone(), v.clone()));
        }
        out.push((name.clone(), items));
    }
    out
}

fn pairs(want: &[(&str, &str)]) -> Vec<(String, String)> {
    want.iter().map(|(k, v)| (k.to_string(), v.to_string())).collect()
}

fn parse_error(text: &str) -> ParseError {
    match Ini::from_string(text) {
        Ok(_) => panic!("{:?} was read", text),
        Err(Error::Parse(e)) => e,
        Err(Error::Io(e)) => panic!("i/o error {:?}", e),
    }
}

#[test]
fn new_document_is_empty() {
    let ini = Ini::new();
    assert_eq!(ini.to_string(), "");
    assert_eq!(sections(&ini), []);
    assert_eq!(items(&ini, ""), []);
    assert_eq!(Ini::default().to_string(), "");
}

#[test]
fn section_makes_no_section() {
    let mut conf = Ini::new().section("empty");
    assert_eq!(conf.to_string(), "");
    conf = conf.section("one").item("a", 1);
    assert_eq!(conf.to_string(), "[one]\na = 1");
}

#[test]
fn item_adds_or_replaces() {
    let mut conf = Ini::new().section("test").item("value", 10);
    assert_eq!(conf.to_string(), "[test]\nvalue = 10");
    conf = conf.section("test").item("value", "updated");
    assert_eq!(conf.to_string(), "[test]\nvalue = updated");
}

#[test]
fn item_chain_keeps_the_first_place() {
    let conf = Ini::new().section("s").item("a", "3.1416").item("b", "2").item("a", "1");
    assert_eq!(items(&conf, "s"), pairs(&[("a", "1"), ("b", "2")]));
    let a: Option<String> = conf.get("s", "a");
    assert_eq!(a, Some("1".to_string()));

    let conf = Ini::new().item("a", "3.1416").item("a", "1");
    assert_eq!(items(&conf, ""), pairs(&[("a", "1")]));
}

#[test]
fn with_item_and_with_section_take_strings() {
    let conf = Ini::new()
        .with_section("s".to_string())
        .with_item("k".to_string(), "v".to_string())
        .with_items(vec![("a".to_string(), "1".to_string()), ("k".to_string(), "w".to_string())]);
    assert_eq!(conf.to_string(), "[s]\nk = w\na = 1");
    assert_eq!(conf.get_raw("s", "k"), Some(&"w".to_string()));
    assert_eq!(conf.get_raw("s", "z"), None);
    assert_eq!(conf.get_raw("t", "k"), None);
}

#[test]
fn item_vec_with_sep_joins_the_elements() {
    let conf = Ini::new()
        .section("default")
        .item_vec_with_sep("a", &[1, 2, 3, 4], ",")
        .item_vec_with_sep("b", &vec!["a", "b", "c"], "|");
    assert_eq!(conf.to_string(), "[default]\na = 1,2,3,4\nb = a|b|c");
    let va: Option<Vec<u8>> = conf.get_vec("default", "a");
    let vb: Vec<String> = conf.get_vec_with_sep("default", "b", "|").unwrap();
    assert_eq!(va, Some(vec![1, 2, 3, 4]));
    assert_eq!(vb, ["a", "b", "c"]);
}

#[test]
fn item_vec_joins_with_comma_and_blank() {
    let conf = Ini::new().section("default").item_vec("a", &[1, 2, 3, 4]).item_vec("b", &vec!["a", "b", "c"]);
    assert_eq!(conf.to_string(), "[default]\na = 1, 2, 3, 4\nb = a, b, c");
    let va: Option<Vec<u8>> = conf.get_vec("default", "a");
    let vb: Vec<String> = conf.get_vec("default", "b").unwrap();
    assert_eq!(va, Some(vec![1, 2, 3, 4]));
    assert_eq!(vb, ["a", "b", "c"]);
    let none: [u8; 0] = [];
    let conf = Ini::new().section("s").item_vec("e", &none).item_vec("one", &[7]);
    assert_eq!(conf.to_string(), "[s]\ne = \none = 7");
}

#[test]
fn float_vectors_come_back() {
    let conf = Ini::new()
        .section("floats")
        .item_vec("consts", &[3.1416, 2.7183])
        .section("integers")
        .item_vec("lost", &[4, 8, 15, 16, 23, 42]);
    let consts: Vec<f64> = conf.get_vec("floats", "consts").unwrap();
    let lost: Vec<i32> = conf.get_vec("integers", "lost").unwrap();
    assert_eq!(consts, [3.1416, 2.7183]);
    assert_eq!(lost, [4, 8, 15, 16, 23, 42]);
}

#[test]
fn items_adds_each_pair() {
    let mut conf = Ini::new().section("colors").items(vec![("black", "#000000"), ("white", "#ffffff")]);
    conf = conf.section("numbers").items(vec![("round_pi", 3)]);
    assert_eq!(
        conf.to_string(),
        ["[colors]", "black = #000000", "white = #ffffff", "", "[numbers]", "round_pi = 3"].join("\n")
    );
    let conf = conf.section("colors").items(Vec::<(String, String)>::new());
    assert_eq!(sections(&conf).len(), 2);
}

#[test]
fn clear_takes_the_section_out() {
    let mut config = Ini::from_string(["[one]", "a = 1", "[two]", "b = 2"].join("\n")).unwrap();
    config = config.section("one").clear();
    assert_eq!(config.to_string(), "[two]\nb = 2");
    config = config.section("two").clear().item("a", 1);
    assert_eq!(config.to_string(), "[two]\na = 1");
    config = config.section("absent").clear();
    assert_eq!(config.to_string(), "[two]\na = 1");
}

#[test]
fn erase_takes_the_key_out() {
    let mut config = Ini::from_string(["[one]", "a = 1", "b = 2"].join("\n")).unwrap();
    config = config.section("one").erase("b");
    assert_eq!(config.to_string(), "[one]\na = 1");
    config = config.section("one").erase("zz");
    assert_eq!(config.to_string(), "[one]\na = 1");
    config = config.section("two").erase("a");
    assert_eq!(config.to_string(), "[one]\na = 1");
}

#[test]
fn erase_of_the_last_key_leaves_the_section() {
    let config = Ini::new().section("s").item("a", 1).erase("a");
    assert_eq!(config.to_string(), "[s]");
    assert_eq!(sections(&config), [("s".to_string(), vec![])]);
    let again = Ini::from_string(config.to_string()).unwrap();
    assert_eq!(sections(&again), []);
}

#[test]
fn removed_and_set_again_goes_to_the_end() {
    let conf = Ini::new()
        .section("a")
        .item("x", 1)
        .section("b")
        .item("y", 2)
        .section("a")
        .clear()
        .item("z", 3);
    assert_eq!(conf.to_string(), "[b]\ny = 2\n\n[a]\nz = 3");
    let conf = conf.section("b").item("k", 0).erase("y").item("y", 9);
    assert_eq!(items(&conf, "b"), pairs(&[("k", "0"), ("y", "9")]));
}

#[test]
fn sections_keep_their_order() {
    let ini = Ini::from_string("[a]\nc = 1\nb = 2\na = 3").unwrap();
    assert_eq!(items(&ini, "a"), pairs(&[("c", "1"), ("b", "2"), ("a", "3")]));
    let ini = Ini::from_string("[z]\nk=1\n[y]\nk=2\n[x]\nk=3").unwrap();
    let names: Vec<String> = sections(&ini).into_iter().map(|(n, _)| n).collect();
    assert_eq!(names, ["z", "y", "x"]);
}

#[test]
fn a_section_named_again_is_opened_again() {
    let ini = Ini::from_string("[one]\na=1\n[two]\nb=2\n[one]\nc=3").unwrap();
    assert_eq!(
        sections(&ini),
        [
            ("one".to_string(), pairs(&[("a", "1"), ("c", "3")])),
            ("two".to_string(), pairs(&[("b", "2")])),
        ]
    );
    let ini = Ini::from_string("[one]\na=1\n[two]\nb=2\n[one]\na=5").unwrap();
    assert_eq!(items(&ini, "one"), pairs(&[("a", "5")]));
}

#[test]
fn keys_before_any_header_go_to_the_unnamed_section() {
    let ini = Ini::from_string("a = 1\n[s]\nb = 2").unwrap();
    assert_eq!(
        sections(&ini),
        [("".to_string(), pairs(&[("a", "1")])), ("s".to_string(), pairs(&[("b", "2")]))]
    );
    let a: Option<u8> = ini.get("", "a");
    assert_eq!(a, Some(1));
    assert_eq!(ini.to_string(), "[]\na = 1\n\n[s]\nb = 2");
}

#[test]
fn blank_lines_and_comments_are_passed_over() {
    let text = "; first\n\n[s]\n# note\n   \nk = v\n\n; last\n";
    let ini = Ini::from_string(text).unwrap();
    assert_eq!(ini.to_string(), "[s]\nk = v");
}

#[test]
fn line_ends_may_be_of_either_kind() {
    let ini = Ini::from_string("[s]\r\nk = v\r\nl = w\r\n").unwrap();
    assert_eq!(sections(&ini), [("s".to_string(), pairs(&[("k", "v"), ("l", "w")]))]);
    let ini = Ini::from_string("[s]\nk = v\n").unwrap();
    assert_eq!(ini.to_string(), "[s]\nk = v");
    let ini = Ini::from_string("").unwrap();
    assert_eq!(ini.to_string(), "");
    let ini = Ini::from_string("\n\n\n").unwrap();
    assert_eq!(ini.to_string(), "");
}

#[test]
fn from_string_takes_what_turns_into_a_string() {
    let a = Ini::from_string("[s]\nk = v").unwrap();
    let b = Ini::from_string(String::from("[s]\nk = v")).unwrap();
    let c = Ini::parse("[s]\nk = v").unwrap();
    assert_eq!(a.to_string(), b.to_string());
    assert_eq!(a.to_string(), c.to_string());
    assert_eq!(a.to_string(), "[s]\nk = v");
}

#[test]
fn the_first_bad_line_ends_the_reading() {
    assert_eq!(parse_error("[a]\nno_separator_here\nb = 2"), ParseError::MissingSeparator(1));
    assert_eq!(parse_error("no_separator_here"), ParseError::MissingSeparator(0));
    assert_eq!(parse_error("[a]\n\n; c\n[b\nx\n= 1"), ParseError::InvalidSection(3));
    assert_eq!(parse_error("a=1\n=2\n[]"), ParseError::EmptyKey(1));
    assert_eq!(parse_error("[]"), ParseError::InvalidSection(0));
    assert_eq!(parse_error("a=1\r\nb\r\n"), ParseError::MissingSeparator(1));
    match Ini::parse("[a]\nk = v\noops") {
        Err(Error::Parse(e)) => {
            assert_eq!(e.line(), 2);
            assert_eq!(e.message(), "missing separator");
        }
        _ => panic!("the third line cannot be read"),
    }
}

#[test]
fn lenient_reading_goes_on_behind_a_bad_line() {
    let (ini, errors) = Ini::parse_lenient("[a]\nno_separator_here\nb = 2\n[c\n= 3\nd = 4");
    assert_eq!(
        errors,
        [ParseError::MissingSeparator(1), ParseError::InvalidSection(3), ParseError::EmptyKey(4)]
    );
    assert_eq!(sections(&ini), [("a".to_string(), pairs(&[("b", "2"), ("d", "4")]))]);

    let (ini, errors) = Ini::parse_lenient("[s]\nk = v");
    assert_eq!(errors, []);
    assert_eq!(ini.to_string(), "[s]\nk = v");

    let (ini, errors) = Ini::parse_lenient("x");
    assert_eq!(errors, [ParseError::MissingSeparator(0)]);
    assert_eq!(ini.to_string(), "");
}

#[test]
fn get_of_what_is_missing_is_none() {
    let ini = Ini::from_string("[section]\none = 1").unwrap();
    let a: Option<u8> = ini.get("section", "two");
    let b: Option<u8> = ini.get("other", "one");
    let c: Option<String> = ini.get("section", "two");
    let d: Option<String> = ini.get("", "");
    let e: Option<bool> = ini.get("other", "one");
    let f: Option<f64> = ini.get("section", "ONE");
    let g: Option<Vec<u8>> = ini.get_vec("section", "two");
    let h: Option<Vec<String>> = ini.get_vec_with_sep("other", "one", "|");
    assert_eq!(a, None);
    assert_eq!(b, None);
    assert_eq!(c, None);
    assert_eq!(d, None);
    assert_eq!(e, None);
    assert_eq!(f, None);
    assert_eq!(g, None);
    assert_eq!(h, None);
}

#[test]
fn get_reads_the_text_as_the_type_asked_for() {
    let ini = Ini::from_string("[section]\none = 1\nname = Ann\nneg = -5\nyes = true").unwrap();
    assert_eq!(ini.get::<u8>("section", "one"), Some(1));
    assert_eq!(ini.get::<i64>("section", "neg"), Some(-5));
    assert_eq!(ini.get::<u8>("section", "neg"), None);
    assert_eq!(ini.get::<String>("section", "name"), Some("Ann".to_string()));
    assert_eq!(ini.get::<bool>("section", "yes"), Some(true));
    assert_eq!(ini.get::<bool>("section", "one"), None);
    assert_eq!(ini.get::<char>("section", "one"), Some('1'));
}

#[test]
fn get_vec_is_all_or_nothing() {
    let ini = Ini::from_string("[s]\nbad = 1, 2, --, 4\ngood = 1, 2, 3, 4\nbar = 1|2|3|4\nwide =  7 ,8").unwrap();
    assert_eq!(ini.get_vec::<u8>("s", "bad"), None);
    assert_eq!(ini.get_vec::<u8>("s", "good"), Some(vec![1, 2, 3, 4]));
    assert_eq!(ini.get_vec_with_sep::<u8>("s", "bar", "|"), Some(vec![1, 2, 3, 4]));
    assert_eq!(ini.get_vec::<u8>("s", "bar"), None);
    assert_eq!(ini.get_vec::<String>("s", "bar"), Some(vec!["1|2|3|4".to_string()]));
    assert_eq!(ini.get_vec::<u16>("s", "wide"), Some(vec![7, 8]));
    assert_eq!(ini.get_vec_with_sep::<String>("s", "good", ", "), Some(vec!["1".to_string(), "2".to_string(), "3".to_string(), "4".to_string()]));
}

#[test]
fn all_or_nothing_wants_every_value() {
    assert_eq!(all_or_nothing(vec![Some(1), Some(2), Some(3)]), Some(vec![1, 2, 3]));
    assert_eq!(all_or_nothing(vec![Some(1), None, Some(3)]), None);
    assert_eq!(all_or_nothing(vec![None::<u8>]), None);
    assert_eq!(all_or_nothing(Vec::<Option<u8>>::new()), Some(vec![]));
    assert_eq!(all_or_nothing(vec![Some("a")]), Some(vec!["a"]));
}

#[test]
fn section_iter_walks_in_order() {
    let conf = Ini::from_string(["[search]", "g = google.com", "dd = duckduckgo.com"].join("\n")).unwrap();
    let mut search = conf.section_iter("search");
    assert_eq!(search.next(), Some((&"g".to_string(), &"google.com".to_string())));
    assert_eq!(search.next(), Some((&"dd".to_string(), &"duckduckgo.com".to_string())));
    assert_eq!(search.next(), None);
    assert_eq!(search.next(), None);
    assert_eq!(items(&conf, "absent"), []);
}

#[test]
fn iter_walks_the_sections_in_order() {
    let conf = Ini::new()
        .section("foo")
        .item("item", "value")
        .item("other", "something")
        .section("bar")
        .item("one", "1");
    let mut counts = Vec::new();
    let mut it = conf.iter();
    while let Some((name, mut section)) = it.next() {
        let mut n = 0;
        while section.next().is_some() {
            n += 1;
        }
        counts.push((name.clone(), n));
    }
    assert_eq!(counts, [("foo".to_string(), 2), ("bar".to_string(), 1)]);
}

#[test]
fn iter_mut_opens_the_values_to_change() {
    let mut conf = Ini::new()
        .section("foo")
        .item("item", "value")
        .item("other", "something")
        .section("bar")
        .item("one", "1");
    {
        let mut it = conf.iter_mut();
        while let Some((_, mut section)) = it.next() {
            while let Some((_, val)) = section.next() {
                *val = String::from("replaced");
            }
        }
    }
    assert_eq!(conf.to_string(), "[foo]\nitem = replaced\nother = replaced\n\n[bar]\none = replaced");
    let conf = conf.section("bar").item("two", 2);
    assert_eq!(items(&conf, "bar"), pairs(&[("one", "replaced"), ("two", "2")]));
}

#[test]
fn to_string_puts_an_empty_line_between_sections() {
    let conf = Ini::new()
        .section("a")
        .item("x", 1)
        .item("y", 2)
        .section("b")
        .item("z", 3)
        .section("c")
        .item("w", "");
    assert_eq!(conf.to_string(), "[a]\nx = 1\ny = 2\n\n[b]\nz = 3\n\n[c]\nw = ");
}

#[test]
fn written_and_read_again_is_the_same() {
    let conf = Ini::new()
        .section("first one")
        .item("key", "value")
        .item("a b", "c = d")
        .item("empty", "")
        .item("q", "'")
        .section("z]")
        .item("k", "[v]")
        .item("n", 12)
        .section("first one")
        .item("more", "x ; y");
    let text = conf.to_string();
    let again = Ini::from_string(text.as_str()).unwrap();
    assert_eq!(sections(&again), sections(&conf));
    assert_eq!(again.to_string(), text);
    assert_eq!(
        sections(&again),
        [
            (
                "first one".to_string(),
                pairs(&[("key", "value"), ("a b", "c = d"), ("empty", ""), ("q", "'"), ("more", "x ; y")])
            ),
            ("z]".to_string(), pairs(&[("k", "[v]"), ("n", "12")])),
        ]
    );
}

#[test]
fn what_is_not_plain_does_not_come_back_as_it_was() {
    let conf = Ini::new().section("s").item("k", " v ");
    let again = Ini::from_string(conf.to_string()).unwrap();
    assert_eq!(items(&again, "s"), pairs(&[("k", "v")]));
    let conf = Ini::new().section("s").item("k", "\"v\"");
    let again = Ini::from_string(conf.to_string()).unwrap();
    assert_eq!(items(&again, "s"), pairs(&[("k", "v")]));
    let conf = Ini::new().section("s").item("a=b", "c");
    let again = Ini::from_string(conf.to_string()).unwrap();
    assert_eq!(items(&again, "s"), pairs(&[("a", "b = c")]));
    let conf = Ini::new().item("k", "v");
    assert_eq!(parse_error(conf.to_string().as_str()), ParseError::InvalidSection(0));
}
