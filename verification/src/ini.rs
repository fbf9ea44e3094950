//! The document: named sections, each a list of keys with their values, all
//! in the order in which they were added.

use crate::document::{
    document_lines, header_line, item_line, lemma_read_lines_prefix, read, read_lines, render,
    section_items, section_lines, IniView, Items, Sections,
};
use crate::error::{Error, ParseError};
use crate::ordered_hashmap::{Iter, IterMut, OrderedHashMap};
use crate::pairs::{
    del, distinct, has_key, lemma_position, lemma_position_is, lemma_with_values,
    lemma_with_values_del, lemma_with_values_distinct, lemma_with_values_put, position, put,
    with_values,
};
use crate::parser::{parse_span, Parsed};
use crate::text::{
    find_char, join, join_lines, join_with, lines, split_trimmed, texts_of, to_chars,
    trimmed_pieces,
};
use vstd::prelude::*;
use vstd::std_specs::convert::IntoSpec;
use vstd::string::to_string_from_display_ensures;
use vstd::string::StringExecFns;

verus! {

/// A section: keys with their values.
pub type Section = OrderedHashMap<String>;

/// The items of a section.
pub open spec fn items_of(section: Section) -> Items {
    with_values(section@, |v: String| v@)
}

/// The sections of a section table.
pub open spec fn sections_of(document: Seq<(Seq<char>, Section)>) -> Sections {
    with_values(document, |s: Section| items_of(s))
}

/// Whether `r` is what reading `text` gives, where the first line that cannot
/// be read ends it.
pub open spec fn is_read_of(r: Result<Ini, Error>, text: Seq<char>) -> bool {
    match r {
        Ok(ini) => ini.wf() && read(text) == Ok::<IniView, ParseError>(ini@),
        Err(Error::Parse(e)) => read(text) == Err::<IniView, ParseError>(e),
        Err(Error::Io(_)) => false,
    }
}

/// The section table `table` is in order, and each of its sections.
pub open spec fn table_wf(table: OrderedHashMap<Section>) -> bool {
    &&& table.wf()
    &&& forall|i: int| 0 <= i < table@.len() ==> (#[trigger] table@[i]).1.wf()
}

/// An INI document.
pub struct Ini {
    document: OrderedHashMap<Section>,
    last_section_name: String,
    empty_section: Section,
}

impl View for Ini {
    type V = IniView;

    closed spec fn view(&self) -> IniView {
        IniView { sections: sections_of(self.document@), current: self.last_section_name@ }
    }
}

impl Ini {
    /// The document is in order: its section table is, and each section.
    pub closed spec fn wf(&self) -> bool {
        &&& table_wf(self.document)
        &&& self.empty_section.wf()
        &&& self.empty_section@.len() == 0
    }

    /// In a document that is in order no section name occurs twice, and no
    /// key twice in a section.
    pub proof fn lemma_valid(&self)
        requires
            self.wf(),
        ensures
            self@.valid(),
    {
        let d = self.document@;
        self.document.lemma_distinct();
        lemma_with_values_distinct(d, |s: Section| items_of(s));
        assert forall|i: int| 0 <= i < self@.sections.len() implies distinct(
            (#[trigger] self@.sections[i]).1,
        ) by {
            let s = d[i].1;
            assert(s.wf());
            s.lemma_distinct();
            lemma_with_values_distinct(s@, |v: String| v@);
        }
    }

    /// A document without sections.
    pub fn new() -> (ini: Ini)
        ensures
            ini.wf(),
            ini@ == IniView::empty(),
    {
        let ini = Ini {
            document: OrderedHashMap::new(),
            last_section_name: String::new(),
            empty_section: OrderedHashMap::new(),
        };
        assert(ini@.sections =~= Seq::empty());
        ini
    }

    /// Makes `name` the section that `with_item`, `clear` and `erase` work
    /// on. The section itself is made by the first item that is set in it.
    pub fn with_section(self, name: String) -> (ini: Ini)
        requires
            self.wf(),
        ensures
            ini.wf(),
            ini@ == self@.section(name@),
    {
        let mut ini = self;
        ini.last_section_name = name;
        ini
    }

    /// Sets `name` to `value` in the section that the document works on. A
    /// key that is there keeps its place and gets the new value; a new key
    /// goes to the end of the section, and a new section to the end of the
    /// document.
    pub fn with_item(self, name: String, value: String) -> (ini: Ini)
        requires
            self.wf(),
        ensures
            ini.wf(),
            ini@ == self@.item(name@, value@),
    {
        let mut ini = self;
        let ghost before = ini.document@;
        let ghost current = ini.last_section_name@;
        let make = || -> (s: Section)
            ensures
                s.wf(),
                s@.len() == 0,
            { OrderedHashMap::new() };
        let section = ini.document.entry_or_insert_with(ini.last_section_name.clone(), make);
        let ghost found = *section;
        section.insert(name, value);
        proof {
            let after = put(found@, name@, value);
            let to_items = |s: Section| items_of(s);
            let to_text = |v: String| v@;
            lemma_with_values(before, to_items, current);
            lemma_with_values_put(before, to_items, current, *section);
            lemma_with_values_put(found@, to_text, name@, value);
            assert(items_of(found) == section_items(sections_of(before), current)) by {
                if !has_key(before, current) {
                    assert(items_of(found) =~= Seq::empty());
                }
            }
            lemma_each_section_wf_put(before, current, *section);
        }
        ini
    }

    /// Takes out the section that the document works on, with all its items.
    pub fn clear(self) -> (ini: Ini)
        requires
            self.wf(),
        ensures
            ini.wf(),
            ini@ == self@.clear(),
    {
        proof {
            lemma_with_values_del(
                self.document@,
                |s: Section| items_of(s),
                self.last_section_name@,
            );
            lemma_each_section_wf_del(self.document@, self.last_section_name@);
        }
        let mut ini = self;
        ini.document.remove(ini.last_section_name.as_str());
        ini
    }

    /// Takes `key` out of the section that the document works on.
    pub fn erase(self, key: &str) -> (ini: Ini)
        requires
            self.wf(),
        ensures
            ini.wf(),
            ini@ == self@.erase(key@),
    {
        let mut ini = self;
        let ghost before = ini.document@;
        let ghost current = ini.last_section_name@;
        match ini.document.get_mut(ini.last_section_name.as_str()) {
            Some(section) => {
                let ghost found = *section;
                proof {
                    lemma_position(before, current);
                    assert(found.wf());
                }
                section.remove(key);
                proof {
                    let to_items = |s: Section| items_of(s);
                    let to_text = |v: String| v@;
                    lemma_with_values(before, to_items, current);
                    lemma_with_values_put(before, to_items, current, *section);
                    lemma_with_values_del(found@, to_text, key@);
                    lemma_each_section_wf_put(before, current, *section);
                }
            },
            None => {
                proof {
                    lemma_with_values(before, |s: Section| items_of(s), current);
                }
            },
        }
        ini
    }

    /// The value of `key` in the section `section`, as it is kept.
    pub fn get_raw(&self, section: &str, key: &str) -> (r: Option<&String>)
        requires
            self.wf(),
        ensures
            match r {
                Some(v) => self@.get(section@, key@) == Some(v@),
                None => self@.get(section@, key@) is None,
            },
    {
        proof {
            lemma_with_values(self.document@, |s: Section| items_of(s), section@);
            lemma_position(self.document@, section@);
        }
        match self.document.get(section) {
            Some(s) => {
                proof {
                    lemma_with_values(s@, |v: String| v@, key@);
                }
                s.get(key)
            },
            None => {
                proof {
                    lemma_position_is(Seq::<(Seq<char>, Seq<char>)>::empty(), key@, 0);
                }
                None
            },
        }
    }

    /// Reads the lines of `chars` one after the other. Where `lenient` holds,
    /// a line that cannot be read is noted and reading goes on; where it does
    /// not, reading ends at the first such line.
    fn read_chars(chars: &Vec<char>, lenient: bool) -> (r: (Ini, Vec<ParseError>))
        ensures
            r.0.wf(),
            lenient || read_lines(lines(chars@)).1.len() == 0 ==> (r.0@, r.1@) == read_lines(
                lines(chars@),
            ),
            !lenient && read_lines(lines(chars@)).1.len() > 0 ==> r.1@ == seq![
                read_lines(lines(chars@)).1[0],
            ],
    {
        let mut ini = Ini::new();
        let mut errors: Vec<ParseError> = Vec::new();
        let mut start: usize = 0;
        let mut index: usize = 0;
        let ghost all = lines(chars@);
        let ghost mut done: Seq<Seq<char>> = Seq::empty();
        proof {
            assert(chars@.skip(0) =~= chars@);
            assert(done + lines(chars@) =~= lines(chars@));
        }
        while start < chars.len()
            invariant
                start <= chars.len(),
                index == done.len(),
                index <= start,
                all == lines(chars@),
                all == done + lines(chars@.skip(start as int)),
                ini.wf(),
                read_lines(done) == (ini@, errors@),
                !lenient ==> errors@.len() == 0,
            decreases chars.len() - start,
        {
            let end = find_char(chars, start, chars.len(), '\n');
            let ghost line = chars@.subrange(start as int, end as int);
            let ghost rest = chars@.skip(start as int);
            let next: usize = if end < chars.len() {
                end + 1
            } else {
                end
            };
            proof {
                assert(chars@.subrange(start as int, chars@.len() as int) =~= rest);
                if end < chars.len() {
                    assert(rest.take(end - start) =~= line);
                    assert(rest.skip(end - start + 1) =~= chars@.skip(next as int));
                } else {
                    assert(rest =~= line);
                    assert(lines(chars@.skip(next as int)) =~= Seq::empty());
                }
                assert(lines(rest) =~= seq![line] + lines(chars@.skip(next as int)));
                assert(all =~= done.push(line) + lines(chars@.skip(next as int)));
                assert(done.push(line).drop_last() =~= done);
            }
            match parse_span(chars, start, end, index) {
                Ok(Parsed::Section(name)) => {
                    ini = ini.with_section(name);
                },
                Ok(Parsed::Value(key, value)) => {
                    ini = ini.with_item(key, value);
                },
                Ok(_) => {},
                Err(e) => {
                    errors.push(e);
                    if !lenient {
                        proof {
                            lemma_read_lines_prefix(all, index + 1);
                            assert(all.take(index + 1) =~= done.push(line));
                            assert(errors@ =~= seq![e]);
                        }
                        return (ini, errors);
                    }
                },
            }
            proof {
                done = done.push(line);
            }
            start = next;
            index = index + 1;
        }
        proof {
            assert(chars@.skip(start as int) =~= Seq::empty());
            assert(all =~= done);
        }
        (ini, errors)
    }

    /// Reads a document from `text`. The first line that cannot be read ends
    /// the reading, and its error is returned.
    pub fn parse(text: &str) -> (r: Result<Ini, Error>)
        ensures
            is_read_of(r, text@),
    {
        let chars = to_chars(text);
        let (ini, errors) = Ini::read_chars(&chars, false);
        if errors.len() == 0 {
            Ok(ini)
        } else {
            Err(Error::Parse(errors[0]))
        }
    }

    /// Reads a document from `text` and goes on behind a line that cannot be
    /// read: the document holds what the other lines say, and the errors
    /// come back with it, in the order of their lines.
    pub fn parse_lenient(text: &str) -> (r: (Ini, Vec<ParseError>))
        ensures
            r.0.wf(),
            (r.0@, r.1@) == read_lines(lines(text@)),
    {
        let chars = to_chars(text);
        Ini::read_chars(&chars, true)
    }

    /// A walk over the items of the section `section`, in the order in which
    /// their keys were added. It is empty where there is no such section.
    pub fn section_iter(&self, section: &str) -> (it: SectionIter<'_>)
        requires
            self.wf(),
        ensures
            it@ == section_items(self@.sections, section@),
    {
        proof {
            lemma_with_values(self.document@, |s: Section| items_of(s), section@);
            lemma_position(self.document@, section@);
        }
        match self.document.get(section) {
            Some(s) => SectionIter { iter: s.iter() },
            None => {
                proof {
                    assert(items_of(self.empty_section) =~= Seq::empty());
                }
                SectionIter { iter: self.empty_section.iter() }
            },
        }
    }

    /// A walk over the sections, in the order in which they were added; each
    /// comes with a walk over its items.
    pub fn iter(&self) -> (it: IniIter<'_>)
        ensures
            it@ == self@.sections,
    {
        IniIter { iter: self.document.iter() }
    }

    /// The section table of the document.
    pub closed spec fn table(&self) -> OrderedHashMap<Section> {
        self.document
    }

    /// The sections of a document are those of its section table, and a
    /// document that is in order has a table that is.
    pub proof fn lemma_table(&self)
        ensures
            self@.sections == sections_of(self.table()@),
            self.wf() ==> table_wf(self.table()),
    {
    }

    /// A walk over the sections, in the order in which they were added, that
    /// hands out each value open to change. While the walk is there, the
    /// document can be reached through it alone; what the section table is
    /// when the walk is over is what the walk leaves.
    pub fn iter_mut(&mut self) -> (it: IniIterMut<'_>)
        ensures
            *it.source() == old(self).table(),
            *final(it.source()) == final(self).table(),
            it@ == old(self)@.sections,
            it.passed() == Seq::<(Seq<char>, Items)>::empty(),
            final(self)@.current == old(self)@.current,
            old(self).wf() && table_wf(final(self).table()) ==> final(self).wf(),
    {
        let it = IniIterMut { iter: self.document.iter_mut() };
        proof {
            assert(it.passed() =~= Seq::empty());
        }
        it
    }

    /// The text of the document: for each section its header and its items,
    /// one line each, with an empty line between each two sections.
    pub fn to_string(&self) -> (text: String)
        ensures
            text@ == render(self@.sections),
    {
        let mut text = String::new();
        let mut sections = self.iter();
        let ghost all = self@.sections;
        let ghost mut done: Sections = Seq::empty();
        let ghost mut out: Seq<Seq<char>> = Seq::empty();
        let mut started = false;
        proof {
            assert(done + sections@ =~= all);
        }
        loop
            invariant
                all == self@.sections,
                all == done + sections@,
                out == document_lines(done),
                text@ == join_lines(out),
                started == (done.len() > 0),
                started ==> out.len() > 0,
            ensures
                text@ == render(all),
            decreases sections@.len(),
        {
            let ghost waiting = sections@;
            match sections.next() {
                None => {
                    proof {
                        assert(all =~= done);
                    }
                    break ;
                },
                Some((name, mut items)) => {
                    let ghost section_items = items@;
                    let ghost mut block: Seq<Seq<char>> = seq![header_line(name@)];
                    let ghost before = out;
                    if started {
                        text.push('\n');
                        text.push('\n');
                        proof {
                            out = out.push(Seq::empty());
                            assert(out.drop_last() =~= before);
                            assert(join_lines(out) =~= join_lines(before) + seq!['\n']);
                        }
                    }
                    let ghost spaced = out;
                    text.push('[');
                    text.append(name.as_str());
                    text.push(']');
                    proof {
                        out = out.push(header_line(name@));
                        assert(out.drop_last() =~= spaced);
                        assert(text@ =~= join_lines(out));
                        assert(out =~= spaced + block);
                    }
                    let ghost mut shown: Items = Seq::empty();
                    loop
                        invariant
                            section_items == shown + items@,
                            block == section_lines(name@, shown),
                            out == spaced + block,
                            text@ == join_lines(out),
                        ensures
                            out == spaced + section_lines(name@, section_items),
                            text@ == join_lines(out),
                        decreases items@.len(),
                    {
                        let ghost waiting = items@;
                        match items.next() {
                            None => {
                                proof {
                                    assert(section_items =~= shown);
                                }
                                break ;
                            },
                            Some((key, value)) => {
                                let ghost earlier = out;
                                text.push('\n');
                                text.append(key.as_str());
                                text.push(' ');
                                text.push('=');
                                text.push(' ');
                                text.append(value.as_str());
                                proof {
                                    let pair = (key@, value@);
                                    assert(waiting =~= seq![pair] + items@);
                                    assert(shown.push(pair) + items@ =~= section_items);
                                    shown = shown.push(pair);
                                    block = block.push(item_line(key@, value@));
                                    assert(block =~= section_lines(name@, shown));
                                    out = out.push(item_line(key@, value@));
                                    assert(out.drop_last() =~= earlier);
                                    assert(text@ =~= join_lines(out));
                                    assert(out =~= spaced + block);
                                }
                            },
                        }
                    }
                    proof {
                        let section = (name@, section_items);
                        assert(waiting =~= seq![section] + sections@);
                        assert(done.push(section) + sections@ =~= all);
                        assert(done.push(section).drop_last() =~= done);
                        done = done.push(section);
                        assert(out =~= document_lines(done));
                    }
                    started = true;
                },
            }
        }
        text
    }
}

/// A walk over the items of a section. Its view is the items that are still
/// to come.
pub struct SectionIter<'a> {
    iter: Iter<'a, String>,
}

impl<'a> View for SectionIter<'a> {
    type V = Items;

    closed spec fn view(&self) -> Items {
        with_values(self.iter@, |v: String| v@)
    }
}

impl<'a> SectionIter<'a> {
    /// The next key with its value, or `None` when the walk is over.
    pub fn next(&mut self) -> (r: Option<(&'a String, &'a String)>)
        ensures
            match r {
                Some((k, v)) => {
                    &&& old(self)@.len() > 0
                    &&& old(self)@[0] == (k@, v@)
                    &&& final(self)@ == old(self)@.drop_first()
                },
                None => old(self)@.len() == 0 && final(self)@.len() == 0,
            },
    {
        let ghost before = self.iter@;
        let r = self.iter.next();
        proof {
            let f = |v: String| v@;
            if r is Some {
                assert(with_values(before.drop_first(), f) =~= with_values(before, f).drop_first());
            }
        }
        r
    }
}

/// A walk over the sections of a document. Its view is the sections that are
/// still to come.
pub struct IniIter<'a> {
    iter: Iter<'a, Section>,
}

impl<'a> View for IniIter<'a> {
    type V = Sections;

    closed spec fn view(&self) -> Sections {
        sections_of(self.iter@)
    }
}

impl<'a> IniIter<'a> {
    /// The name of the next section with a walk over its items, or `None`
    /// when the walk is over.
    pub fn next(&mut self) -> (r: Option<(&'a String, SectionIter<'a>)>)
        ensures
            match r {
                Some((name, items)) => {
                    &&& old(self)@.len() > 0
                    &&& old(self)@[0] == (name@, items@)
                    &&& final(self)@ == old(self)@.drop_first()
                },
                None => old(self)@.len() == 0 && final(self)@.len() == 0,
            },
    {
        let ghost before = self.iter@;
        match self.iter.next() {
            Some((name, section)) => {
                proof {
                    let f = |s: Section| items_of(s);
                    assert(with_values(before.drop_first(), f) =~= with_values(
                        before,
                        f,
                    ).drop_first());
                }
                Some((name, SectionIter { iter: section.iter() }))
            },
            None => None,
        }
    }
}

/// What the pairs of strings `pairs` hold, in order.
pub open spec fn items_in(pairs: Seq<(String, String)>) -> Items {
    Seq::new(pairs.len(), |i: int| (pairs[i].0@, pairs[i].1@))
}

/// `str::parse` for the type `T`, with `None` in place of its error. What
/// comes back is for `T` alone to say, so nothing is claimed of it.
#[verifier::external_body]
fn from_text<T: std::str::FromStr>(text: &str) -> (r: Option<T>) {
    text.parse().ok()
}

/// All the values of `parsed`, if each of them is there; `None` as soon as
/// one is missing.
pub fn all_or_nothing<T>(parsed: Vec<Option<T>>) -> (r: Option<Vec<T>>)
    ensures
        match r {
            Some(values) => {
                &&& values@.len() == parsed@.len()
                &&& forall|i: int| 0 <= i < parsed@.len() ==> parsed@[i] == Some(values@[i])
            },
            None => exists|i: int| 0 <= i < parsed@.len() && parsed@[i] is None,
        },
{
    let mut values: Vec<T> = Vec::new();
    for item in it: parsed
        invariant
            it.seq() == parsed@,
            values@.len() == it.index(),
            forall|i: int| 0 <= i < it.index() ==> parsed@[i] == Some(values@[i]),
    {
        match item {
            Some(value) => {
                values.push(value);
            },
            None => {
                return None;
            },
        }
    }
    Some(values)
}

impl Ini {
    /// Sets each key of `pairs` to its value, in order, in the section that
    /// the document works on.
    pub fn with_items(self, pairs: Vec<(String, String)>) -> (ini: Ini)
        requires
            self.wf(),
        ensures
            ini.wf(),
            ini@ == self@.items(items_in(pairs@)),
    {
        let mut ini = self;
        let mut i: usize = 0;
        while i < pairs.len()
            invariant
                i <= pairs.len(),
                ini.wf(),
                ini@ == self@.items(items_in(pairs@).take(i as int)),
            decreases pairs.len() - i,
        {
            proof {
                let all = items_in(pairs@);
                assert(all.take(i + 1).drop_last() =~= all.take(i as int));
            }
            ini = ini.with_item(pairs[i].0.clone(), pairs[i].1.clone());
            i += 1;
        }
        proof {
            let all = items_in(pairs@);
            assert(all.take(i as int) =~= all);
        }
        ini
    }

    /// Reads a document from `buf`, as [`Ini::parse`] does from the text that
    /// `buf` turns into.
    pub fn from_string<S: Into<String>>(buf: S) -> (r: Result<Ini, Error>)
        ensures
            exists|text: String|
                (S::obeys_into_spec() ==> text == buf.into_spec()) && #[trigger] is_read_of(
                    r,
                    text@,
                ),
    {
        let text: String = buf.into();
        let r = Ini::parse(text.as_str());
        assert(is_read_of(r, text@));
        r
    }

    /// Makes the section with the name that `name` turns into the one that
    /// `item`, `clear` and `erase` work on, as [`Ini::with_section`] does.
    pub fn section<S: Into<String>>(self, name: S) -> (ini: Ini)
        requires
            self.wf(),
        ensures
            ini.wf(),
            ini@.sections == self@.sections,
            S::obeys_into_spec() ==> ini@.current == name.into_spec()@,
    {
        self.with_section(name.into())
    }

    /// Sets the key that `name` turns into to the text that `value` shows
    /// as, in the section that the document works on, as [`Ini::with_item`]
    /// does.
    pub fn item<N, V>(self, name: N, value: V) -> (ini: Ini) where
        N: Into<String>,
        V: std::fmt::Display,

        requires
            self.wf(),
        ensures
            ini.wf(),
            exists|key: String, text: String|
                {
                    &&& N::obeys_into_spec() ==> key == name.into_spec()
                    &&& to_string_from_display_ensures::<V>(&value, text)
                    &&& ini@ == #[trigger] self@.item(key@, text@)
                },
    {
        let key: String = name.into();
        let text = value.to_string();
        let ini = self.with_item(key, text);
        assert(ini@ == self@.item(key@, text@));
        ini
    }

    /// Sets the key that `name` turns into to the texts that the elements of
    /// `vector` show as, with `sep` between each two, as [`Ini::with_item`]
    /// does.
    pub fn item_vec_with_sep<S, V>(self, name: S, vector: &[V], sep: &str) -> (ini: Ini) where
        S: Into<String>,
        V: std::fmt::Display,

        requires
            self.wf(),
        ensures
            ini.wf(),
            exists|key: String, texts: Seq<String>|
                {
                    &&& S::obeys_into_spec() ==> key == name.into_spec()
                    &&& texts.len() == vector@.len()
                    &&& forall|i: int|
                        0 <= i < texts.len() ==> to_string_from_display_ensures::<V>(
                            &vector@[i],
                            #[trigger] texts[i],
                        )
                    &&& ini@ == #[trigger] self@.item(key@, join_with(texts_of(texts), sep@))
                },
    {
        let key: String = name.into();
        let mut texts: Vec<String> = Vec::new();
        let mut i: usize = 0;
        while i < vector.len()
            invariant
                i <= vector.len(),
                texts@.len() == i,
                forall|j: int|
                    0 <= j < i ==> to_string_from_display_ensures::<V>(
                        &vector@[j],
                        #[trigger] texts@[j],
                    ),
            decreases vector.len() - i,
        {
            texts.push(vector[i].to_string());
            i += 1;
        }
        let ini = self.with_item(key, join(&texts, sep));
        assert(ini@ == self@.item(key@, join_with(texts_of(texts@), sep@)));
        ini
    }

    /// As [`Ini::item_vec_with_sep`] with a comma and a blank between each
    /// two elements.
    pub fn item_vec<S, V>(self, name: S, vector: &[V]) -> (ini: Ini) where
        S: Into<String>,
        V: std::fmt::Display,

        requires
            self.wf(),
        ensures
            ini.wf(),
            exists|key: String, texts: Seq<String>|
                {
                    &&& S::obeys_into_spec() ==> key == name.into_spec()
                    &&& texts.len() == vector@.len()
                    &&& forall|i: int|
                        0 <= i < texts.len() ==> to_string_from_display_ensures::<V>(
                            &vector@[i],
                            #[trigger] texts[i],
                        )
                    &&& ini@ == #[trigger] self@.item(key@, join_with(texts_of(texts), ", "@))
                },
    {
        self.item_vec_with_sep(name, vector, ", ")
    }

    /// Sets, for each pair of `items`, the key that its first part shows as to
    /// the text that its second part shows as, in order, as
    /// [`Ini::with_items`] does.
    pub fn items<K, V>(self, items: Vec<(K, V)>) -> (ini: Ini) where
        K: std::fmt::Display + Eq + std::hash::Hash,
        V: std::fmt::Display,

        requires
            self.wf(),
        ensures
            ini.wf(),
            exists|pairs: Seq<(String, String)>|
                {
                    &&& pairs.len() == items@.len()
                    &&& forall|i: int|
                        0 <= i < pairs.len() ==> {
                            &&& to_string_from_display_ensures::<K>(
                                &items@[i].0,
                                (#[trigger] pairs[i]).0,
                            )
                            &&& to_string_from_display_ensures::<V>(&items@[i].1, pairs[i].1)
                        }
                    &&& ini@ == #[trigger] self@.items(items_in(pairs))
                },
    {
        let mut pairs: Vec<(String, String)> = Vec::new();
        let mut i: usize = 0;
        while i < items.len()
            invariant
                i <= items.len(),
                pairs@.len() == i,
                forall|j: int|
                    0 <= j < i ==> {
                        &&& to_string_from_display_ensures::<K>(
                            &items@[j].0,
                            (#[trigger] pairs@[j]).0,
                        )
                        &&& to_string_from_display_ensures::<V>(&items@[j].1, pairs@[j].1)
                    },
            decreases items.len() - i,
        {
            pairs.push((items[i].0.to_string(), items[i].1.to_string()));
            i += 1;
        }
        let ini = self.with_items(pairs);
        assert(ini@ == self@.items(items_in(pairs@)));
        ini
    }

    /// The value of `key` in the section `section`, read as a `T`. It is
    /// `None` where there is no such section or key, and where the text is no
    /// `T`.
    pub fn get<T: std::str::FromStr>(&self, section: &str, key: &str) -> (r: Option<T>)
        requires
            self.wf(),
        ensures
            match self@.get(section@, key@) {
                Some(text) => parses_to(text, r),
                None => r is None,
            },
    {
        match self.get_raw(section, key) {
            Some(text) => from_text(text.as_str()),
            None => None,
        }
    }

    /// As [`Ini::get_vec_with_sep`] with a comma between the elements.
    pub fn get_vec<T: std::str::FromStr>(&self, section: &str, key: &str) -> (r: Option<Vec<T>>)
        requires
            self.wf(),
        ensures
            match self@.get(section@, key@) {
                Some(text) => list_parses_to(trimmed_pieces(text, ","@), r),
                None => r is None,
            },
    {
        self.get_vec_with_sep(section, key, ",")
    }

    /// The value of `key` in the section `section`, read as a list of `T`:
    /// the pieces between the places where `sep` stands, each without the
    /// white space around it. It is `None` where there is no such section or
    /// key, and where one of the pieces is no `T`.
    pub fn get_vec_with_sep<T: std::str::FromStr>(&self, section: &str, key: &str, sep: &str) -> (r:
        Option<Vec<T>>)
        requires
            self.wf(),
        ensures
            match self@.get(section@, key@) {
                Some(text) => list_parses_to(trimmed_pieces(text, sep@), r),
                None => r is None,
            },
    {
        match self.get_raw(section, key) {
            Some(text) => {
                let chars = to_chars(text.as_str());
                let mark = to_chars(sep);
                let pieces = split_trimmed(&chars, &mark);
                let mut parsed: Vec<Option<T>> = Vec::new();
                let mut i: usize = 0;
                while i < pieces.len()
                    invariant
                        i <= pieces.len(),
                        parsed@.len() == i,
                        forall|j: int|
                            0 <= j < i ==> parses_to(texts_of(pieces@)[j], #[trigger] parsed@[j]),
                    decreases pieces.len() - i,
                {
                    parsed.push(from_text(pieces[i].as_str()));
                    i += 1;
                }
                let ghost outcomes = parsed@;
                let r = all_or_nothing(parsed);
                assert(each_parses_to(texts_of(pieces@), outcomes));
                assert(is_all_or_nothing(outcomes, r));
                r
            },
            None => None,
        }
    }
}

/// Whether `r` is what `str::parse` has given, for the type `T`, on a string
/// that holds `text`: the value that it made of the text, or `None` where it
/// made none.
pub closed spec fn parses_to<T: std::str::FromStr>(text: Seq<char>, r: Option<T>) -> bool {
    exists|s: &str| s@ == text && #[trigger] call_ensures(from_text::<T>, (s,), r)
}

/// Whether `parsed` holds, for each of the texts `texts` in order, what
/// `str::parse` has given on it.
pub open spec fn each_parses_to<T: std::str::FromStr>(
    texts: Seq<Seq<char>>,
    parsed: Seq<Option<T>>,
) -> bool {
    &&& parsed.len() == texts.len()
    &&& forall|i: int| 0 <= i < texts.len() ==> parses_to(texts[i], #[trigger] parsed[i])
}

/// Whether `r` is all the values of `parsed`, in order, where each of them is
/// there, and `None` where one is missing.
pub open spec fn is_all_or_nothing<T>(parsed: Seq<Option<T>>, r: Option<Vec<T>>) -> bool {
    match r {
        Some(values) => {
            &&& values@.len() == parsed.len()
            &&& forall|i: int| 0 <= i < parsed.len() ==> parsed[i] == Some(values@[i])
        },
        None => exists|i: int| 0 <= i < parsed.len() && parsed[i] is None,
    }
}

/// Whether `r` is what reading each of the texts `texts` as a `T` gives: all
/// the values in order where `str::parse` has made a value of each text, and
/// `None` where it has made none of one of them.
pub open spec fn list_parses_to<T: std::str::FromStr>(
    texts: Seq<Seq<char>>,
    r: Option<Vec<T>>,
) -> bool {
    exists|parsed: Seq<Option<T>>|
        each_parses_to(texts, parsed) && #[trigger] is_all_or_nothing(parsed, r)
}

impl Default for Ini {
    /// A document without sections.
    fn default() -> (ini: Ini)
        ensures
            ini.wf(),
            ini@ == IniView::empty(),
    {
        Ini::new()
    }
}

/// A walk over the items of a section that hands out each value open to
/// change. Its view is the items that are still to come.
pub struct SectionIterMut<'a> {
    iter: IterMut<'a, String>,
}

impl<'a> View for SectionIterMut<'a> {
    type V = Items;

    closed spec fn view(&self) -> Items {
        with_values(self.iter@, |v: String| v@)
    }
}

impl<'a> SectionIterMut<'a> {
    /// The section that is walked.
    pub closed spec fn source(&self) -> &'a mut Section {
        self.iter.source()
    }

    /// The items that the walk has passed, as they are now.
    pub closed spec fn passed(&self) -> Items {
        with_values(self.iter.passed(), |v: String| v@)
    }

    /// The items of the section are those that the walk has passed and those
    /// that are still to come.
    pub proof fn lemma_passed_and_coming(&self)
        ensures
            items_of(*self.source()) == self.passed() + self@,
    {
        self.iter.lemma_passed_and_coming();
        assert(items_of(*self.source()) =~= self.passed() + self@);
    }

    /// Once the walk is no longer used, the section is what the walk has
    /// left.
    pub proof fn lemma_done(&self)
        requires
            has_resolved(*self),
        ensures
            *self.source() == *final(self.source()),
    {
        self.iter.lemma_done();
    }

    /// The next key with its value, open to change, or `None` when the walk
    /// is over. What is written through the reference becomes the value of
    /// the key; nothing else of the section changes.
    pub fn next(&mut self) -> (r: Option<(&String, &mut String)>)
        ensures
            *final(final(self).source()) == *final(old(self).source()),
            old(self).source().wf() ==> final(self).source().wf(),
            match r {
                Some((k, v)) => {
                    &&& old(self)@.len() > 0
                    &&& old(self)@[0] == (k@, v@)
                    &&& final(self)@ == old(self)@.drop_first()
                    &&& final(self).passed() == old(self).passed().push((k@, final(v)@))
                },
                None => {
                    &&& old(self)@.len() == 0
                    &&& final(self)@.len() == 0
                    &&& final(self).passed() == old(self).passed()
                    &&& *final(self).source() == *old(self).source()
                },
            },
    {
        let ghost coming = self.iter@;
        let ghost passed = self.iter.passed();
        proof {
            let f = |v: String| v@;
            if coming.len() > 0 {
                assert(with_values(coming.drop_first(), f) =~= with_values(
                    coming,
                    f,
                ).drop_first());
            }
            assert forall|w: String| #[trigger]
                with_values(passed.push((coming[0].0, w)), f) == with_values(passed, f).push(
                    (coming[0].0, w@),
                ) by {
                assert(with_values(passed.push((coming[0].0, w)), f) =~= with_values(
                    passed,
                    f,
                ).push((coming[0].0, w@)));
            }
        }
        self.iter.next()
    }
}

/// A walk over the sections of a document that hands out each section as a
/// walk over its items, with each value open to change. Its view is the
/// sections that are still to come.
pub struct IniIterMut<'a> {
    iter: IterMut<'a, Section>,
}

impl<'a> View for IniIterMut<'a> {
    type V = Sections;

    closed spec fn view(&self) -> Sections {
        sections_of(self.iter@)
    }
}

impl<'a> IniIterMut<'a> {
    /// The section table that is walked.
    pub closed spec fn source(&self) -> &'a mut OrderedHashMap<Section> {
        self.iter.source()
    }

    /// The sections that the walk has passed, as they are now.
    pub closed spec fn passed(&self) -> Sections {
        sections_of(self.iter.passed())
    }

    /// The sections of the table are those that the walk has passed and
    /// those that are still to come.
    pub proof fn lemma_passed_and_coming(&self)
        ensures
            sections_of(self.source()@) == self.passed() + self@,
    {
        self.iter.lemma_passed_and_coming();
        assert(sections_of(self.source()@) =~= self.passed() + self@);
    }

    /// Once the walk is no longer used, the section table is what the walk
    /// has left.
    pub proof fn lemma_done(&self)
        requires
            has_resolved(*self),
        ensures
            *self.source() == *final(self.source()),
    {
        self.iter.lemma_done();
    }

    /// The name of the next section with a walk over its items, or `None`
    /// when the walk is over. What the walk over the items leaves becomes the
    /// section; nothing else of the table changes.
    pub fn next(&mut self) -> (r: Option<(&String, SectionIterMut<'_>)>)
        ensures
            *final(final(self).source()) == *final(old(self).source()),
            old(self).source().wf() ==> final(self).source().wf(),
            match r {
                Some((name, items)) => {
                    &&& old(self)@.len() > 0
                    &&& old(self)@[0] == (name@, items@)
                    &&& items.passed() == Seq::<(Seq<char>, Seq<char>)>::empty()
                    &&& final(self)@ == old(self)@.drop_first()
                    &&& final(self).passed() == old(self).passed().push(
                        (name@, items_of(*final(items.source()))),
                    )
                    &&& table_wf(*old(self).source()) ==> items.source().wf()
                    &&& table_wf(*old(self).source()) && final(items.source()).wf() ==> table_wf(
                        *final(self).source(),
                    )
                },
                None => {
                    &&& old(self)@.len() == 0
                    &&& final(self)@.len() == 0
                    &&& final(self).passed() == old(self).passed()
                    &&& *final(self).source() == *old(self).source()
                },
            },
    {
        let ghost coming = self.iter@;
        let ghost passed = self.iter.passed();
        proof {
            let f = |s: Section| items_of(s);
            if coming.len() > 0 {
                assert(with_values(coming.drop_first(), f) =~= with_values(
                    coming,
                    f,
                ).drop_first());
            }
            assert forall|w: Section| #[trigger]
                with_values(passed.push((coming[0].0, w)), f) == with_values(passed, f).push(
                    (coming[0].0, items_of(w)),
                ) by {
                assert(with_values(passed.push((coming[0].0, w)), f) =~= with_values(
                    passed,
                    f,
                ).push((coming[0].0, items_of(w))));
            }
        }
        let ghost table = self.iter.source()@;
        let ghost at = passed.len() as int;
        proof {
            self.iter.lemma_passed_and_coming();
            if coming.len() > 0 {
                assert((passed + coming)[at] == coming[0]);
            }
            assert forall|w: Section|
                (forall|i: int| 0 <= i < table.len() ==> (#[trigger] table[i]).1.wf()) && w.wf()
                    && coming.len() > 0 implies (forall|i: int|
                    0 <= i < table.len() ==> (#[trigger] table.update(at, (coming[0].0, w))[i]).1.wf()) by {
                let after = table.update(at, (coming[0].0, w));
                assert forall|i: int| 0 <= i < table.len() implies (#[trigger] after[i]).1.wf() by {
                    if i != at {
                        assert(after[i] == table[i]);
                    }
                }
            }
        }
        match self.iter.next() {
            Some((name, section)) => {
                let items = SectionIterMut { iter: section.iter_mut() };
                proof {
                    assert(items.passed() =~= Seq::empty());
                }
                Some((name, items))
            },
            None => None,
        }
    }
}

/// A table whose sections are all in order stays so when a section that is
/// in order is set in it.
proof fn lemma_each_section_wf_put(d: Seq<(Seq<char>, Section)>, name: Seq<char>, s: Section)
    requires
        forall|i: int| 0 <= i < d.len() ==> (#[trigger] d[i]).1.wf(),
        s.wf(),
    ensures
        forall|i: int| 0 <= i < put(d, name, s).len() ==> (#[trigger] put(d, name, s)[i]).1.wf(),
{
    lemma_position(d, name);
    let t = put(d, name, s);
    assert forall|i: int| 0 <= i < t.len() implies (#[trigger] t[i]).1.wf() by {
        if i < d.len() && i != position(d, name) {
            assert(t[i] == d[i]);
        }
    }
}

/// A table whose sections are all in order stays so when a section is taken
/// out of it.
proof fn lemma_each_section_wf_del(d: Seq<(Seq<char>, Section)>, name: Seq<char>)
    requires
        forall|i: int| 0 <= i < d.len() ==> (#[trigger] d[i]).1.wf(),
    ensures
        forall|i: int| 0 <= i < del(d, name).len() ==> (#[trigger] del(d, name)[i]).1.wf(),
{
    lemma_position(d, name);
    let t = del(d, name);
    let p = position(d, name) as int;
    assert forall|i: int| 0 <= i < t.len() implies (#[trigger] t[i]).1.wf() by {
        if has_key(d, name) {
            if i < p {
                assert(t[i] == d[i]);
            } else {
                assert(t[i] == d[i + 1]);
            }
        }
    }
}

} // verus!
