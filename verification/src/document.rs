//! A document as a value: what its sections hold, what each change makes of
//! it, how it is written as text, and what reading a text gives.

use crate::error::ParseError;
use crate::pairs::{del, distinct, has_key, lookup, put};
use crate::parser::{classify, Line};
use crate::text::{join_lines, lines};
use vstd::prelude::*;

verus! {

/// The keys of a section with their values, as a value.
pub type Items = Seq<(Seq<char>, Seq<char>)>;

/// The sections of a document with their items, as a value.
pub type Sections = Seq<(Seq<char>, Items)>;

/// The items of the section `name` of `sections`; none where there is no such
/// section.
pub open spec fn section_items(sections: Sections, name: Seq<char>) -> Items {
    match lookup(sections, name) {
        Some(items) => items,
        None => Seq::empty(),
    }
}

/// A document as a value: its sections in order, and the name of the section
/// that `item`, `clear` and `erase` work on.
pub struct IniView {
    pub sections: Sections,
    pub current: Seq<char>,
}

impl IniView {
    /// The document without sections, working on the section with the empty
    /// name.
    pub open spec fn empty() -> IniView {
        IniView { sections: Seq::empty(), current: Seq::empty() }
    }

    /// No section name occurs twice, and no key twice in a section.
    pub open spec fn valid(self) -> bool {
        &&& distinct(self.sections)
        &&& forall|i: int| 0 <= i < self.sections.len() ==> distinct((#[trigger] self.sections[i]).1)
    }

    /// The document working on the section `name`. No section is made.
    pub open spec fn section(self, name: Seq<char>) -> IniView {
        IniView { sections: self.sections, current: name }
    }

    /// The document after `key` is set to `value` in the section it works on.
    /// A section that is not there yet is added at the end.
    pub open spec fn item(self, key: Seq<char>, value: Seq<char>) -> IniView {
        IniView {
            sections: put(
                self.sections,
                self.current,
                put(section_items(self.sections, self.current), key, value),
            ),
            current: self.current,
        }
    }

    /// The document without the section it works on.
    pub open spec fn clear(self) -> IniView {
        IniView { sections: del(self.sections, self.current), current: self.current }
    }

    /// The document without `key` in the section it works on. The section
    /// stays, also when this was its last key.
    pub open spec fn erase(self, key: Seq<char>) -> IniView {
        if has_key(self.sections, self.current) {
            IniView {
                sections: put(
                    self.sections,
                    self.current,
                    del(section_items(self.sections, self.current), key),
                ),
                current: self.current,
            }
        } else {
            self
        }
    }

    /// The value of `key` in the section `section`.
    pub open spec fn get(self, section: Seq<char>, key: Seq<char>) -> Option<Seq<char>> {
        lookup(section_items(self.sections, section), key)
    }

    /// The document after each key of `pairs` is set to its value, in order,
    /// in the section it works on.
    pub open spec fn items(self, pairs: Items) -> IniView
        decreases pairs.len(),
    {
        if pairs.len() == 0 {
            self
        } else {
            self.items(pairs.drop_last()).item(pairs.last().0, pairs.last().1)
        }
    }

    /// The document after a line that says `line`: a header makes its section
    /// the one that is worked on, a key with its value is set in that
    /// section, and any other line changes nothing.
    pub open spec fn apply(self, line: Line) -> IniView {
        match line {
            Line::Section(name) => self.section(name),
            Line::Value(key, value) => self.item(key, value),
            _ => self,
        }
    }
}

/// The header line of the section `name`.
pub open spec fn header_line(name: Seq<char>) -> Seq<char> {
    seq!['['] + name + seq![']']
}

/// The line that sets `key` to `value`.
pub open spec fn item_line(key: Seq<char>, value: Seq<char>) -> Seq<char> {
    key + seq![' ', '=', ' '] + value
}

/// The lines of one section: its header, then one line for each item.
pub open spec fn section_lines(name: Seq<char>, items: Items) -> Seq<Seq<char>> {
    seq![header_line(name)] + Seq::new(items.len(), |i: int| item_line(items[i].0, items[i].1))
}

/// The lines of a document: those of its sections in order, with one empty
/// line between each two sections.
pub open spec fn document_lines(sections: Sections) -> Seq<Seq<char>>
    decreases sections.len(),
{
    if sections.len() == 0 {
        Seq::empty()
    } else if sections.len() == 1 {
        section_lines(sections[0].0, sections[0].1)
    } else {
        document_lines(sections.drop_last()) + seq![Seq::<char>::empty()] + section_lines(
            sections.last().0,
            sections.last().1,
        )
    }
}

/// The text of a document: its lines with a line feed between each two, and
/// none at the end.
pub open spec fn render(sections: Sections) -> Seq<char> {
    join_lines(document_lines(sections))
}

/// What reading the lines `lines` one after the other gives, from the
/// document without sections: the document that the lines that could be read
/// build, and an error for every line that could not, in order. A line that
/// cannot be read changes nothing, and reading goes on behind it.
pub open spec fn read_lines(lines: Seq<Seq<char>>) -> (IniView, Seq<ParseError>)
    decreases lines.len(),
{
    if lines.len() == 0 {
        (IniView::empty(), Seq::empty())
    } else {
        let (state, errors) = read_lines(lines.drop_last());
        match classify(lines.last(), (lines.len() - 1) as usize) {
            Ok(line) => (state.apply(line), errors),
            Err(e) => (state, errors.push(e)),
        }
    }
}

/// What reading `text` gives where the first line that cannot be read ends
/// it: the document, or the error of that line.
pub open spec fn read(text: Seq<char>) -> Result<IniView, ParseError> {
    let (state, errors) = read_lines(lines(text));
    if errors.len() == 0 {
        Ok(state)
    } else {
        Err(errors[0])
    }
}

/// The errors of the first lines of a text are the first errors of the text.
pub proof fn lemma_read_lines_prefix(all: Seq<Seq<char>>, n: int)
    requires
        0 <= n <= all.len(),
    ensures
        read_lines(all.take(n)).1.is_prefix_of(read_lines(all).1),
    decreases all.len(),
{
    if n == all.len() {
        assert(all.take(n) =~= all);
    } else {
        lemma_read_lines_prefix(all.drop_last(), n);
        assert(all.drop_last().take(n) =~= all.take(n));
    }
}

} // verus!
