//! Writing a document and reading the text again gives the document back,
//! for every document whose names, keys and values can stand in a line as
//! they are.

use crate::document::{
    document_lines, header_line, item_line, read, read_lines, render, section_lines, IniView,
    Sections,
};
use crate::pairs::{distinct, lemma_position_is};
use crate::parser::{classify, is_quoted, Line};
use crate::text::{
    is_space, is_trimmed, join_lines, join_with, lemma_first_index_is, lemma_trim_is,
    lemma_trim_of_trimmed, lines, trim,
};
use vstd::prelude::*;

verus! {

/// A section name that a header line gives back as it is: not empty, without
/// white space at its two ends, and without a line feed.
pub open spec fn plain_name(name: Seq<char>) -> bool {
    name.len() > 0 && is_trimmed(name) && !name.contains('\n')
}

/// A key that a line gives back as it is: not empty, without white space at
/// its two ends, without a line feed and without `=`, and not beginning like
/// a comment or a header.
pub open spec fn plain_key(key: Seq<char>) -> bool {
    &&& key.len() > 0
    &&& is_trimmed(key)
    &&& !key.contains('\n')
    &&& !key.contains('=')
    &&& key[0] != ';' && key[0] != '#' && key[0] != '['
}

/// A value that a line gives back as it is: without white space at its two
/// ends, without a line feed, and not standing between two quote characters.
pub open spec fn plain_value(value: Seq<char>) -> bool {
    is_trimmed(value) && !value.contains('\n') && !is_quoted(value)
}

/// Every section has a plain name and at least one item, and every item a
/// plain key and a plain value.
pub open spec fn plain(sections: Sections) -> bool {
    forall|i: int|
        0 <= i < sections.len() ==> {
            &&& plain_name((#[trigger] sections[i]).0)
            &&& sections[i].1.len() > 0
            &&& forall|j: int|
                0 <= j < sections[i].1.len() ==> {
                    &&& plain_key((#[trigger] sections[i].1[j]).0)
                    &&& plain_value(sections[i].1[j].1)
                }
        }
}

/// The empty line says nothing.
proof fn lemma_classify_blank(index: usize)
    ensures
        classify(Seq::empty(), index) == Ok::<Line, crate::error::ParseError>(Line::Blank),
{
    let e = Seq::<char>::empty();
    lemma_trim_is(e, 0, 0);
    assert(e.subrange(0, 0) =~= e);
}

/// The header line of a plain name says that name.
proof fn lemma_classify_header(name: Seq<char>, index: usize)
    requires
        plain_name(name),
    ensures
        classify(header_line(name), index) == Ok::<Line, crate::error::ParseError>(
            Line::Section(name),
        ),
{
    let t = header_line(name);
    assert(t[0] == '[' && t.last() == ']');
    assert(!is_space('[') && !is_space(']'));
    lemma_trim_of_trimmed(t);
    assert(t.subrange(1, t.len() - 1) =~= name);
    lemma_trim_of_trimmed(name);
}

/// The line that sets a plain key to a plain value says that key and that
/// value.
proof fn lemma_classify_item(key: Seq<char>, value: Seq<char>, index: usize)
    requires
        plain_key(key),
        plain_value(value),
    ensures
        classify(item_line(key, value), index) == Ok::<Line, crate::error::ParseError>(
            Line::Value(key, value),
        ),
{
    let line = item_line(key, value);
    let n = key.len() as int;
    assert(!is_space('=') && is_space(' '));
    assert(line[0] == key[0]);
    let t = trim(line);
    if value.len() > 0 {
        assert(line.last() == value.last());
        lemma_trim_of_trimmed(line);
    } else {
        lemma_trim_is(line, 0, line.len() - 1);
    }
    let rest = if value.len() > 0 {
        seq![' '] + value
    } else {
        Seq::<char>::empty()
    };
    assert(t =~= key + seq![' ', '='] + rest);
    assert forall|i: int| 0 <= i < n + 1 implies #[trigger] t[i] != '=' by {
        if i < n {
            assert(t[i] == key[i]);
            assert(key.contains(key[i]));
        }
    }
    lemma_first_index_is(t, '=', n + 1);
    let before = t.take(n + 1);
    assert(before =~= key + seq![' ']);
    assert(before[0] == key[0] && before[n - 1] == key.last());
    lemma_trim_is(before, 0, n);
    assert(before.subrange(0, n) =~= key);
    let behind = t.skip(n + 2);
    assert(behind =~= rest);
    if value.len() > 0 {
        assert(behind[1] == value[0] && behind[behind.len() - 1] == value.last());
        lemma_trim_is(behind, 1, behind.len() as int);
        assert(behind.subrange(1, behind.len() as int) =~= value);
    } else {
        lemma_trim_is(behind, 0, 0);
        assert(behind.subrange(0, 0) =~= value);
    }
}

/// Texts joined from the front: the first text, the separator, and the other
/// texts joined.
proof fn lemma_join_front(texts: Seq<Seq<char>>, sep: Seq<char>)
    requires
        texts.len() >= 2,
    ensures
        join_with(texts, sep) == texts[0] + sep + join_with(texts.drop_first(), sep),
    decreases texts.len(),
{
    let front = texts.drop_last();
    let back = texts.drop_first();
    if texts.len() == 2 {
        assert(front =~= seq![texts[0]]);
        assert(back =~= seq![texts[1]]);
        assert(join_with(front, sep) == texts[0]);
        assert(join_with(back, sep) == texts[1]);
    } else {
        lemma_join_front(front, sep);
        assert(front.drop_first() =~= back.drop_last());
        assert(back.last() == texts.last());
        assert(join_with(texts, sep) =~= texts[0] + sep + join_with(back, sep));
    }
}

/// Lines without a line feed in them, the last of them not empty, are the
/// lines of the text that they are joined to.
proof fn lemma_lines_of_join(texts: Seq<Seq<char>>)
    requires
        forall|i: int| 0 <= i < texts.len() ==> !(#[trigger] texts[i]).contains('\n'),
        texts.len() > 0 ==> texts.last().len() > 0,
    ensures
        lines(join_lines(texts)) == texts,
    decreases texts.len(),
{
    let text = join_lines(texts);
    if texts.len() == 0 {
        assert(lines(text) =~= texts);
    } else {
        let first = texts[0];
        assert forall|i: int| 0 <= i < first.len() implies #[trigger] first[i] != '\n' by {
            assert(first.contains(first[i]));
        }
        if texts.len() == 1 {
            lemma_first_index_is(text, '\n', text.len() as int);
            assert(lines(text) =~= texts);
        } else {
            let back = texts.drop_first();
            lemma_join_front(texts, seq!['\n']);
            assert forall|i: int| 0 <= i < first.len() implies #[trigger] text[i] != '\n' by {
                assert(text[i] == first[i]);
            }
            assert(text[first.len() as int] == '\n');
            lemma_first_index_is(text, '\n', first.len() as int);
            assert(text.take(first.len() as int) =~= first);
            assert(text.skip(first.len() as int + 1) =~= join_lines(back));
            assert forall|i: int| 0 <= i < back.len() implies !(#[trigger] back[i]).contains(
                '\n',
            ) by {
                assert(back[i] == texts[i + 1]);
            }
            assert(back.last() == texts.last());
            lemma_lines_of_join(back);
            assert(lines(text) =~= texts);
        }
    }
}

/// The lines of a plain document hold no line feed, and the last of them is
/// not empty.
proof fn lemma_document_lines_plain(sections: Sections)
    requires
        plain(sections),
    ensures
        forall|i: int|
            0 <= i < document_lines(sections).len() ==> !(#[trigger] document_lines(
                sections,
            )[i]).contains('\n'),
        document_lines(sections).len() > 0 ==> document_lines(sections).last().len() > 0,
    decreases sections.len(),
{
    if sections.len() > 0 {
        let (name, items) = sections.last();
        let block = section_lines(name, items);
        assert(items.len() > 0);
        assert forall|i: int| 0 <= i < block.len() implies !(#[trigger] block[i]).contains(
            '\n',
        ) && block[i].len() > 0 by {
            let line = block[i];
            if i == 0 {
                assert(line == header_line(name));
                assert(line.len() > 0);
                if line.contains('\n') {
                    let at = choose|at: int| 0 <= at < line.len() && line[at] == '\n';
                    assert(line[at] == name[at - 1]);
                    assert(name.contains(name[at - 1]));
                }
            } else {
                let (key, value) = items[i - 1];
                assert(plain_key((sections.last().1[i - 1]).0));
                assert(line == item_line(key, value));
                assert(line.len() > 0);
                if line.contains('\n') {
                    let at = choose|at: int| 0 <= at < line.len() && line[at] == '\n';
                    if at < key.len() {
                        assert(line[at] == key[at]);
                        assert(key.contains(key[at]));
                    } else if at >= key.len() + 3 {
                        assert(line[at] == value[at - key.len() - 3]);
                        assert(value.contains(value[at - key.len() - 3]));
                    }
                }
            }
        }
        if sections.len() > 1 {
            let front = sections.drop_last();
            assert forall|i: int| 0 <= i < front.len() implies {
                &&& plain_name((#[trigger] front[i]).0)
                &&& front[i].1.len() > 0
                &&& forall|j: int|
                    0 <= j < front[i].1.len() ==> {
                        &&& plain_key((#[trigger] front[i].1[j]).0)
                        &&& plain_value(front[i].1[j].1)
                    }
            } by {
                assert(front[i] == sections[i]);
            }
            lemma_document_lines_plain(front);
            let all = document_lines(sections);
            let before = document_lines(front);
            assert forall|i: int| 0 <= i < all.len() implies !(#[trigger] all[i]).contains(
                '\n',
            ) by {
                if i < before.len() {
                    assert(all[i] == before[i]);
                } else if i == before.len() {
                    assert(all[i] =~= Seq::<char>::empty());
                } else {
                    assert(all[i] == block[i - before.len() - 1]);
                }
            }
            assert(all.last() == block.last());
        }
    }
}

/// The first `n` sections, and the first `m` items of the section behind
/// them if `m` is not 0.
spec fn so_far(sections: Sections, n: int, m: int) -> Sections {
    if m == 0 {
        sections.take(n)
    } else {
        sections.take(n).push((sections[n].0, sections[n].1.take(m)))
    }
}

/// The lines of the first `n` sections, and of the section behind them those
/// of its header and of its first `m` items.
spec fn lines_so_far(sections: Sections, n: int, m: int) -> Seq<Seq<char>> {
    let block = section_lines(sections[n].0, sections[n].1.take(m));
    if n == 0 {
        block
    } else {
        document_lines(sections.take(n)) + seq![Seq::<char>::empty()] + block
    }
}

/// The lines of the first `n + 1` sections are those of the first `n` and all
/// of the next.
proof fn lemma_lines_so_far_full(sections: Sections, n: int)
    requires
        0 <= n < sections.len(),
    ensures
        lines_so_far(sections, n, sections[n].1.len() as int) == document_lines(
            sections.take(n + 1),
        ),
        so_far(sections, n, sections[n].1.len() as int) == sections.take(n + 1)
            <== sections[n].1.len() > 0,
{
    let upto = sections.take(n + 1);
    let items = sections[n].1;
    assert(items.take(items.len() as int) =~= items);
    assert(upto.last() == sections[n]);
    assert(upto.drop_last() =~= sections.take(n));
    if items.len() > 0 {
        assert(sections.take(n).push((sections[n].0, items)) =~= upto);
    }
}

/// Reading the lines of a plain document up to some item gives the sections
/// and the items up to there, and no error.
proof fn lemma_read_so_far(sections: Sections, n: int, m: int)
    requires
        distinct(sections),
        forall|i: int| 0 <= i < sections.len() ==> distinct((#[trigger] sections[i]).1),
        plain(sections),
        0 <= n < sections.len(),
        0 <= m <= sections[n].1.len(),
    ensures
        read_lines(lines_so_far(sections, n, m)) == (
            IniView { sections: so_far(sections, n, m), current: sections[n].0 },
            Seq::<crate::error::ParseError>::empty(),
        ),
    decreases n, m,
{
    let name = sections[n].0;
    let items = sections[n].1;
    let all = lines_so_far(sections, n, m);
    let index = (all.len() - 1) as usize;
    assert(plain_name(sections[n].0));
    if m == 0 {
        assert(items.take(0) =~= Seq::empty());
        assert(section_lines(name, items.take(0)) =~= seq![header_line(name)]);
        lemma_classify_header(name, index);
        if n == 0 {
            assert(all =~= seq![header_line(name)]);
            assert(all.drop_last() =~= Seq::empty());
            assert(sections.take(0) =~= Seq::empty());
            assert(all.last() == header_line(name));
            assert(read_lines(all.drop_last()).0 == IniView::empty());
            assert(read_lines(all).0 == IniView::empty().section(name));
            assert(read_lines(all).1 == Seq::<crate::error::ParseError>::empty());
        } else {
            let full = sections[n - 1].1.len() as int;
            assert(sections[n - 1].1.len() > 0);
            lemma_read_so_far(sections, n - 1, full);
            lemma_lines_so_far_full(sections, n - 1);
            let before = document_lines(sections.take(n));
            let spaced = before.push(Seq::<char>::empty());
            assert(spaced.drop_last() =~= before);
            lemma_classify_blank(before.len() as usize);
            assert(all =~= spaced.push(header_line(name)));
            assert(all.drop_last() =~= spaced);
            let was = IniView { sections: sections.take(n), current: sections[n - 1].0 };
            assert(read_lines(before).0 == was);
            assert(read_lines(spaced).0 == was);
            assert(all.last() == header_line(name));
            assert(read_lines(all).0 == was.section(name));
            assert(read_lines(all).1 == Seq::<crate::error::ParseError>::empty());
        }
    } else {
        let (key, value) = items[m - 1];
        assert(plain_key((sections[n].1[m - 1]).0));
        lemma_read_so_far(sections, n, m - 1);
        let before = lines_so_far(sections, n, m - 1);
        assert(section_lines(name, items.take(m)) =~= section_lines(name, items.take(m - 1)).push(
            item_line(key, value),
        ));
        assert(all =~= before.push(item_line(key, value)));
        assert(all.drop_last() =~= before);
        lemma_classify_item(key, value, index);
        let had = so_far(sections, n, m - 1);
        let shown = items.take(m - 1);
        assert forall|j: int| 0 <= j < shown.len() implies (#[trigger] shown[j]).0 != key by {
            assert(shown[j] == items[j]);
        }
        lemma_position_is(shown, key, shown.len() as int);
        assert(shown.push((key, value)) =~= items.take(m));
        assert forall|i: int| 0 <= i < n implies (#[trigger] had[i]).0 != name by {
            assert(had[i] == sections[i]);
        }
        let was = IniView { sections: had, current: name };
        assert(read_lines(before).0 == was);
        assert(all.last() == item_line(key, value));
        assert(read_lines(all).0 == was.item(key, value));
        assert(read_lines(all).1 == Seq::<crate::error::ParseError>::empty());
        if m == 1 {
            lemma_position_is(had, name, had.len() as int);
            assert(shown =~= Seq::empty());
            assert(was.item(key, value).sections =~= so_far(sections, n, m));
        } else {
            lemma_position_is(had, name, n);
            assert(had.update(n, (name, items.take(m))) =~= so_far(sections, n, m));
            assert(was.item(key, value).sections =~= so_far(sections, n, m));
        }
    }
}

/// Writing a plain document and reading the text again gives the document
/// back: the same sections in the same order, each with the same keys in the
/// same order and the same values. The document read works on its last
/// section.
pub proof fn lemma_round_trip(sections: Sections)
    requires
        distinct(sections),
        forall|i: int| 0 <= i < sections.len() ==> distinct((#[trigger] sections[i]).1),
        plain(sections),
    ensures
        read(render(sections)) == Ok::<IniView, crate::error::ParseError>(
            IniView {
                sections,
                current: if sections.len() == 0 {
                    Seq::empty()
                } else {
                    sections.last().0
                },
            },
        ),
{
    lemma_document_lines_plain(sections);
    lemma_lines_of_join(document_lines(sections));
    assert(lines(render(sections)) == document_lines(sections));
    if sections.len() == 0 {
        assert(sections =~= Seq::empty());
    } else {
        let n = sections.len() - 1;
        assert(sections[n].1.len() > 0);
        lemma_read_so_far(sections, n, sections[n].1.len() as int);
        lemma_lines_so_far_full(sections, n);
        assert(sections.take(n + 1) =~= sections);
    }
}

} // verus!
