//! A map from strings to values that keeps its keys in the order in which
//! they were added.
//!
//! A hash index gives each key the number of its slot in a growing list of
//! slots. Taking a key out empties its slot and leaves the others where they
//! are, so the order of the keys that stay never changes; an emptied slot is
//! passed over when the map is walked and is not used again.

use crate::pairs::{del, distinct, has_key, lemma_position_is, lookup, position, put};
use vstd::hash_map::StringHashMap;
use vstd::prelude::*;

verus! {

/// An insertion-ordered map with `String` keys.
pub struct OrderedHashMap<V> {
    index: StringHashMap<usize>,
    slots: Vec<Option<(String, V)>>,
}

/// The pairs that a list of slots holds, in order.
spec fn live<V>(slots: Seq<Option<(String, V)>>) -> Seq<(Seq<char>, V)>
    decreases slots.len(),
{
    if slots.len() == 0 {
        Seq::empty()
    } else {
        match slots.last() {
            Some((k, v)) => live(slots.drop_last()).push((k@, v)),
            None => live(slots.drop_last()),
        }
    }
}

/// How many pairs the slots before slot `i` hold.
spec fn rank<V>(slots: Seq<Option<(String, V)>>, i: int) -> int {
    live(slots.take(i)).len() as int
}

/// The index knows exactly the keys of the filled slots, each with the number
/// of its slot.
spec fn consistent<V>(index: Map<Seq<char>, usize>, slots: Seq<Option<(String, V)>>) -> bool {
    &&& forall|k: Seq<char>| #[trigger]
        index.contains_key(k) ==> {
            &&& index[k] < slots.len()
            &&& slots[index[k] as int] is Some
            &&& (slots[index[k] as int]->0).0@ == k
        }
    &&& forall|i: int|
        0 <= i < slots.len() && (#[trigger] slots[i]) is Some ==> {
            &&& index.contains_key((slots[i]->0).0@)
            &&& index[(slots[i]->0).0@] == i
        }
}

/// The pairs of a list of slots are those of the slots before slot `i` and
/// those of the slots from it on.
proof fn lemma_live_split<V>(slots: Seq<Option<(String, V)>>, i: int)
    requires
        0 <= i <= slots.len(),
    ensures
        live(slots) == live(slots.take(i)) + live(slots.skip(i)),
    decreases slots.len(),
{
    if i == slots.len() {
        assert(slots.take(i) =~= slots);
        assert(slots.skip(i) =~= Seq::empty());
        assert(live(slots.skip(i)) =~= Seq::empty());
        assert(live(slots) =~= live(slots) + Seq::empty());
    } else {
        let front = slots.drop_last();
        lemma_live_split(front, i);
        assert(front.take(i) =~= slots.take(i));
        assert(front.skip(i) =~= slots.skip(i).drop_last());
        assert(slots.skip(i).last() == slots.last());
        match slots.last() {
            Some((k, v)) => {
                assert(live(slots) =~= live(slots.take(i)) + live(slots.skip(i)));
            },
            None => {},
        }
    }
}

/// A single slot holds one pair or none.
proof fn lemma_live_one<V>(slot: Option<(String, V)>)
    ensures
        live(seq![slot]) == match slot {
            Some((k, v)) => seq![(k@, v)],
            None => Seq::empty(),
        },
{
    let s = seq![slot];
    assert(s.drop_last() =~= Seq::empty());
    assert(live(s.drop_last()) =~= Seq::empty());
    match slot {
        Some((k, v)) => {
            assert(live(s) =~= seq![(k@, v)]);
        },
        None => {},
    }
}

/// The pairs of a list of slots are those before slot `i`, that of slot `i`,
/// and those after it.
proof fn lemma_live_around<V>(slots: Seq<Option<(String, V)>>, i: int)
    requires
        0 <= i < slots.len(),
    ensures
        live(slots) == live(slots.take(i)) + live(seq![slots[i]]) + live(slots.skip(i + 1)),
        live(slots.skip(i)) == live(seq![slots[i]]) + live(slots.skip(i + 1)),
{
    lemma_live_split(slots, i);
    let rest = slots.skip(i);
    lemma_live_split(rest, 1);
    assert(rest.take(1) =~= seq![slots[i]]);
    assert(rest.skip(1) =~= slots.skip(i + 1));
}

/// A filled slot holds the pair that stands at its rank.
proof fn lemma_live_at<V>(slots: Seq<Option<(String, V)>>, i: int)
    requires
        0 <= i < slots.len(),
        slots[i] is Some,
    ensures
        0 <= rank(slots, i) < live(slots).len(),
        live(slots)[rank(slots, i)] == ((slots[i]->0).0@, (slots[i]->0).1),
{
    lemma_live_around(slots, i);
    lemma_live_one(slots[i]);
}

/// Every pair comes from a filled slot, and stands at that slot's rank.
proof fn lemma_live_source<V>(slots: Seq<Option<(String, V)>>, j: int) -> (i: int)
    requires
        0 <= j < live(slots).len(),
    ensures
        0 <= i < slots.len(),
        slots[i] is Some,
        rank(slots, i) == j,
    decreases slots.len(),
{
    let front = slots.drop_last();
    if slots.last() is Some && j == live(front).len() {
        assert(slots.take(slots.len() - 1) =~= front);
        slots.len() - 1
    } else {
        let i = lemma_live_source(front, j);
        assert(front.take(i) =~= slots.take(i));
        i
    }
}

/// Where the index is consistent with the slots, a key that it knows stands
/// at the rank of its slot.
proof fn lemma_position_known<V>(
    index: Map<Seq<char>, usize>,
    slots: Seq<Option<(String, V)>>,
    k: Seq<char>,
)
    requires
        consistent(index, slots),
        index.contains_key(k),
    ensures
        position(live(slots), k) == rank(slots, index[k] as int),
        has_key(live(slots), k),
        lookup(live(slots), k) == Some((slots[index[k] as int]->0).1),
{
    let i = index[k] as int;
    let s = live(slots);
    lemma_live_at(slots, i);
    assert forall|j: int| 0 <= j < rank(slots, i) implies (#[trigger] s[j]).0 != k by {
        let i2 = lemma_live_source(slots, j);
        lemma_live_at(slots, i2);
        if s[j].0 == k {
            assert(index[(slots[i2]->0).0@] == i2);
        }
    }
    lemma_position_is(s, k, rank(slots, i));
}

/// Where the index is consistent with the slots, a key that it does not know
/// is the key of no pair.
proof fn lemma_position_unknown<V>(
    index: Map<Seq<char>, usize>,
    slots: Seq<Option<(String, V)>>,
    k: Seq<char>,
)
    requires
        consistent(index, slots),
        !index.contains_key(k),
    ensures
        position(live(slots), k) == live(slots).len(),
        !has_key(live(slots), k),
        lookup(live(slots), k) is None,
{
    let s = live(slots);
    assert forall|j: int| 0 <= j < s.len() implies (#[trigger] s[j]).0 != k by {
        let i2 = lemma_live_source(slots, j);
        lemma_live_at(slots, i2);
        assert(index.contains_key((slots[i2]->0).0@));
    }
    lemma_position_is(s, k, s.len() as int);
}

/// Where the index is consistent with the slots, no key occurs twice.
proof fn lemma_consistent_distinct<V>(
    index: Map<Seq<char>, usize>,
    slots: Seq<Option<(String, V)>>,
)
    requires
        consistent(index, slots),
    ensures
        distinct(live(slots)),
{
    let s = live(slots);
    assert forall|a: int, b: int| 0 <= a < b < s.len() implies s[a].0 != s[b].0 by {
        let ia = lemma_live_source(slots, a);
        let ib = lemma_live_source(slots, b);
        lemma_live_at(slots, ia);
        lemma_live_at(slots, ib);
        assert(index[(slots[ia]->0).0@] == ia);
        assert(index[(slots[ib]->0).0@] == ib);
    }
}

/// A new value in a filled slot changes the pair at the slot's rank.
proof fn lemma_live_replace<V>(slots: Seq<Option<(String, V)>>, i: int, key: String, value: V)
    requires
        0 <= i < slots.len(),
        slots[i] is Some,
        (slots[i]->0).0@ == key@,
    ensures
        live(slots.update(i, Some((key, value)))) == live(slots).update(
            rank(slots, i),
            (key@, value),
        ),
        live(slots.update(i, Some((key, value)))) == put(live(slots), key@, value) <== position(
            live(slots),
            key@,
        ) == rank(slots, i),
{
    let after = slots.update(i, Some((key, value)));
    lemma_live_around(slots, i);
    lemma_live_around(after, i);
    lemma_live_one(slots[i]);
    lemma_live_one(after[i]);
    assert(after.take(i) =~= slots.take(i));
    assert(after.skip(i + 1) =~= slots.skip(i + 1));
    assert(live(after) =~= live(slots).update(rank(slots, i), (key@, value)));
}

/// Emptying a filled slot takes out the pair at the slot's rank.
proof fn lemma_live_empty<V>(slots: Seq<Option<(String, V)>>, i: int)
    requires
        0 <= i < slots.len(),
        slots[i] is Some,
    ensures
        live(slots.update(i, None)) == live(slots).remove(rank(slots, i)),
{
    let after = slots.update(i, None);
    lemma_live_around(slots, i);
    lemma_live_around(after, i);
    lemma_live_one(slots[i]);
    lemma_live_one(after[i]);
    assert(after.take(i) =~= slots.take(i));
    assert(after.skip(i + 1) =~= slots.skip(i + 1));
    assert(live(after) =~= live(slots).remove(rank(slots, i)));
}

/// The pairs before slot `i + 1` are those before slot `i` and that of slot
/// `i`.
proof fn lemma_live_take_next<V>(slots: Seq<Option<(String, V)>>, i: int)
    requires
        0 <= i < slots.len(),
    ensures
        live(slots.take(i + 1)) == live(slots.take(i)) + live(seq![slots[i]]),
{
    let upto = slots.take(i + 1);
    lemma_live_split(upto, i);
    assert(upto.take(i) =~= slots.take(i));
    assert(upto.skip(i) =~= seq![slots[i]]);
}

/// `pos`, or `len` where `pos` is beyond it.
spec fn clip(pos: usize, len: nat) -> int {
    if pos <= len {
        pos as int
    } else {
        len as int
    }
}

impl<V> View for OrderedHashMap<V> {
    type V = Seq<(Seq<char>, V)>;

    /// The pairs of the map, in the order in which their keys were added.
    closed spec fn view(&self) -> Seq<(Seq<char>, V)> {
        live(self.slots@)
    }
}

impl<V> OrderedHashMap<V> {
    /// The map is in order: its index and its slots agree.
    pub closed spec fn wf(&self) -> bool {
        consistent(self.index@, self.slots@)
    }

    /// No key occurs twice in a map that is in order.
    pub proof fn lemma_distinct(&self)
        requires
            self.wf(),
        ensures
            distinct(self@),
    {
        lemma_consistent_distinct(self.index@, self.slots@);
    }

    /// An empty map.
    pub fn new() -> (map: Self)
        ensures
            map.wf(),
            map@ == Seq::<(Seq<char>, V)>::empty(),
    {
        OrderedHashMap { index: StringHashMap::new(), slots: Vec::new() }
    }

    /// The value of `key`, if the map holds the key.
    pub fn get(&self, key: &str) -> (r: Option<&V>)
        requires
            self.wf(),
        ensures
            match r {
                Some(v) => lookup(self@, key@) == Some(*v),
                None => lookup(self@, key@) is None,
            },
    {
        match self.index.get(key) {
            Some(i) => {
                proof {
                    lemma_position_known(self.index@, self.slots@, key@);
                }
                match &self.slots[*i] {
                    Some((_, v)) => Some(v),
                    None => None,
                }
            },
            None => {
                proof {
                    lemma_position_unknown(self.index@, self.slots@, key@);
                }
                None
            },
        }
    }

    /// Sets `key` to `value`. A key that the map holds keeps its place, and
    /// its earlier value is returned; a new key goes to the end.
    pub fn insert(&mut self, key: String, value: V) -> (r: Option<V>)
        requires
            old(self).wf(),
        ensures
            final(self).wf(),
            final(self)@ == put(old(self)@, key@, value),
            r == lookup(old(self)@, key@),
    {
        let found: Option<usize> = match self.index.get(key.as_str()) {
            Some(i) => Some(*i),
            None => None,
        };
        match found {
            Some(i) => {
                proof {
                    lemma_position_known(self.index@, self.slots@, key@);
                    lemma_live_replace(self.slots@, i as int, key, value);
                }
                let slot: &mut Option<(String, V)> = &mut self.slots[i];
                let earlier = slot.take();
                *slot = Some((key, value));
                match earlier {
                    Some((_, v)) => Some(v),
                    None => None,
                }
            },
            None => {
                proof {
                    lemma_position_unknown(self.index@, self.slots@, key@);
                    assert(self.slots@.push(Some((key, value))).drop_last() =~= self.slots@);
                }
                let n: usize = self.slots.len();
                self.slots.push(Some((key.clone(), value)));
                self.index.insert(key, n);
                None
            },
        }
    }

    /// The value of `key`, open to change, if the map holds the key. Whatever
    /// is written through the reference becomes the value of `key`; the key
    /// keeps its place.
    pub fn get_mut(&mut self, key: &str) -> (r: Option<&mut V>)
        requires
            old(self).wf(),
        ensures
            final(self).wf(),
            match r {
                Some(v) => {
                    &&& lookup(old(self)@, key@) == Some(*v)
                    &&& final(self)@ == put(old(self)@, key@, *final(v))
                },
                None => lookup(old(self)@, key@) is None && final(self)@ == old(self)@,
            },
    {
        let found: Option<usize> = match self.index.get(key) {
            Some(i) => Some(*i),
            None => None,
        };
        match found {
            Some(i) => {
                proof {
                    lemma_position_known(self.index@, self.slots@, key@);
                    let slots = self.slots@;
                    let name = (slots[i as int]->0).0;
                    assert forall|w: V| #[trigger]
                        live(slots.update(i as int, Some((name, w)))) == put(
                            live(slots),
                            key@,
                            w,
                        ) by {
                        lemma_live_replace(slots, i as int, name, w);
                    }
                }
                match &mut self.slots[i] {
                    Some((_, v)) => Some(v),
                    None => None,
                }
            },
            None => {
                proof {
                    lemma_position_unknown(self.index@, self.slots@, key@);
                }
                None
            },
        }
    }

    /// The value of `key`, open to change. Where the map does not hold the
    /// key yet, the key is added at the end with the value that `default`
    /// makes; `default` is not called otherwise.
    pub fn entry_or_insert_with<F: FnOnce() -> V>(&mut self, key: String, default: F) -> (r:
        &mut V)
        requires
            old(self).wf(),
            default.requires(()),
        ensures
            final(self).wf(),
            match lookup(old(self)@, key@) {
                Some(v) => *r == v,
                None => default.ensures((), *r),
            },
            final(self)@ == put(old(self)@, key@, *final(r)),
    {
        let found: Option<usize> = match self.index.get(key.as_str()) {
            Some(i) => Some(*i),
            None => None,
        };
        let i: usize = match found {
            Some(i) => {
                proof {
                    lemma_position_known(self.index@, self.slots@, key@);
                }
                i
            },
            None => {
                proof {
                    lemma_position_unknown(self.index@, self.slots@, key@);
                }
                let n: usize = self.slots.len();
                let value = default();
                proof {
                    assert(self.slots@.push(Some((key, value))).drop_last() =~= self.slots@);
                    assert(self.slots@.push(Some((key, value))).take(n as int) =~= self.slots@);
                }
                self.slots.push(Some((key.clone(), value)));
                self.index.insert(key, n);
                n
            },
        };
        proof {
            let slots = self.slots@;
            let name = (slots[i as int]->0).0;
            assert forall|w: V| #[trigger]
                live(slots.update(i as int, Some((name, w)))) == put(old(self)@, key@, w) by {
                lemma_live_replace(slots, i as int, name, w);
            }
        }
        match &mut self.slots[i] {
            Some((_, v)) => v,
            None => vstd::pervasive::unreached(),
        }
    }

    /// Takes `key` out of the map and returns its value, if the map holds the
    /// key. The other keys keep their order.
    pub fn remove(&mut self, key: &str) -> (r: Option<V>)
        requires
            old(self).wf(),
        ensures
            final(self).wf(),
            final(self)@ == del(old(self)@, key@),
            r == lookup(old(self)@, key@),
    {
        let found: Option<usize> = match self.index.get(key) {
            Some(i) => Some(*i),
            None => None,
        };
        match found {
            Some(i) => {
                proof {
                    lemma_position_known(self.index@, self.slots@, key@);
                    lemma_live_empty(self.slots@, i as int);
                }
                self.index.remove(key);
                let slot: &mut Option<(String, V)> = &mut self.slots[i];
                let earlier = slot.take();
                match earlier {
                    Some((_, v)) => Some(v),
                    None => None,
                }
            },
            None => {
                proof {
                    lemma_position_unknown(self.index@, self.slots@, key@);
                }
                None
            },
        }
    }

    /// A walk over the pairs of the map, in the order in which their keys were
    /// added.
    pub fn iter(&self) -> (it: Iter<'_, V>)
        ensures
            it@ == self@,
    {
        proof {
            assert(self.slots@.skip(0) =~= self.slots@);
        }
        Iter { slots: &self.slots, pos: 0 }
    }

    /// A walk over the keys of the map, in the order in which they were
    /// added.
    pub fn keys(&self) -> (it: Keys<'_, V>)
        ensures
            it@ == self@.map_values(|p: (Seq<char>, V)| p.0),
    {
        Keys { iter: self.iter() }
    }

    /// A walk over the pairs of the map, in the order in which their keys
    /// were added, that hands out each value open to change. While the walk
    /// is there, the map can be reached through it alone; what the map is
    /// when the walk is over is what the walk leaves.
    pub fn iter_mut(&mut self) -> (it: IterMut<'_, V>)
        ensures
            *it.source() == *old(self),
            *final(it.source()) == *final(self),
            it@ == old(self)@,
            it.passed() == Seq::<(Seq<char>, V)>::empty(),
    {
        proof {
            assert(self.slots@.skip(0) =~= self.slots@);
            assert(self.slots@.take(0) =~= Seq::empty());
        }
        IterMut { map: self, pos: 0 }
    }
}

/// A walk over the pairs of an [`OrderedHashMap`]. Its view is the pairs that
/// are still to come.
pub struct Iter<'a, V> {
    slots: &'a Vec<Option<(String, V)>>,
    pos: usize,
}

impl<'a, V> View for Iter<'a, V> {
    type V = Seq<(Seq<char>, V)>;

    closed spec fn view(&self) -> Seq<(Seq<char>, V)> {
        if self.pos <= self.slots@.len() {
            live(self.slots@.skip(self.pos as int))
        } else {
            Seq::empty()
        }
    }
}

impl<'a, V> Iter<'a, V> {
    /// The next pair, or `None` when the walk is over.
    pub fn next(&mut self) -> (r: Option<(&'a String, &'a V)>)
        ensures
            match r {
                Some((k, v)) => {
                    &&& old(self)@.len() > 0
                    &&& old(self)@[0] == (k@, *v)
                    &&& final(self)@ == old(self)@.drop_first()
                },
                None => old(self)@.len() == 0 && final(self)@.len() == 0,
            },
    {
        while self.pos < self.slots.len()
            invariant
                self.slots == old(self).slots,
                self@ == old(self)@,
            decreases self.slots.len() - self.pos,
        {
            let p: usize = self.pos;
            proof {
                lemma_live_around(self.slots@, p as int);
                lemma_live_one(self.slots@[p as int]);
            }
            self.pos = p + 1;
            match &self.slots[p] {
                Some((k, v)) => {
                    proof {
                        let rest = live(self.slots@.skip(p + 1));
                        assert((seq![(k@, *v)] + rest).drop_first() =~= rest);
                    }
                    return Some((k, v));
                },
                None => {
                    proof {
                        let rest = live(self.slots@.skip(p + 1));
                        assert(Seq::<(Seq<char>, V)>::empty() + rest =~= rest);
                    }
                },
            }
        }
        proof {
            if self.pos == self.slots@.len() {
                assert(self.slots@.skip(self.pos as int) =~= Seq::empty());
            }
        }
        None
    }
}

/// A walk over the keys of an [`OrderedHashMap`]. Its view is the keys that
/// are still to come.
pub struct Keys<'a, V> {
    iter: Iter<'a, V>,
}

impl<'a, V> View for Keys<'a, V> {
    type V = Seq<Seq<char>>;

    closed spec fn view(&self) -> Seq<Seq<char>> {
        self.iter@.map_values(|p: (Seq<char>, V)| p.0)
    }
}

impl<'a, V> Keys<'a, V> {
    /// The next key, or `None` when the walk is over.
    pub fn next(&mut self) -> (r: Option<&'a String>)
        ensures
            match r {
                Some(k) => {
                    &&& old(self)@.len() > 0
                    &&& old(self)@[0] == k@
                    &&& final(self)@ == old(self)@.drop_first()
                },
                None => old(self)@.len() == 0 && final(self)@.len() == 0,
            },
    {
        let ghost before = self.iter@;
        match self.iter.next() {
            Some((k, _)) => {
                proof {
                    let f = |p: (Seq<char>, V)| p.0;
                    assert(before.drop_first().map_values(f) =~= before.map_values(f).drop_first());
                }
                Some(k)
            },
            None => None,
        }
    }
}

/// A walk over the pairs of an [`OrderedHashMap`] that hands out each value
/// open to change. Its view is the pairs that are still to come.
pub struct IterMut<'a, V> {
    map: &'a mut OrderedHashMap<V>,
    pos: usize,
}

impl<'a, V> View for IterMut<'a, V> {
    type V = Seq<(Seq<char>, V)>;

    closed spec fn view(&self) -> Seq<(Seq<char>, V)> {
        live(self.map.slots@.skip(clip(self.pos, self.map.slots@.len())))
    }
}

impl<'a, V> IterMut<'a, V> {
    /// The map that is walked.
    pub closed spec fn source(&self) -> &'a mut OrderedHashMap<V> {
        self.map
    }

    /// The pairs that the walk has passed, as they are now.
    pub closed spec fn passed(&self) -> Seq<(Seq<char>, V)> {
        live(self.map.slots@.take(clip(self.pos, self.map.slots@.len())))
    }

    /// The pairs of the map are those that the walk has passed and those
    /// that are still to come.
    pub proof fn lemma_passed_and_coming(&self)
        ensures
            self.source()@ == self.passed() + self@,
    {
        lemma_live_split(self.map.slots@, clip(self.pos, self.map.slots@.len()));
    }

    /// Once the walk is no longer used, the map is what the walk has left.
    pub proof fn lemma_done(&self)
        requires
            has_resolved(*self),
        ensures
            *self.source() == *final(self.source()),
    {
    }

    /// The next key with its value, open to change, or `None` when the walk
    /// is over. What is written through the reference becomes the value of
    /// the key; nothing else of the map changes.
    pub fn next(&mut self) -> (r: Option<(&String, &mut V)>)
        ensures
            *final(final(self).source()) == *final(old(self).source()),
            old(self).source().wf() ==> final(self).source().wf(),
            match r {
                Some((k, v)) => {
                    &&& old(self)@.len() > 0
                    &&& old(self)@[0] == (k@, *v)
                    &&& final(self)@ == old(self)@.drop_first()
                    &&& final(self).passed() == old(self).passed().push((k@, *final(v)))
                    &&& final(self).source()@ == old(self).source()@.update(
                        old(self).passed().len() as int,
                        (k@, *final(v)),
                    )
                },
                None => {
                    &&& old(self)@.len() == 0
                    &&& final(self)@.len() == 0
                    &&& final(self).passed() == old(self).passed()
                    &&& *final(self).source() == *old(self).source()
                },
            },
    {
        let ghost slots = self.map.slots@;
        let ghost index = self.map.index@;
        let mut p: usize = self.pos;
        proof {
            if self.pos > slots.len() {
                assert(slots.skip(slots.len() as int) =~= Seq::empty());
            }
        }
        while p < self.map.slots.len() && self.map.slots[p].is_none()
            invariant
                *self == *old(self),
                slots == self.map.slots@,
                live(slots.skip(clip(p, slots.len()))) == old(self)@,
                live(slots.take(clip(p, slots.len()))) == old(self).passed(),
            decreases self.map.slots.len() - p,
        {
            proof {
                lemma_live_around(slots, p as int);
                lemma_live_take_next(slots, p as int);
                lemma_live_one(slots[p as int]);
                assert(Seq::<(Seq<char>, V)>::empty() + live(slots.skip(p + 1)) =~= live(
                    slots.skip(p + 1),
                ));
                assert(live(slots.take(p as int)) + Seq::<(Seq<char>, V)>::empty() =~= live(
                    slots.take(p as int),
                ));
            }
            p = p + 1;
        }
        if p < self.map.slots.len() {
            proof {
                let name = (slots[p as int]->0).0;
                lemma_live_around(slots, p as int);
                lemma_live_take_next(slots, p as int);
                lemma_live_one(slots[p as int]);
                let rest = live(slots.skip(p + 1));
                assert((seq![(name@, (slots[p as int]->0).1)] + rest).drop_first() =~= rest);
                assert forall|w: V|
                    {
                        let after = #[trigger] slots.update(p as int, Some((name, w)));
                        &&& live(after.skip(p + 1)) == rest
                        &&& live(after.take(p + 1)) == live(slots.take(p as int)).push((name@, w))
                        &&& live(after) == live(slots).update(rank(slots, p as int), (name@, w))
                        &&& consistent(index, slots) ==> consistent(index, after)
                    } by {
                    let after = slots.update(p as int, Some((name, w)));
                    lemma_live_replace(slots, p as int, name, w);
                    assert(after.skip(p + 1) =~= slots.skip(p + 1));
                    assert(after.take(p as int) =~= slots.take(p as int));
                    lemma_live_take_next(after, p as int);
                    lemma_live_one(after[p as int]);
                    assert(live(slots.take(p as int)) + seq![(name@, w)] =~= live(
                        slots.take(p as int),
                    ).push((name@, w)));
                }
            }
            self.pos = p + 1;
            match &mut self.map.slots[p] {
                Some((k, v)) => Some((&*k, v)),
                None => None,
            }
        } else {
            proof {
                assert(slots.skip(slots.len() as int) =~= Seq::empty());
            }
            self.pos = p;
            None
        }
    }
}

} // verus!
