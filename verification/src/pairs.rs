//! Sequences of key/value pairs: what an insertion-ordered map is, seen as a
//! value. A sequence stands for a map when no key occurs twice in it.

use vstd::prelude::*;

verus! {

/// No key occurs twice in `s`.
pub open spec fn distinct<K, V>(s: Seq<(K, V)>) -> bool {
    forall|i: int, j: int| 0 <= i < j < s.len() ==> s[i].0 != s[j].0
}

/// The position of the first pair with key `k`, or the length of `s` where no
/// pair has it.
pub open spec fn position<K, V>(s: Seq<(K, V)>, k: K) -> nat
    decreases s.len(),
{
    if s.len() == 0 || s[0].0 == k {
        0
    } else {
        1 + position(s.drop_first(), k)
    }
}

/// Whether some pair of `s` has the key `k`.
pub open spec fn has_key<K, V>(s: Seq<(K, V)>, k: K) -> bool {
    position(s, k) < s.len()
}

/// The value that `s` holds for `k`.
pub open spec fn lookup<K, V>(s: Seq<(K, V)>, k: K) -> Option<V> {
    if has_key(s, k) {
        Some(s[position(s, k) as int].1)
    } else {
        None
    }
}

/// `s` after `k` is set to `v`: a key that is present keeps its place and
/// gets the new value, a new key goes to the end.
pub open spec fn put<K, V>(s: Seq<(K, V)>, k: K, v: V) -> Seq<(K, V)> {
    if has_key(s, k) {
        s.update(position(s, k) as int, (k, v))
    } else {
        s.push((k, v))
    }
}

/// `s` without the pair of `k`; the other pairs keep their order.
pub open spec fn del<K, V>(s: Seq<(K, V)>, k: K) -> Seq<(K, V)> {
    if has_key(s, k) {
        s.remove(position(s, k) as int)
    } else {
        s
    }
}

/// `position(s, k)` is at most the length of `s`; no pair before it has the
/// key `k`, and the pair at it has, unless it is the length.
pub proof fn lemma_position<K, V>(s: Seq<(K, V)>, k: K)
    ensures
        position(s, k) <= s.len(),
        forall|i: int| 0 <= i < position(s, k) ==> (#[trigger] s[i]).0 != k,
        position(s, k) < s.len() ==> s[position(s, k) as int].0 == k,
    decreases s.len(),
{
    if !(s.len() == 0 || s[0].0 == k) {
        let t = s.drop_first();
        lemma_position(t, k);
        assert forall|i: int| 0 <= i < position(s, k) implies (#[trigger] s[i]).0 != k by {
            if i > 0 {
                assert(s[i] == t[i - 1]);
            }
        }
        if position(s, k) < s.len() {
            assert(s[position(s, k) as int] == t[position(t, k) as int]);
        }
    }
}

/// Any `n` with no key `k` before it, and the key `k` at it unless it is the
/// length of `s`, is `position(s, k)`.
pub proof fn lemma_position_is<K, V>(s: Seq<(K, V)>, k: K, n: int)
    requires
        0 <= n <= s.len(),
        forall|i: int| 0 <= i < n ==> (#[trigger] s[i]).0 != k,
        n < s.len() ==> s[n].0 == k,
    ensures
        position(s, k) == n,
    decreases s.len(),
{
    if n > 0 {
        let t = s.drop_first();
        assert forall|i: int| 0 <= i < n - 1 implies (#[trigger] t[i]).0 != k by {
            assert(t[i] == s[i + 1]);
        }
        lemma_position_is(t, k, n - 1);
    }
}

/// In a sequence without a repeated key, a pair stands at the position of
/// its key.
pub proof fn lemma_position_of_entry<K, V>(s: Seq<(K, V)>, i: int)
    requires
        distinct(s),
        0 <= i < s.len(),
    ensures
        position(s, s[i].0) == i,
        lookup(s, s[i].0) == Some(s[i].1),
{
    lemma_position_is(s, s[i].0, i);
}

/// Setting a key keeps the keys distinct, makes the key present with the new
/// value, and leaves every other key as it was.
pub proof fn lemma_put<K, V>(s: Seq<(K, V)>, k: K, v: V)
    requires
        distinct(s),
    ensures
        distinct(put(s, k, v)),
        lookup(put(s, k, v), k) == Some(v),
        forall|other: K| other != k ==> lookup(put(s, k, v), other) == lookup(s, other),
        forall|other: K| other != k ==> has_key(put(s, k, v), other) == has_key(s, other),
{
    let t = put(s, k, v);
    let p = position(s, k) as int;
    lemma_position(s, k);
    assert(distinct(t)) by {
        assert forall|i: int, j: int| 0 <= i < j < t.len() implies t[i].0 != t[j].0 by {
            if has_key(s, k) {
                assert(t[i].0 == s[i].0 && t[j].0 == s[j].0);
            } else if j == s.len() {
                assert(t[i] == s[i]);
            } else {
                assert(t[i] == s[i] && t[j] == s[j]);
            }
        }
    }
    assert(position(t, k) == p) by {
        assert forall|i: int| 0 <= i < p implies (#[trigger] t[i]).0 != k by {
            assert(t[i] == s[i]);
        }
        lemma_position_is(t, k, p);
    }
    assert forall|other: K| other != k implies lookup(t, other) == lookup(s, other) && has_key(
        t,
        other,
    ) == has_key(s, other) by {
        let q = position(s, other) as int;
        lemma_position(s, other);
        assert forall|i: int| 0 <= i < q implies (#[trigger] t[i]).0 != other by {
            if i < s.len() {
                assert(t[i].0 == s[i].0);
            }
        }
        if q < s.len() {
            assert(t[q] == s[q]);
            lemma_position_is(t, other, q);
        } else {
            lemma_position_is(t, other, t.len() as int);
        }
    }
}

/// Taking a key out keeps the keys distinct, makes the key absent, and
/// leaves every other key as it was.
pub proof fn lemma_del<K, V>(s: Seq<(K, V)>, k: K)
    requires
        distinct(s),
    ensures
        distinct(del(s, k)),
        !has_key(del(s, k), k),
        forall|other: K| other != k ==> lookup(del(s, k), other) == lookup(s, other),
        forall|other: K| other != k ==> has_key(del(s, k), other) == has_key(s, other),
{
    let t = del(s, k);
    let p = position(s, k) as int;
    lemma_position(s, k);
    assert forall|i: int| 0 <= i < t.len() implies (#[trigger] t[i]).0 != k by {
        if has_key(s, k) {
            if i < p {
                assert(t[i] == s[i]);
            } else {
                assert(t[i] == s[i + 1]);
            }
        }
    }
    lemma_position_is(t, k, t.len() as int);
    assert(distinct(t)) by {
        assert forall|i: int, j: int| 0 <= i < j < t.len() implies t[i].0 != t[j].0 by {
            if has_key(s, k) {
                let i0 = if i < p { i } else { i + 1 };
                let j0 = if j < p { j } else { j + 1 };
                assert(t[i] == s[i0] && t[j] == s[j0]);
            }
        }
    }
    assert forall|other: K| other != k implies lookup(t, other) == lookup(s, other) && has_key(
        t,
        other,
    ) == has_key(s, other) by {
        let q = position(s, other) as int;
        lemma_position(s, other);
        if has_key(s, k) {
            let q1 = if q < p { q } else { q - 1 };
            assert forall|i: int| 0 <= i < q1 implies (#[trigger] t[i]).0 != other by {
                if i < p {
                    assert(t[i] == s[i]);
                } else {
                    assert(t[i] == s[i + 1]);
                }
            }
            if q < s.len() {
                assert(t[q1] == s[q]);
            }
            lemma_position_is(t, other, q1);
        }
    }
}

/// Setting a key that is present changes its value and nothing else: the
/// length, the order of the keys and the key's own place stay.
pub proof fn lemma_update_in_place<K, V>(s: Seq<(K, V)>, k: K, v: V)
    requires
        distinct(s),
        has_key(s, k),
    ensures
        put(s, k, v).len() == s.len(),
        position(put(s, k, v), k) == position(s, k),
        put(s, k, v)[position(s, k) as int] == (k, v),
        forall|i: int| 0 <= i < s.len() ==> (#[trigger] put(s, k, v)[i]).0 == s[i].0,
        forall|i: int| 0 <= i < s.len() && i != position(s, k) ==> #[trigger] put(s, k, v)[i] == s[i],
{
    lemma_position(s, k);
    let t = put(s, k, v);
    assert forall|i: int| 0 <= i < position(s, k) implies (#[trigger] t[i]).0 != k by {
        assert(t[i] == s[i]);
    }
    lemma_position_is(t, k, position(s, k) as int);
}

/// Taking a key out and setting it again moves it to the end: the other pairs
/// keep their order and come before it.
pub proof fn lemma_reinsert_moves_to_end<K, V>(s: Seq<(K, V)>, k: K, v: V)
    requires
        distinct(s),
        has_key(s, k),
    ensures
        put(del(s, k), k, v) == s.remove(position(s, k) as int).push((k, v)),
        put(del(s, k), k, v).len() == s.len(),
        position(put(del(s, k), k, v), k) == s.len() - 1,
{
    lemma_position(s, k);
    lemma_del(s, k);
    let t = del(s, k);
    lemma_position(t, k);
    lemma_position_is(t.push((k, v)), k, t.len() as int);
}

/// The pairs of `s` with `f` applied to each value; the keys stay.
pub open spec fn with_values<K, V, W>(s: Seq<(K, V)>, f: spec_fn(V) -> W) -> Seq<(K, W)> {
    Seq::new(s.len(), |i: int| (s[i].0, f(s[i].1)))
}

/// Applying a function to the values moves no key.
pub proof fn lemma_with_values<K, V, W>(s: Seq<(K, V)>, f: spec_fn(V) -> W, k: K)
    ensures
        position(with_values(s, f), k) == position(s, k),
        has_key(with_values(s, f), k) == has_key(s, k),
        lookup(with_values(s, f), k) == match lookup(s, k) {
            Some(v) => Some(f(v)),
            None => None,
        },
{
    let t = with_values(s, f);
    lemma_position(s, k);
    assert forall|i: int| 0 <= i < position(s, k) implies (#[trigger] t[i]).0 != k by {
        assert(t[i].0 == s[i].0);
    }
    lemma_position_is(t, k, position(s, k) as int);
}

/// Applying a function to the values leaves the keys distinct, and makes
/// none distinct that were not.
pub proof fn lemma_with_values_distinct<K, V, W>(s: Seq<(K, V)>, f: spec_fn(V) -> W)
    ensures
        distinct(with_values(s, f)) == distinct(s),
{
    let t = with_values(s, f);
    if distinct(s) {
        assert forall|i: int, j: int| 0 <= i < j < t.len() implies t[i].0 != t[j].0 by {
            assert(t[i].0 == s[i].0 && t[j].0 == s[j].0);
        }
    }
    if distinct(t) {
        assert forall|i: int, j: int| 0 <= i < j < s.len() implies s[i].0 != s[j].0 by {
            assert(t[i].0 == s[i].0 && t[j].0 == s[j].0);
        }
    }
}

/// Setting a key and then applying a function to the values is applying the
/// function and then setting the key to what the function makes of the value.
pub proof fn lemma_with_values_put<K, V, W>(s: Seq<(K, V)>, f: spec_fn(V) -> W, k: K, v: V)
    ensures
        with_values(put(s, k, v), f) == put(with_values(s, f), k, f(v)),
{
    lemma_with_values(s, f, k);
    lemma_position(s, k);
    assert(with_values(put(s, k, v), f) =~= put(with_values(s, f), k, f(v)));
}

/// Taking a key out and then applying a function to the values is applying
/// the function and then taking the key out.
pub proof fn lemma_with_values_del<K, V, W>(s: Seq<(K, V)>, f: spec_fn(V) -> W, k: K)
    ensures
        with_values(del(s, k), f) == del(with_values(s, f), k),
{
    lemma_with_values(s, f, k);
    lemma_position(s, k);
    assert(with_values(del(s, k), f) =~= del(with_values(s, f), k));
}

/// A change to a map: a key is set to a value, or a key is taken out.
pub enum Change<K, V> {
    Insert(K, V),
    Remove(K),
}

/// The pairs of a map after the changes `changes`, made in order to the
/// empty map.
pub open spec fn after<K, V>(changes: Seq<Change<K, V>>) -> Seq<(K, V)>
    decreases changes.len(),
{
    if changes.len() == 0 {
        Seq::empty()
    } else {
        match changes.last() {
            Change::Insert(k, v) => put(after(changes.drop_last()), k, v),
            Change::Remove(k) => del(after(changes.drop_last()), k),
        }
    }
}

/// The number of the change by which `k` came into the map to stay: the one
/// that set `k` while the map did not hold it, with no change behind it that
/// takes `k` out. `None` where the map does not hold `k` in the end.
pub open spec fn added_at<K, V>(changes: Seq<Change<K, V>>, k: K) -> Option<int>
    decreases changes.len(),
{
    if changes.len() == 0 {
        None
    } else {
        let earlier = added_at(changes.drop_last(), k);
        match changes.last() {
            Change::Insert(key, _) => if key == k && earlier is None {
                Some(changes.len() - 1)
            } else {
                earlier
            },
            Change::Remove(key) => if key == k {
                None
            } else {
                earlier
            },
        }
    }
}

/// The value that the last change of `k` gave it; `None` where no change
/// speaks of `k`, or the last one takes it out.
pub open spec fn last_set<K, V>(changes: Seq<Change<K, V>>, k: K) -> Option<V>
    decreases changes.len(),
{
    if changes.len() == 0 {
        None
    } else {
        match changes.last() {
            Change::Insert(key, v) => if key == k {
                Some(v)
            } else {
                last_set(changes.drop_last(), k)
            },
            Change::Remove(key) => if key == k {
                None
            } else {
                last_set(changes.drop_last(), k)
            },
        }
    }
}

/// After any changes to the empty map the pairs come in the order in which
/// their keys came into the map to stay: a key that was set again while the
/// map held it has kept its place, one that was taken out and set again
/// stands where the later setting put it, and one whose last change took it
/// out is absent. No key occurs twice, and each has the value that it was
/// last set to.
pub proof fn lemma_insertion_order<K, V>(changes: Seq<Change<K, V>>)
    ensures
        distinct(after(changes)),
        forall|k: K| #[trigger] has_key(after(changes), k) <==> added_at(changes, k) is Some,
        forall|k: K| #[trigger] lookup(after(changes), k) == last_set(changes, k),
        forall|k: K|
            (#[trigger] added_at(changes, k)) is Some ==> 0 <= added_at(changes, k)->0
                < changes.len(),
        forall|i: int, j: int|
            0 <= i < j < after(changes).len() ==> added_at(changes, after(changes)[i].0)->0
                < added_at(changes, after(changes)[j].0)->0,
    decreases changes.len(),
{
    if changes.len() > 0 {
        let before = changes.drop_last();
        let s = after(before);
        let t = after(changes);
        lemma_insertion_order(before);
        assert forall|k: K| (#[trigger] added_at(changes, k)) is Some implies 0 <= added_at(
            changes,
            k,
        )->0 < changes.len() by {
            let earlier = added_at(before, k);
            if earlier is Some {
                assert(0 <= earlier->0 < before.len());
            }
        }
        match changes.last() {
            Change::Insert(key, v) => {
                lemma_put(s, key, v);
                lemma_position(s, key);
                assert(t.len() == if has_key(s, key) { s.len() } else { s.len() + 1 });
                assert forall|k: K| #[trigger] has_key(t, k) <==> added_at(changes, k) is Some by {
                    if k != key {
                        assert(has_key(t, k) == has_key(s, k));
                    } else {
                        assert(has_key(s, k) <==> added_at(before, k) is Some);
                    }
                }
                assert forall|k: K| #[trigger] lookup(t, k) == last_set(changes, k) by {
                    if k != key {
                        assert(lookup(t, k) == lookup(s, k));
                    }
                }
                assert forall|i: int, j: int| 0 <= i < j < t.len() implies added_at(
                    changes,
                    t[i].0,
                )->0 < added_at(changes, t[j].0)->0 by {
                    assert(has_key(s, key) <==> added_at(before, key) is Some);
                    if has_key(s, key) {
                        assert(t[i].0 == s[i].0 && t[j].0 == s[j].0);
                    } else {
                        assert(t[i] == s[i]);
                        lemma_position_of_entry(s, i);
                        assert(has_key(s, s[i].0));
                        if j < s.len() {
                            assert(t[j] == s[j]);
                        }
                    }
                }
            },
            Change::Remove(key) => {
                lemma_del(s, key);
                lemma_position(s, key);
                let p = position(s, key) as int;
                assert(t.len() == if has_key(s, key) { s.len() - 1 } else { s.len() as int });
                assert forall|k: K| #[trigger] has_key(t, k) <==> added_at(changes, k) is Some by {
                    if k != key {
                        assert(has_key(t, k) == has_key(s, k));
                    }
                }
                assert forall|k: K| #[trigger] lookup(t, k) == last_set(changes, k) by {
                    if k != key {
                        assert(lookup(t, k) == lookup(s, k));
                    }
                }
                assert forall|i: int, j: int| 0 <= i < j < t.len() implies added_at(
                    changes,
                    t[i].0,
                )->0 < added_at(changes, t[j].0)->0 by {
                    if has_key(s, key) {
                        let i0 = if i < p { i } else { i + 1 };
                        let j0 = if j < p { j } else { j + 1 };
                        assert(t[i] == s[i0] && t[j] == s[j0]);
                        assert(s[i0].0 != key && s[j0].0 != key);
                    } else {
                        lemma_position_of_entry(s, i);
                        lemma_position_of_entry(s, j);
                    }
                }
            },
        }
    }
}

} // verus!
