use tini::ordered_hashmap::OrderedHashMap;

fn pairs(map: &OrderedHashMap<i32>) -> Vec<(String, i32)> {
    let mut out = Vec::new();
    let mut it = map.iter();
    while let Some((k, v)) = it.next() {
        out.push((k.clone(), *v));
    }
    out
}

fn keys(map: &OrderedHashMap<i32>) -> Vec<String> {
    let mut out = Vec::new();
    let mut it = map.keys();
    while let Some(k) = it.next() {
        out.push(k.clone());
    }
    out
}

fn expect(map: &OrderedHashMap<i32>, want: &[(&str, i32)]) {
    let want: Vec<(String, i32)> = want.iter().map(|(k, v)| (k.to_string(), *v)).collect();
    assert_eq!(pairs(map), want);
}

#[test]
fn new_map_is_empty() {
    let map: OrderedHashMap<i32> = OrderedHashMap::new();
    expect(&map, &[]);
    assert_eq!(map.get("a"), None);
    assert_eq!(keys(&map), Vec::<String>::new());
    let mut it = map.iter();
    assert!(it.next().is_none());
    assert!(it.next().is_none());
}

#[test]
fn insert_keeps_the_order_of_insertion() {
    let mut map = OrderedHashMap::new();
    assert_eq!(map.insert("c".to_string(), 1), None);
    assert_eq!(map.insert("b".to_string(), 2), None);
    assert_eq!(map.insert("a".to_string(), 3), None);
    expect(&map, &[("c", 1), ("b", 2), ("a", 3)]);
    assert_eq!(keys(&map), ["c", "b", "a"]);
    assert_eq!(map.get("c"), Some(&1));
    assert_eq!(map.get("b"), Some(&2));
    assert_eq!(map.get("a"), Some(&3));
    assert_eq!(map.get("d"), None);
    assert_eq!(map.get(""), None);
}

#[test]
fn insert_of_a_present_key_updates_in_place() {
    let mut map = OrderedHashMap::new();
    map.insert("x".to_string(), 1);
    map.insert("y".to_string(), 2);
    map.insert("z".to_string(), 3);
    assert_eq!(map.insert("y".to_string(), 20), Some(2));
    expect(&map, &[("x", 1), ("y", 20), ("z", 3)]);
    assert_eq!(map.insert("x".to_string(), 10), Some(1));
    assert_eq!(map.insert("z".to_string(), 30), Some(3));
    expect(&map, &[("x", 10), ("y", 20), ("z", 30)]);
}

#[test]
fn remove_keeps_the_order_of_the_rest() {
    let mut map = OrderedHashMap::new();
    for (i, k) in ["a", "b", "c", "d"].iter().enumerate() {
        map.insert(k.to_string(), i as i32);
    }
    assert_eq!(map.remove("b"), Some(1));
    expect(&map, &[("a", 0), ("c", 2), ("d", 3)]);
    assert_eq!(map.get("b"), None);
    assert_eq!(map.remove("b"), None);
    assert_eq!(map.remove("nope"), None);
    assert_eq!(map.remove("a"), Some(0));
    assert_eq!(map.remove("d"), Some(3));
    expect(&map, &[("c", 2)]);
    assert_eq!(map.remove("c"), Some(2));
    expect(&map, &[]);
}

#[test]
fn remove_then_insert_moves_to_the_end() {
    let mut map = OrderedHashMap::new();
    map.insert("a".to_string(), 1);
    map.insert("b".to_string(), 2);
    map.insert("c".to_string(), 3);
    assert_eq!(map.remove("a"), Some(1));
    assert_eq!(map.insert("a".to_string(), 4), None);
    expect(&map, &[("b", 2), ("c", 3), ("a", 4)]);
    assert_eq!(map.get("a"), Some(&4));
    assert_eq!(map.insert("a".to_string(), 5), Some(4));
    expect(&map, &[("b", 2), ("c", 3), ("a", 5)]);
}

#[test]
fn order_after_many_changes() {
    let mut map = OrderedHashMap::new();
    map.insert("one".to_string(), 1);
    map.insert("two".to_string(), 2);
    map.insert("three".to_string(), 3);
    map.remove("two");
    map.insert("four".to_string(), 4);
    map.insert("one".to_string(), 11);
    map.insert("two".to_string(), 22);
    map.remove("three");
    map.remove("five");
    map.insert("three".to_string(), 33);
    map.remove("four");
    expect(&map, &[("one", 11), ("two", 22), ("three", 33)]);
}

#[test]
fn get_mut_changes_the_value_in_place() {
    let mut map = OrderedHashMap::new();
    map.insert("a".to_string(), 1);
    map.insert("b".to_string(), 2);
    if let Some(v) = map.get_mut("a") {
        assert_eq!(*v, 1);
        *v = 100;
    } else {
        panic!("a is in the map");
    }
    assert!(map.get_mut("zz").is_none());
    expect(&map, &[("a", 100), ("b", 2)]);
}

#[test]
fn entry_or_insert_with_makes_a_missing_value_only() {
    let mut map = OrderedHashMap::new();
    map.insert("a".to_string(), 1);
    let mut calls = 0;
    {
        let v = map.entry_or_insert_with("a".to_string(), || {
            calls += 1;
            7
        });
        assert_eq!(*v, 1);
        *v += 1;
    }
    assert_eq!(calls, 0);
    {
        let v = map.entry_or_insert_with("b".to_string(), || {
            calls += 1;
            7
        });
        assert_eq!(*v, 7);
        *v += 1;
    }
    assert_eq!(calls, 1);
    expect(&map, &[("a", 2), ("b", 8)]);
}

#[test]
fn iter_mut_hands_out_each_value_in_order() {
    let mut map = OrderedHashMap::new();
    map.insert("a".to_string(), 1);
    map.insert("b".to_string(), 2);
    map.insert("c".to_string(), 3);
    map.remove("b");
    let mut seen = Vec::new();
    {
        let mut it = map.iter_mut();
        while let Some((k, v)) = it.next() {
            seen.push(k.clone());
            *v *= 10;
        }
        assert!(it.next().is_none());
    }
    assert_eq!(seen, ["a", "c"]);
    expect(&map, &[("a", 10), ("c", 30)]);
    assert_eq!(map.get("c"), Some(&30));
}

#[test]
fn emptied_slots_do_not_show() {
    let mut map = OrderedHashMap::new();
    for round in 0..50 {
        map.insert("k".to_string(), round);
        assert_eq!(map.remove("k"), Some(round));
    }
    expect(&map, &[]);
    map.insert("last".to_string(), 1);
    expect(&map, &[("last", 1)]);
    assert_eq!(keys(&map), ["last"]);
}

#[test]
fn keys_may_be_any_text() {
    let mut map = OrderedHashMap::new();
    map.insert("".to_string(), 0);
    map.insert(" ".to_string(), 1);
    map.insert("ключ".to_string(), 2);
    map.insert("a=b".to_string(), 3);
    assert_eq!(map.get(""), Some(&0));
    assert_eq!(map.get(" "), Some(&1));
    assert_eq!(map.get("ключ"), Some(&2));
    assert_eq!(map.get("a=b"), Some(&3));
    expect(&map, &[("", 0), (" ", 1), ("ключ", 2), ("a=b", 3)]);
}
