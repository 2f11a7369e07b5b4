use fast_logger::U32Map;

#[test]
fn first_ids_count_up_from_zero() {
    let mut map = U32Map::new();
    assert_eq![Some(0), map.insert("a")];
    assert_eq![Some(1), map.insert("b")];
    assert_eq![Some(2), map.insert("c")];
    assert_eq![Some(&"a"), map.get(&0)];
    assert_eq![Some(&"b"), map.get(&1)];
    assert_eq![Some(&"c"), map.get(&2)];
    assert_eq![None, map.get(&3)];
}

#[test]
fn empty_map_has_nothing() {
    let map: U32Map<u8> = U32Map::new();
    assert_eq![None, map.get(&0)];
    assert_eq![None, map.get(&u32::MAX)];
}

#[test]
fn cloned_map_keeps_entries() {
    let mut map = U32Map::new();
    map.insert(5u64);
    let copy = map.clone();
    assert_eq![Some(&5), copy.get(&0)];
}

#[test]
fn ids_are_handed_out_in_turn() {
    let mut map = U32Map::new();
    for i in 0..1000u32 {
        assert_eq![Some(i), map.insert(i * 2)];
    }
    for i in 0..1000u32 {
        assert_eq![Some(&(i * 2)), map.get(&i)];
    }
}
