use rlru::LRU;

#[test]
fn lru_instantiaion() {
    let lru: LRU<&str, u8> = LRU::new();
    assert_eq!(lru.len(), 0);
}

fn drain(lru: LRU<&'static str, i32>) -> Vec<(&'static str, i32)> {
    let mut iter = lru.into_list().into_iter();
    let mut out = Vec::new();
    while let Some(entry) = iter.next() {
        out.push(entry);
    }
    out
}

#[test]
fn lru_set_puts_the_newest_entry_first() {
    let mut lru = LRU::new();
    lru.set("a", 1).set("b", 2).set("c", 3);
    assert_eq!(lru.len(), 3);
    assert_eq!(drain(lru), vec![("c", 3), ("b", 2), ("a", 1)]);
}

#[test]
fn lru_set_on_a_held_key_replaces_and_promotes() {
    let mut lru = LRU::new();
    lru.set("a", 1).set("b", 2).set("c", 3).set("a", 9);
    assert_eq!(lru.len(), 3);
    assert_eq!(drain(lru), vec![("a", 9), ("c", 3), ("b", 2)]);
}

#[test]
fn lru_never_evicts() {
    let mut lru = LRU::new();
    for i in 0..100u32 {
        lru.set(i, i * 2);
    }
    assert_eq!(lru.len(), 100);
    assert_eq!(lru.peek_front(), Some(&198));
    assert_eq!(lru.peek_back(), Some(&0));
    assert_eq!(lru.get(&0), Some(&0));
    assert_eq!(lru.peek_front(), Some(&0));
    assert_eq!(lru.peek_back(), Some(&2));
}

#[test]
fn lru_get_promotes_a_hit_and_ignores_a_miss() {
    let mut lru = LRU::new();
    lru.set("a", 1).set("b", 2).set("c", 3);
    assert_eq!(lru.get(&"x"), None);
    assert_eq!(lru.get(&"a"), Some(&1));
    assert_eq!(lru.len(), 3);
    assert_eq!(drain(lru), vec![("a", 1), ("c", 3), ("b", 2)]);
}

#[test]
fn lru_pops_remove_from_list_and_index_together() {
    let mut lru = LRU::new();
    lru.set("a", 1).set("b", 2).set("c", 3);
    assert_eq!(lru.pop_back(), Some(1));
    assert_eq!(lru.get(&"a"), None);
    assert_eq!(lru.pop_front(), Some(3));
    assert_eq!(lru.get(&"c"), None);
    assert_eq!(lru.len(), 1);
    assert_eq!(lru.get(&"b"), Some(&2));
    assert_eq!(lru.pop_front(), Some(2));
    assert_eq!(lru.pop_front(), None);
    assert_eq!(lru.pop_back(), None);
    lru.set("a", 5);
    assert_eq!(lru.get(&"a"), Some(&5));
}

#[test]
fn lru_peeks_do_not_count_as_a_use() {
    let mut lru: LRU<&str, i32> = LRU::new();
    assert_eq!(lru.peek_front(), None);
    assert_eq!(lru.peek_back(), None);
    lru.set("a", 1).set("b", 2);
    assert_eq!(lru.peek_back(), Some(&1));
    assert_eq!(lru.peek_front(), Some(&2));
    assert_eq!(drain(lru), vec![("b", 2), ("a", 1)]);
}

#[test]
fn lru_index_size_matches_both_walks_of_the_list() {
    let mut lru = LRU::new();
    let keys = ["a", "b", "c", "b", "d", "a", "e"];
    for (i, k) in keys.iter().enumerate() {
        lru.set(*k, i);
        assert_eq!(lru.list().count_forward(), lru.len());
        assert_eq!(lru.list().count_backward(), lru.len());
    }
    assert_eq!(lru.len(), 5);
    lru.get(&"c");
    lru.pop_back();
    lru.pop_front();
    assert_eq!(lru.len(), 3);
    assert_eq!(lru.list().count_forward(), 3);
    assert_eq!(lru.list().count_backward(), 3);
}
