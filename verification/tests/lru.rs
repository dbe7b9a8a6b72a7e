use mem_stream::clock::bounded_nanos;
use mem_stream::lru::{build_key, LRU};
use std::hash::{DefaultHasher, Hash, Hasher};

#[test]
fn a_full_cache_drops_the_entry_used_longest_ago() {
    let mut c: LRU<u64, &str> = LRU::new(2, 1_000);
    c.insert_at(1, "a", 0);
    c.insert_at(2, "b", 0);
    assert_eq!(c.get_at(&1, 10), Some(&"a"));
    c.insert_at(3, "c", 20);
    assert_eq!(c.get_at(&2, 20), None);
    assert_eq!(c.get_at(&1, 20), Some(&"a"));
    assert_eq!(c.get_at(&3, 20), Some(&"c"));
    c.insert_at(1, "z", 30);
    c.insert_at(4, "d", 30);
    assert_eq!(c.get_at(&3, 30), None);
    assert_eq!(c.get_at(&1, 30), Some(&"z"));
}

#[test]
fn an_entry_expires() {
    let mut c: LRU<u64, u8> = LRU::new(10, 100);
    c.insert_at(1, 7, 50);
    assert_eq!(c.get_at(&1, 150), Some(&7));
    assert_eq!(c.get_at(&1, 151), None);
    // It is gone, not only hidden.
    assert_eq!(c.get_at(&1, 60), None);
    c.insert_at(2, 8, u64::MAX - 1);
    assert_eq!(c.get_at(&2, u64::MAX), Some(&8));
}

#[test]
fn an_entry_can_be_removed_and_its_place_taken_again() {
    let mut c: LRU<u64, u8> = LRU::new(3, u64::MAX);
    for i in 0..3u8 {
        c.insert(i as u64, i);
    }
    assert_eq!(c.remove(&1), Some(1));
    assert_eq!(c.remove(&1), None);
    c.insert(9, 9);
    assert_eq!(c.get(&0), Some(&0));
    assert_eq!(c.get(&2), Some(&2));
    assert_eq!(c.get(&9), Some(&9));
    assert_eq!(c.remove(&0), Some(0));
    assert_eq!(c.remove(&2), Some(2));
    assert_eq!(c.remove(&9), Some(9));
    assert_eq!(c.get(&9), None);
}

#[test]
fn the_cache_key_is_the_hash_of_name_and_id() {
    for (name, id) in [("g1", 1u64), ("", 0), ("\u{6af}roup", u64::MAX), ("g", 0x0102030405060708)] {
        let mut h = DefaultHasher::new();
        name.hash(&mut h);
        id.hash(&mut h);
        assert_eq!(build_key(name, id), h.finish());
    }
}

#[test]
fn many_entries_in_random_order() {
    let mut c: LRU<u64, u64> = LRU::new(100, u64::MAX);
    let mut order: Vec<u64> = Vec::new();
    let mut x: u64 = 12345;
    for now in 0..20_000u64 {
        x = x.wrapping_mul(6364136223846793005).wrapping_add(1442695040888963407);
        let k = (x >> 33) % 150;
        let place = order.iter().position(|o| *o == k);
        match (x >> 20) % 4 {
            0 | 1 => {
                match place {
                    Some(p) => {
                        order.remove(p);
                    }
                    None => {
                        if order.len() == 100 {
                            order.pop();
                        }
                    }
                }
                order.insert(0, k);
                c.insert_at(k, now, now);
            }
            2 => {
                assert_eq!(c.get_at(&k, now).is_some(), place.is_some());
                if let Some(p) = place {
                    order.remove(p);
                    order.insert(0, k);
                }
            }
            _ => {
                assert_eq!(c.remove(&k).is_some(), place.is_some());
                if let Some(p) = place {
                    order.remove(p);
                }
            }
        }
    }
}

#[test]
fn nanoseconds_are_bounded() {
    assert_eq!(bounded_nanos(5), 5);
    assert_eq!(bounded_nanos(u64::MAX as u128), u64::MAX);
    assert_eq!(bounded_nanos(u64::MAX as u128 + 6), u64::MAX);
}
