use hashing_heap::heap::MyHashingHeap;
use hashing_heap::probe::N;

#[test]
fn instantiate_is_empty() {
    let mut heap: MyHashingHeap<String> = MyHashingHeap::instantiate();
    assert_eq!(heap.collision_count(), 0);
    assert_eq!(heap.get("ab001"), None);
    assert_eq!(heap.collision_count(), 0);
    assert_eq!(N, 15000);
}

#[test]
fn put_then_get_returns_value() {
    let mut heap: MyHashingHeap<String> = MyHashingHeap::instantiate();
    assert_eq!(heap.put("jd042", "first".to_string()), None);
    assert_eq!(heap.get("jd042"), Some("first".to_string()));
    assert_eq!(heap.get("jd043"), None);
}

#[test]
fn put_twice_returns_previous_value() {
    let mut heap: MyHashingHeap<u32> = MyHashingHeap::instantiate();
    assert_eq!(heap.put("ms100", 1), None);
    assert_eq!(heap.put("ms100", 2), Some(1));
    assert_eq!(heap.get("ms100"), Some(2));
}

#[test]
fn case_and_plus_sign_give_same_key() {
    let mut heap: MyHashingHeap<u32> = MyHashingHeap::instantiate();
    assert_eq!(heap.put("ab7", 7), None);
    assert_eq!(heap.put("AB007", 8), Some(7));
    assert_eq!(heap.get("aB+7"), Some(8));
}

#[test]
fn collision_counted_when_home_holds_other_key() {
    let mut heap: MyHashingHeap<u32> = MyHashingHeap::instantiate();
    // key 26001 has home slot 11001; the key stored there differs from 11001
    assert_eq!(heap.put("ab001", 1), None);
    assert_eq!(heap.collision_count(), 0);
    assert_eq!(heap.get("ab001"), Some(1));
    assert_eq!(heap.collision_count(), 1);
    assert_eq!(heap.put("ab001", 2), Some(1));
    assert_eq!(heap.collision_count(), 2);
    assert_eq!(heap.remove("ab001"), Some(2));
    assert_eq!(heap.collision_count(), 3);
    assert_eq!(heap.get("ab001"), None);
    assert_eq!(heap.collision_count(), 3);
}

#[test]
fn no_collision_when_home_holds_its_own_index() {
    let mut heap: MyHashingHeap<u32> = MyHashingHeap::instantiate();
    // key 1 lives in home slot 1
    assert_eq!(heap.put("aa001", 1), None);
    assert_eq!(heap.get("aa001"), Some(1));
    // key 15001 also has home slot 1, which holds key 1 == slot index: not counted
    assert_eq!(heap.put("aa15001", 2), None);
    assert_eq!(heap.collision_count(), 0);
    assert_eq!(heap.get("aa15001"), Some(2));
    assert_eq!(heap.get("aa001"), Some(1));
}

#[test]
fn probing_wraps_round_the_end() {
    let mut heap: MyHashingHeap<u32> = MyHashingHeap::instantiate();
    // keys 14999 and 29999 both have home slot 14999, the last slot
    assert_eq!(heap.put("aa14999", 1), None);
    assert_eq!(heap.put("ab3999", 2), None);
    assert_eq!(heap.get("aa14999"), Some(1));
    assert_eq!(heap.get("ab3999"), Some(2));
    assert_eq!(heap.remove("ab3999"), Some(2));
    assert_eq!(heap.get("ab3999"), None);
    assert_eq!(heap.get("aa14999"), Some(1));
}

#[test]
fn remove_returns_value_and_key_is_gone() {
    let mut heap: MyHashingHeap<String> = MyHashingHeap::instantiate();
    heap.put("kl500", "x".to_string());
    assert_eq!(heap.remove("kl500"), Some("x".to_string()));
    assert_eq!(heap.get("kl500"), None);
    assert_eq!(heap.remove("kl500"), None);
}

#[test]
fn remove_moves_a_small_key_back_into_the_gap() {
    let mut heap: MyHashingHeap<u32> = MyHashingHeap::instantiate();
    assert_eq!(heap.put("aa15004", 1), None); // slot 4
    assert_eq!(heap.put("aa15005", 2), None); // slot 5
    assert_eq!(heap.put("aa004", 3), None); // home 4, lands in slot 6
    assert_eq!(heap.remove("aa15005"), Some(2));
    // key 4 (< 5, and not below the bound 4) moved into slot 5, so it is still found
    assert_eq!(heap.get("aa004"), Some(3));
    assert_eq!(heap.get("aa15004"), Some(1));
    assert_eq!(heap.get("aa15005"), None);
}

#[test]
fn remove_leaves_a_later_large_key_behind_the_gap() {
    let mut heap: MyHashingHeap<u32> = MyHashingHeap::instantiate();
    assert_eq!(heap.put("aa001", 1), None); // slot 1
    assert_eq!(heap.put("aa15001", 2), None); // home 1, slot 2
    assert_eq!(heap.remove("aa001"), Some(1));
    // key 15001 is not below the gap's index, so it stays in slot 2 and the probe from
    // its home stops at the emptied slot 1
    assert_eq!(heap.get("aa15001"), None);
    // storing it again fills slot 1
    assert_eq!(heap.put("aa15001", 3), None);
    assert_eq!(heap.get("aa15001"), Some(3));
}

#[test]
fn puts_of_different_keys_commute() {
    let mut h1: MyHashingHeap<u32> = MyHashingHeap::instantiate();
    let mut h2: MyHashingHeap<u32> = MyHashingHeap::instantiate();
    // both keys have home slot 1
    assert_eq!(h1.put("aa001", 1), None);
    assert_eq!(h1.put("aa15001", 2), None);
    assert_eq!(h2.put("aa15001", 2), None);
    assert_eq!(h2.put("aa001", 1), None);
    for k in ["aa001", "aa15001", "aa30001"] {
        assert_eq!(h1.get(k), h2.get(k));
    }
    assert_eq!(h1.get("aa15001"), Some(2));
}

#[test]
fn collision_count_never_decreases() {
    let mut heap: MyHashingHeap<u32> = MyHashingHeap::instantiate();
    let mut last = heap.collision_count();
    for k in ["ab001", "ab001", "aa11001", "ab001", "zz999"] {
        heap.put(k, 0);
        let now = heap.collision_count();
        assert!(last <= now && now <= last + 1);
        last = now;
        heap.get(k);
        let now = heap.collision_count();
        assert!(last <= now && now <= last + 1);
        last = now;
    }
}

/// A value whose clone differs from its source: each clone counts one generation more.
#[derive(Debug, PartialEq)]
struct Generation(u32);

impl Clone for Generation {
    fn clone(&self) -> Self {
        Generation(self.0 + 1)
    }
}

#[test]
fn values_returned_and_moved_are_clones() {
    let mut heap: MyHashingHeap<Generation> = MyHashingHeap::instantiate();
    assert_eq!(heap.put("aa15004", Generation(0)), None); // slot 4
    assert_eq!(heap.put("aa15005", Generation(10)), None); // slot 5
    assert_eq!(heap.put("aa004", Generation(20)), None); // slot 6
    // get and put hand back clones of what is stored
    assert_eq!(heap.get("aa15004"), Some(Generation(1)));
    assert_eq!(heap.put("aa15004", Generation(30)), Some(Generation(1)));
    assert_eq!(heap.get("aa15004"), Some(Generation(31)));
    // remove hands back a clone, and the entry moved into the gap is a clone
    assert_eq!(heap.remove("aa15005"), Some(Generation(11)));
    assert_eq!(heap.get("aa004"), Some(Generation(22)));
}
