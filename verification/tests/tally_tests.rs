use hashing_heap::generate::{gen_ucids, NUMSTUDENTS};
use hashing_heap::heap::MyHashingHeap;
use hashing_heap::tally::{initial_indices, tally_draws, ucids_from_tally, CELLS};
use hashing_heap::ucid::ucid_to_int;
use std::collections::HashSet;

#[test]
fn tally_numbers_each_pair_from_one() {
    let mut counts = vec![0u32; CELLS];
    counts[0] = 2;
    counts[27] = 1;
    counts[675] = 3;
    let ucids = ucids_from_tally(&counts).unwrap();
    assert_eq!(ucids, vec!["aa001", "aa002", "bb001", "zz001", "zz002", "zz003"]);
}

#[test]
fn tally_pads_serials_to_three_digits() {
    let mut counts = vec![0u32; CELLS];
    counts[3 * 26 + 4] = 999;
    let ucids = ucids_from_tally(&counts).unwrap();
    assert_eq!(ucids.len(), 999);
    assert_eq!(ucids[0], "de001");
    assert_eq!(ucids[9], "de010");
    assert_eq!(ucids[99], "de100");
    assert_eq!(ucids[998], "de999");
}

#[test]
fn empty_tally_gives_no_ucids() {
    let counts = vec![0u32; CELLS];
    assert!(ucids_from_tally(&counts).unwrap().is_empty());
}

#[test]
fn tally_with_a_count_over_999_gives_none() {
    let mut counts = vec![0u32; CELLS];
    counts[100] = 1000;
    assert_eq!(ucids_from_tally(&counts), None);
}

#[test]
fn initial_indices_of_letters() {
    assert_eq!(initial_indices(b"abzAZ"), Some(vec![0, 1, 25, 0, 25]));
    assert_eq!(initial_indices(b""), Some(vec![]));
    assert_eq!(initial_indices(b"ab1"), None);
    assert_eq!(initial_indices(b"a-"), None);
}

#[test]
fn tally_counts_each_drawn_pair() {
    let firstnames = vec![0, 1, 2];
    let lastnames = vec![25, 0];
    let first_draws = vec![0, 2, 0, 1];
    let last_draws = vec![0, 1, 0, 1];
    let counts = tally_draws(&firstnames, &lastnames, &first_draws, &last_draws).unwrap();
    assert_eq!(counts.len(), CELLS);
    assert_eq!(counts[25], 2); // "az" twice
    assert_eq!(counts[2 * 26], 1); // "ca"
    assert_eq!(counts[26], 1); // "ba"
    assert_eq!(counts.iter().sum::<u32>(), 4);
}

#[test]
fn tally_rejects_a_draw_past_the_table() {
    let firstnames = vec![0, 1];
    let lastnames = vec![3];
    assert_eq!(tally_draws(&firstnames, &lastnames, &vec![0, 2], &vec![0, 0]), None);
    assert_eq!(tally_draws(&firstnames, &lastnames, &vec![0], &vec![1]), None);
}

#[test]
fn drawn_tally_gives_sorted_numbered_ucids() {
    let firstnames = initial_indices(b"jm").unwrap();
    let lastnames = initial_indices(b"sd").unwrap();
    let counts = tally_draws(&firstnames, &lastnames, &vec![1, 0, 1, 0], &vec![0, 1, 0, 0]).unwrap();
    let ucids = ucids_from_tally(&counts).unwrap();
    assert_eq!(ucids, vec!["jd001", "js001", "ms001", "ms002"]);
}

#[test]
fn generated_ucids_are_distinct() {
    let ucids = gen_ucids().expect("a pair of initials was drawn more than 999 times");
    assert_eq!(ucids.len(), NUMSTUDENTS as usize);
    let set: HashSet<&String> = ucids.iter().collect();
    assert_eq!(set.len(), 12000);
    let keys: HashSet<u32> = ucids.iter().map(|u| ucid_to_int(u)).collect();
    assert_eq!(keys.len(), 12000);
    for u in &ucids {
        assert_eq!(u.len(), 5);
    }
}

#[test]
fn all_generated_ucids_can_be_stored_and_found() {
    let ucids = gen_ucids().expect("a pair of initials was drawn more than 999 times");
    let mut heap: MyHashingHeap<String> = MyHashingHeap::instantiate();
    for u in &ucids {
        assert_eq!(heap.put(u, u.clone()), None);
    }
    for u in &ucids {
        assert_eq!(heap.get(u), Some(u.clone()));
    }
}
