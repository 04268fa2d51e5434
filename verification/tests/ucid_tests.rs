use hashing_heap::ucid::ucid_to_int;

#[test]
fn ucid_to_int_values() {
    assert_eq!(ucid_to_int("aa000"), 0);
    assert_eq!(ucid_to_int("aa001"), 1);
    assert_eq!(ucid_to_int("ab001"), 26001);
    assert_eq!(ucid_to_int("ba000"), 26 * 26000);
    assert_eq!(ucid_to_int("zz999"), 675 * 26000 + 999);
    assert_eq!(ucid_to_int("jd042"), (9 * 26 + 3) * 26000 + 42);
}

#[test]
fn ucid_to_int_accepts_either_case_and_plus() {
    assert_eq!(ucid_to_int("JD042"), ucid_to_int("jd042"));
    assert_eq!(ucid_to_int("jD+42"), ucid_to_int("jd042"));
    assert_eq!(ucid_to_int("aa00000000000000000007"), 7);
}

#[test]
fn ucid_to_int_large_serial() {
    assert_eq!(ucid_to_int("aa4294967295"), 4294967295);
    assert_eq!(ucid_to_int("zz4277417295"), 4294967295);
}

#[test]
fn short_ucids_have_distinct_keys_up_to_zz999() {
    assert_eq!(ucid_to_int("zz999"), 17550999);
    assert_ne!(ucid_to_int("ab100"), ucid_to_int("ba100"));
    assert_ne!(ucid_to_int("ab010"), ucid_to_int("ab001"));
}
