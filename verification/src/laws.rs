//! What the table's operations promise together: a read after a write, a second write,
//! and a deletion, stated over the slots that the operations' contracts speak of.
use vstd::prelude::*;
use crate::gap::{
    gap_closed, has_vacancy, lemma_shift_keeps_entries, lemma_shift_rel_keys,
    lemma_shift_steps_keys, lemma_update_to_multiset, shift_rel, slot_keys,
};
use crate::heap::MyHashingHeap;
use crate::probe::{
    N, Slots, collision_bump, entry_key, entry_value, halts, home, lemma_probe_from_le, lemma_probe_halts,
    lemma_step_bound, lemma_step_distinct, probe_halts, probe_len, probe_slot, step,
};
use crate::ucid::{is_ucid, ucid_key, ucid_value};

verus! {

/// Deleting takes out exactly the key found and keeps every other key (the values moved
/// on the way are clones of the values they came from), and leaves one more empty slot.
pub proof fn lemma_remove_keeps_others<T: Clone>(s: Slots<T>, p: int, r: Slots<T>)
    requires
        s.len() == N,
        0 <= p < N,
        s[p] is Some,
        gap_closed(s.update(p, None), p, p, r),
    ensures
        r.len() == N,
        slot_keys(r).to_multiset() =~= slot_keys(s).to_multiset().remove(slot_keys(s)[p]).insert(
            None,
        ),
{
    let g = s.update(p, None);
    let fuel = choose|fuel: nat| #[trigger] shift_rel(g, p, p, fuel, r);
    lemma_shift_rel_keys(g, p, p, fuel, r);
    lemma_shift_steps_keys(g, p, p, fuel);
    assert(slot_keys(g) =~= slot_keys(s).update(p, None));
    lemma_shift_keeps_entries(slot_keys(g), p, p, fuel);
    lemma_update_to_multiset(slot_keys(s), p, None);
}

/// The slot holds an entry for `key`.
pub open spec fn entry_has_key<T>(e: Option<(u32, T)>, key: u32) -> bool {
    match e {
        Some(kv) => kv.0 == key,
        None => false,
    }
}

/// Some slot holds an entry for `key`.
pub open spec fn holds_key<T>(s: Slots<T>, key: u32) -> bool {
    exists|idx: int| 0 <= idx < s.len() && #[trigger] entry_has_key(s[idx], key)
}

/// At most one slot holds an entry for `key`.
pub open spec fn key_at_most_once<T>(s: Slots<T>, key: u32) -> bool {
    forall|a: int, b: int|
        0 <= a < s.len() && 0 <= b < s.len() && #[trigger] entry_has_key(s[a], key)
            && #[trigger] entry_has_key(s[b], key) ==> a == b
}

/// A lookup of a key that no slot holds, in a table with an empty slot, ends at an
/// empty slot.
pub proof fn lemma_absent_key_probes_to_empty<T>(s: Slots<T>, key: u32)
    requires
        s.len() == N,
        has_vacancy(s),
        !holds_key(s, key),
    ensures
        probe_halts(s, key),
        s[probe_slot(s, key)] is None,
{
    let h = choose|idx: int| 0 <= idx < N && #[trigger] s[idx] is None;
    assert(halts(s[h], key));
    lemma_probe_halts(s, key);
    let p = probe_slot(s, key);
    if s[p] is Some {
        assert(entry_has_key(s[p], key));
    }
}

/// Once the only entry for `key` is deleted, a lookup of `key` finds no value: it ends
/// at an empty slot, so a second deletion of `key` returns `None` and changes no slot.
pub proof fn lemma_removed_key_is_gone<T: Clone>(s: Slots<T>, key: u32, r: Slots<T>)
    requires
        s.len() == N,
        probe_halts(s, key),
        s[probe_slot(s, key)] is Some,
        key_at_most_once(s, key),
        gap_closed(s.update(probe_slot(s, key), None), probe_slot(s, key), probe_slot(s, key), r),
    ensures
        !holds_key(r, key),
        probe_halts(r, key),
        r[probe_slot(r, key)] is None,
{
    broadcast use vstd::seq_lib::group_to_multiset_ensures;
    broadcast use vstd::multiset::group_multiset_axioms;

    lemma_probe_halts(s, key);
    let p = probe_slot(s, key);
    let g = s.update(p, None);
    lemma_remove_keeps_others(s, p, r);
    let kr = slot_keys(r);
    let kg = slot_keys(g);
    assert(kg =~= slot_keys(s).update(p, None));
    lemma_update_to_multiset(slot_keys(s), p, None);
    assert(kr.to_multiset() =~= kg.to_multiset());
    assert(!holds_key(g, key)) by {
        if holds_key(g, key) {
            let a = choose|idx: int| 0 <= idx < g.len() && #[trigger] entry_has_key(g[idx], key);
            assert(entry_has_key(s[a], key));
            assert(entry_has_key(s[p], key));
        }
    }
    assert(!holds_key(r, key)) by {
        if holds_key(r, key) {
            let a = choose|idx: int| 0 <= idx < r.len() && #[trigger] entry_has_key(r[idx], key);
            assert(kr[a] == Some((key, ())));
            assert(kr.contains(kr[a]));
            assert(kg.to_multiset().count(kr[a]) > 0);
            assert(kg.contains(kr[a]));
            let b = choose|b: int| 0 <= b < kg.len() && kg[b] == kr[a];
            assert(entry_has_key(g[b], key));
        }
    }
    assert(kg[p] is None);
    assert(kg.contains(None::<(u32, ())>));
    assert(kg.to_multiset().count(None::<(u32, ())>) > 0);
    assert(kr.contains(None::<(u32, ())>));
    let h = choose|b: int| 0 <= b < kr.len() && kr[b] == None::<(u32, ())>;
    assert(r[h] is None);
    lemma_absent_key_probes_to_empty(r, key);
}

/// Read after write: after `key` is stored with `val`, a lookup of `key` halts at the
/// same slot and finds `val` there; the slots before it on the probe are unchanged.
pub proof fn lemma_put_then_get<T>(s: Slots<T>, key: u32, val: T)
    requires
        s.len() == N,
        probe_halts(s, key),
    ensures
        ({
            let s2 = s.update(probe_slot(s, key), Some((key, val)));
            &&& probe_halts(s2, key)
            &&& probe_slot(s2, key) == probe_slot(s, key)
            &&& s2[probe_slot(s2, key)] == Some((key, val))
        }),
{
    lemma_probe_halts(s, key);
    let p = probe_slot(s, key);
    let n = probe_len(s, key);
    let s2 = s.update(p, Some((key, val)));
    assert(halts(s2[p], key));
    assert forall|u: int| 0 <= u < n implies !#[trigger] halts(s2[step(home(key), u)], key) by {
        lemma_step_distinct(home(key), u, n);
        lemma_step_bound(home(key), u);
    }
    lemma_step_bound(home(key), n);
    lemma_probe_from_le(s2, home(key), key, 0, n);
    assert(probe_halts(s2, key));
}

/// Writing `key` twice: the second write finds the first one's entry, which it returns,
/// and replaces it in the same slot; writing the same value again changes no slot. (The
/// second call needs room for one more collision: see `lemma_collision_bump_range`.)
pub proof fn lemma_put_twice<T>(s: Slots<T>, key: u32, v1: T, v2: T)
    requires
        s.len() == N,
        probe_halts(s, key),
    ensures
        ({
            let s2 = s.update(probe_slot(s, key), Some((key, v1)));
            &&& probe_halts(s2, key)
            &&& s2[probe_slot(s2, key)] == Some((key, v1))
            &&& s2.update(probe_slot(s2, key), Some((key, v2))) =~= s.update(
                probe_slot(s, key),
                Some((key, v2)),
            )
            &&& s2.update(probe_slot(s2, key), Some((key, v1))) =~= s2
        }),
{
    lemma_put_then_get(s, key, v1);
}

/// A write to one key keeps every other key that a lookup finds: its lookup halts at
/// the same slot and finds the same entry there.
pub proof fn lemma_put_keeps_other_keys<T>(s: Slots<T>, key: u32, other: u32, val: T)
    requires
        s.len() == N,
        key != other,
        probe_halts(s, key),
        probe_halts(s, other),
        s[probe_slot(s, other)] is Some,
    ensures
        ({
            let s2 = s.update(probe_slot(s, key), Some((key, val)));
            &&& probe_halts(s2, other)
            &&& probe_slot(s2, other) == probe_slot(s, other)
            &&& s2[probe_slot(s2, other)] == s[probe_slot(s, other)]
        }),
{
    lemma_probe_halts(s, key);
    lemma_probe_halts(s, other);
    let p = probe_slot(s, key);
    let q = probe_slot(s, other);
    let n = probe_len(s, other);
    let s2 = s.update(p, Some((key, val)));
    assert(p != q);
    assert(halts(s2[q], other));
    assert forall|u: int| 0 <= u < n implies !#[trigger] halts(s2[step(home(other), u)], other) by {
        lemma_step_bound(home(other), u);
        assert(!halts(s[step(home(other), u)], other));
    }
    lemma_step_bound(home(other), n);
    lemma_probe_from_le(s2, home(other), other, 0, n);
    assert(probe_halts(s2, other));
}

/// Hashing a key counts at most one collision, and none when its home slot is empty. So
/// each `get`, `put` or `remove` adds 0 or 1 to the collision count, which never
/// decreases over any sequence of calls; `k` calls from a count `c` have room when
/// `c + k <= u32::MAX`.
pub proof fn lemma_collision_bump_range<T>(s: Slots<T>, key: u32)
    ensures
        0 <= collision_bump(s, key) <= 1,
        s[home(key)] is None ==> collision_bump(s, key) == 0,
{
}

/// Two ucids with the same key number are looked up alike: from the same slots, their
/// probes halt at the same slot and count the same collisions (`ab007` and `AB+7`, say).
pub proof fn lemma_same_key_same_lookup<T>(s: Slots<T>, k1: Seq<char>, k2: Seq<char>)
    requires
        is_ucid(k1),
        is_ucid(k2),
        ucid_value(k1) == ucid_value(k2),
    ensures
        ucid_key(k1) == ucid_key(k2),
        probe_halts(s, ucid_key(k1)) == probe_halts(s, ucid_key(k2)),
        probe_slot(s, ucid_key(k1)) == probe_slot(s, ucid_key(k2)),
        collision_bump(s, ucid_key(k1)) == collision_bump(s, ucid_key(k2)),
{
}

/// A lookup leaves the slots as they were, so a second lookup of the same key (from the
/// table the first one left, `h1`) halts at the same slot, finds the same entry and counts
/// the same collision; it has room when the first one's count plus that collision fits.
pub proof fn lemma_get_twice<T: Clone>(h0: MyHashingHeap<T>, h1: MyHashingHeap<T>, key: Seq<char>)
    requires
        h0.wf(),
        is_ucid(key),
        probe_halts(h0@, ucid_key(key)),
        h1@ == h0@,
        h1.collisions() == h0.collisions() + collision_bump(h0@, ucid_key(key)),
    ensures
        h1.wf(),
        probe_halts(h1@, ucid_key(key)),
        probe_slot(h1@, ucid_key(key)) == probe_slot(h0@, ucid_key(key)),
        h1@[probe_slot(h1@, ucid_key(key))] == h0@[probe_slot(h0@, ucid_key(key))],
        collision_bump(h1@, ucid_key(key)) == collision_bump(h0@, ucid_key(key)),
        h1.collisions() + collision_bump(h1@, ucid_key(key)) == h0.collisions() + 2
            * collision_bump(h0@, ucid_key(key)),
{
}

/// The slots after writing `val` under `key` (what `put` leaves).
pub open spec fn put_slots<T>(s: Slots<T>, key: u32, val: T) -> Slots<T> {
    s.update(probe_slot(s, key), Some((key, val)))
}

/// Every entry is where a lookup of its key halts: nothing lies behind an empty slot on
/// its key's probe, and no key is stored twice.
pub open spec fn entries_reachable<T>(s: Slots<T>) -> bool {
    forall|idx: int|
        0 <= idx < s.len() && (#[trigger] s[idx]) is Some ==> probe_slot(s, entry_key(s[idx])) == idx
}

/// The key-value map that the slots hold.
pub open spec fn stored<T>(s: Slots<T>) -> Map<u32, T> {
    Map::new(|k: u32| holds_key(s, k), |k: u32| entry_value(s[probe_slot(s, k)]))
}

/// Where every entry is reachable, a lookup finds an entry exactly for the keys stored,
/// and finds their stored value.
pub proof fn lemma_lookup_stored<T>(s: Slots<T>, key: u32)
    requires
        s.len() == N,
        entries_reachable(s),
        probe_halts(s, key),
    ensures
        s[probe_slot(s, key)] is Some <==> stored(s).dom().contains(key),
        stored(s).dom().contains(key) ==> s[probe_slot(s, key)] == Some(
            (key, stored(s)[key]),
        ),
{
    lemma_probe_halts(s, key);
    let p = probe_slot(s, key);
    if s[p] is Some {
        assert(entry_has_key(s[p], key));
    }
    if holds_key(s, key) {
        let idx = choose|idx: int| 0 <= idx < s.len() && #[trigger] entry_has_key(s[idx], key);
        assert(s[idx] is Some);
    }
}

/// A write keeps every entry reachable, and stores `val` under `key` in the key-value
/// map, leaving every other key as it was.
pub proof fn lemma_put_stored<T>(s: Slots<T>, key: u32, val: T)
    requires
        s.len() == N,
        entries_reachable(s),
        probe_halts(s, key),
    ensures
        put_slots(s, key, val).len() == N,
        entries_reachable(put_slots(s, key, val)),
        stored(put_slots(s, key, val)) =~= stored(s).insert(key, val),
{
    lemma_probe_halts(s, key);
    lemma_put_then_get(s, key, val);
    let p = probe_slot(s, key);
    let s2 = put_slots(s, key, val);
    assert forall|idx: int| 0 <= idx < s2.len() && (#[trigger] s2[idx]) is Some implies probe_slot(
        s2,
        entry_key(s2[idx]),
    ) == idx by {
        if idx != p {
            let k2 = entry_key(s[idx]);
            assert(s[idx] is Some);
            assert(probe_slot(s, k2) == idx);
            assert(halts(s[idx], k2));
            if k2 == key {
                assert(false);
            }
            lemma_put_keeps_other_keys(s, key, k2, val);
        }
    }
    assert forall|q: u32| #[trigger] holds_key(s2, q) == (q == key || holds_key(s, q)) by {
        if q != key {
            if holds_key(s2, q) {
                let idx = choose|idx: int|
                    0 <= idx < s2.len() && #[trigger] entry_has_key(s2[idx], q);
                assert(idx != p);
                assert(entry_has_key(s[idx], q));
            }
            if holds_key(s, q) {
                let idx = choose|idx: int|
                    0 <= idx < s.len() && #[trigger] entry_has_key(s[idx], q);
                assert(halts(s[p], key));
                assert(idx != p);
                assert(entry_has_key(s2[idx], q));
            }
        } else {
            assert(entry_has_key(s2[p], key));
        }
    }
    assert forall|q: u32| #[trigger] stored(s2).dom().contains(q) implies stored(s2)[q] == stored(
        s,
    ).insert(key, val)[q] by {
        if q != key {
            let idx = choose|idx: int|
                0 <= idx < s.len() && #[trigger] entry_has_key(s[idx], q);
            assert(s[idx] is Some);
            assert(probe_slot(s, q) == idx);
            assert(halts(s[idx], q));
            lemma_put_keeps_other_keys(s, key, q, val);
        }
    }
}

/// Two slots are empty.
pub open spec fn two_vacancies<T>(s: Slots<T>) -> bool {
    exists|a: int, b: int|
        0 <= a < N && 0 <= b < N && a != b && (#[trigger] s[a]) is None && (#[trigger] s[b]) is None
}

/// Where every entry is reachable and two slots are empty, writing two different keys in
/// either order stores the same key-value map (the slots they land in may differ), and
/// keeps every entry reachable.
pub proof fn lemma_puts_commute<T>(s: Slots<T>, k1: u32, v1: T, k2: u32, v2: T)
    requires
        s.len() == N,
        entries_reachable(s),
        two_vacancies(s),
        k1 != k2,
    ensures
        ({
            let s12 = put_slots(put_slots(s, k1, v1), k2, v2);
            let s21 = put_slots(put_slots(s, k2, v2), k1, v1);
            &&& entries_reachable(s12)
            &&& entries_reachable(s21)
            &&& stored(s12) == stored(s21)
            &&& stored(s12) == stored(s).insert(k1, v1).insert(k2, v2)
        }),
{
    let (a, b) = choose|a: int, b: int|
        0 <= a < N && 0 <= b < N && a != b && (#[trigger] s[a]) is None && (#[trigger] s[b]) is None;
    assert(halts(s[a], k1) && halts(s[a], k2));
    let s1 = put_slots(s, k1, v1);
    let s2 = put_slots(s, k2, v2);
    lemma_put_stored(s, k1, v1);
    lemma_put_stored(s, k2, v2);
    let c1 = if probe_slot(s, k1) == a { b } else { a };
    let c2 = if probe_slot(s, k2) == a { b } else { a };
    assert(halts(s1[c1], k2));
    assert(halts(s2[c2], k1));
    lemma_put_stored(s1, k2, v2);
    lemma_put_stored(s2, k1, v1);
    assert(stored(s).insert(k1, v1).insert(k2, v2) =~= stored(s).insert(k2, v2).insert(k1, v1));
}

/// The table that `instantiate` makes: every slot empty.
pub open spec fn empty_slots<T>() -> Slots<T> {
    Seq::new(N as nat, |i: int| None::<(u32, T)>)
}

/// The slots after writing the first `j` keys with their values, in order, from `s`.
pub open spec fn put_all<T>(s: Slots<T>, keys: Seq<u32>, vals: Seq<T>, j: int) -> Slots<T>
    decreases j,
{
    if j <= 0 {
        s
    } else {
        put_slots(put_all(s, keys, vals, j - 1), keys[j - 1], vals[j - 1])
    }
}

/// The map from the first `j` keys to their values.
pub open spec fn key_map<T>(keys: Seq<u32>, vals: Seq<T>, j: int) -> Map<u32, T>
    decreases j,
{
    if j <= 0 {
        Map::empty()
    } else {
        key_map(keys, vals, j - 1).insert(keys[j - 1], vals[j - 1])
    }
}

/// The number of empty slots.
pub open spec fn count_empty<T>(s: Slots<T>) -> nat
    decreases s.len(),
{
    if s.len() == 0 {
        0
    } else {
        count_empty(s.drop_last()) + if s.last() is None {
            1nat
        } else {
            0nat
        }
    }
}

proof fn lemma_count_empty_fill<T>(s: Slots<T>, i: int, x: Option<(u32, T)>)
    requires
        0 <= i < s.len(),
        s[i] is None,
        x is Some,
    ensures
        count_empty(s.update(i, x)) + 1 == count_empty(s),
    decreases s.len(),
{
    let u = s.update(i, x);
    if i == s.len() - 1 {
        assert(u.drop_last() =~= s.drop_last());
    } else {
        assert(u.drop_last() =~= s.drop_last().update(i, x));
        lemma_count_empty_fill(s.drop_last(), i, x);
    }
}

proof fn lemma_count_empty_vacancy<T>(s: Slots<T>)
    requires
        count_empty(s) > 0,
    ensures
        exists|idx: int| 0 <= idx < s.len() && #[trigger] s[idx] is None,
    decreases s.len(),
{
    if s.last() is None {
        assert(s[s.len() - 1] is None);
    } else {
        lemma_count_empty_vacancy(s.drop_last());
        let idx = choose|idx: int| 0 <= idx < s.drop_last().len() && #[trigger] s.drop_last()[idx] is None;
        assert(s[idx] is None);
    }
}

proof fn lemma_count_empty_all<T>(n: nat)
    ensures
        count_empty(Seq::new(n, |i: int| None::<(u32, T)>)) == n,
    decreases n,
{
    if n > 0 {
        assert(Seq::new(n, |i: int| None::<(u32, T)>).drop_last() =~= Seq::new(
            (n - 1) as nat,
            |i: int| None::<(u32, T)>,
        ));
        lemma_count_empty_all::<T>((n - 1) as nat);
    }
}

proof fn lemma_key_map<T>(keys: Seq<u32>, vals: Seq<T>, j: int)
    requires
        0 <= j <= keys.len(),
        keys.len() == vals.len(),
        keys.no_duplicates(),
    ensures
        forall|q: u32| #[trigger]
            key_map(keys, vals, j).dom().contains(q) <==> exists|i: int|
                0 <= i < j && keys[i] == q,
        forall|i: int| 0 <= i < j ==> key_map(keys, vals, j)[#[trigger] keys[i]] == vals[i],
    decreases j,
{
    if j > 0 {
        lemma_key_map(keys, vals, j - 1);
        assert forall|q: u32| #[trigger]
            key_map(keys, vals, j).dom().contains(q) <==> exists|i: int|
                0 <= i < j && keys[i] == q by {
            if q == keys[j - 1] {
                assert(0 <= j - 1 < j && keys[j - 1] == q);
            } else {
                if key_map(keys, vals, j - 1).dom().contains(q) {
                    let i = choose|i: int| 0 <= i < j - 1 && keys[i] == q;
                    assert(0 <= i < j && keys[i] == q);
                }
                if exists|i: int| 0 <= i < j && keys[i] == q {
                    let i = choose|i: int| 0 <= i < j && keys[i] == q;
                    assert(0 <= i < j - 1 && keys[i] == q);
                }
            }
        }
        assert forall|i: int| 0 <= i < j implies key_map(keys, vals, j)[#[trigger] keys[i]]
            == vals[i] by {
            if i < j - 1 {
                assert(keys[i] != keys[j - 1]);
            }
        }
    }
}

/// Writing the first `j` of distinct keys into an empty table: every entry stays
/// reachable, the map holds exactly those keys with their values, and `j` slots are full.
proof fn lemma_put_all_fresh<T>(keys: Seq<u32>, vals: Seq<T>, j: int)
    requires
        keys.len() == vals.len(),
        keys.len() <= N,
        keys.no_duplicates(),
        0 <= j <= keys.len(),
    ensures
        ({
            let f = put_all(empty_slots::<T>(), keys, vals, j);
            &&& f.len() == N
            &&& entries_reachable(f)
            &&& stored(f) =~= key_map(keys, vals, j)
            &&& count_empty(f) == N - j
        }),
    decreases j,
{
    if j == 0 {
        let e = empty_slots::<T>();
        lemma_count_empty_all::<T>(N as nat);
        assert(stored(e) =~= Map::<u32, T>::empty()) by {
            assert forall|q: u32| !#[trigger] holds_key(e, q) by {
                if holds_key(e, q) {
                    let idx = choose|idx: int| 0 <= idx < e.len() && #[trigger] entry_has_key(e[idx], q);
                }
            }
        }
        assert(entries_reachable(e));
    } else {
        lemma_put_all_fresh(keys, vals, j - 1);
        lemma_put_all_step(keys, vals, j - 1);
    }
}

/// The `j`-th write (counting from 0) into the table that the first `j` writes left
/// probes to an empty slot, so `put` returns `None`, and it fills that slot.
proof fn lemma_put_all_step<T>(keys: Seq<u32>, vals: Seq<T>, j: int)
    requires
        keys.len() == vals.len(),
        keys.len() <= N,
        keys.no_duplicates(),
        0 <= j < keys.len(),
        ({
            let f = put_all(empty_slots::<T>(), keys, vals, j);
            &&& f.len() == N
            &&& entries_reachable(f)
            &&& stored(f) =~= key_map(keys, vals, j)
            &&& count_empty(f) == N - j
        }),
    ensures
        ({
            let f = put_all(empty_slots::<T>(), keys, vals, j);
            let g = put_all(empty_slots::<T>(), keys, vals, j + 1);
            &&& probe_halts(f, keys[j])
            &&& f[probe_slot(f, keys[j])] is None
            &&& g.len() == N
            &&& entries_reachable(g)
            &&& stored(g) =~= key_map(keys, vals, j + 1)
            &&& count_empty(g) == N - (j + 1)
        }),
{
    let f = put_all(empty_slots::<T>(), keys, vals, j);
    let k = keys[j];
    lemma_count_empty_vacancy(f);
    let idx = choose|idx: int| 0 <= idx < f.len() && #[trigger] f[idx] is None;
    assert(halts(f[idx], k));
    lemma_key_map(keys, vals, j);
    assert(!key_map(keys, vals, j).dom().contains(k)) by {
        if key_map(keys, vals, j).dom().contains(k) {
            let i = choose|i: int| 0 <= i < j && keys[i] == k;
            assert(keys[i] == keys[j]);
        }
    }
    lemma_lookup_stored(f, k);
    lemma_probe_halts(f, k);
    lemma_put_stored(f, k, vals[j]);
    lemma_count_empty_fill(f, probe_slot(f, k), Some((k, vals[j])));
}

/// Writing distinct keys into a new table (`m` of them, at most `N`), one after another:
/// every write finds an empty slot and so returns `None`; afterwards every entry is
/// reachable, the table maps exactly those keys to their values, `m` slots are full, and a
/// lookup of each key finds its value.
pub proof fn lemma_fresh_puts<T>(keys: Seq<u32>, vals: Seq<T>)
    requires
        keys.len() == vals.len(),
        keys.len() <= N,
        keys.no_duplicates(),
    ensures
        forall|j: int|
            0 <= j < keys.len() ==> {
                let f = #[trigger] put_all(empty_slots::<T>(), keys, vals, j);
                &&& probe_halts(f, keys[j])
                &&& f[probe_slot(f, keys[j])] is None
            },
        ({
            let f = put_all(empty_slots::<T>(), keys, vals, keys.len() as int);
            &&& entries_reachable(f)
            &&& stored(f) == key_map(keys, vals, keys.len() as int)
            &&& count_empty(f) == N - keys.len()
            &&& forall|j: int|
                0 <= j < keys.len() ==> probe_halts(f, #[trigger] keys[j]) && f[probe_slot(
                    f,
                    keys[j],
                )] == Some((keys[j], vals[j]))
        }),
{
    assert forall|j: int| 0 <= j < keys.len() implies {
        let f = #[trigger] put_all(empty_slots::<T>(), keys, vals, j);
        &&& probe_halts(f, keys[j])
        &&& f[probe_slot(f, keys[j])] is None
    } by {
        lemma_put_all_fresh(keys, vals, j);
        lemma_put_all_step(keys, vals, j);
    }
    let m = keys.len() as int;
    lemma_put_all_fresh(keys, vals, m);
    lemma_key_map(keys, vals, m);
    let f = put_all(empty_slots::<T>(), keys, vals, m);
    assert forall|j: int| 0 <= j < keys.len() implies probe_halts(f, #[trigger] keys[j]) && f[probe_slot(
        f,
        keys[j],
    )] == Some((keys[j], vals[j])) by {
        let k = keys[j];
        assert(0 <= j < m && keys[j] == k);
        assert(stored(f).dom().contains(k));
        assert(holds_key(f, k));
        let idx = choose|idx: int| 0 <= idx < f.len() && #[trigger] entry_has_key(f[idx], k);
        assert(halts(f[idx], k));
        lemma_lookup_stored(f, k);
    }
}

} // verus!
