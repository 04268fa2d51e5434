//! The table's slots as a sequence, and linear probing over them: from a key's home
//! slot `key % N`, slot after slot, round the end of the table.
use vstd::prelude::*;

verus! {

/// Number of slots in the table.
pub const N: usize = 15000;

/// The slots as a sequence: `None` for an empty slot, `Some((key, value))` for a full one.
pub type Slots<T> = Seq<Option<(u32, T)>>;

/// The key of a full slot.
pub open spec fn entry_key<T>(e: Option<(u32, T)>) -> u32 {
    e.unwrap().0
}

/// The value of a full slot.
pub open spec fn entry_value<T>(e: Option<(u32, T)>) -> T {
    e.unwrap().1
}

/// A probe stops at a slot that is empty or holds the key looked for.
pub open spec fn halts<T>(e: Option<(u32, T)>, key: u32) -> bool {
    match e {
        None => true,
        Some(kv) => kv.0 == key,
    }
}

/// The home slot of a key.
pub open spec fn home(key: u32) -> int {
    key as int % N as int
}

/// The slot `j` steps after `start`, going round the end of the table.
pub open spec fn step(start: int, j: int) -> int {
    (start + j) % (N as int)
}

/// The number of steps a probe from `start` takes before it halts, counting from `j`;
/// `N` when it does not halt within the table.
pub open spec fn probe_from<T>(s: Slots<T>, start: int, key: u32, j: int) -> int
    decreases N as int - j,
{
    if j < 0 || j >= N as int {
        N as int
    } else if halts(s[step(start, j)], key) {
        j
    } else {
        probe_from(s, start, key, j + 1)
    }
}

/// The number of steps from the home slot of `key` to the slot where its probe halts.
pub open spec fn probe_len<T>(s: Slots<T>, key: u32) -> int {
    probe_from(s, home(key), key, 0)
}

/// The slot where a probe for `key` halts: the first slot from its home on that is
/// empty or holds `key`.
pub open spec fn probe_slot<T>(s: Slots<T>, key: u32) -> int {
    step(home(key), probe_len(s, key))
}

/// Some slot is empty or holds `key`, so that a probe for `key` halts.
pub open spec fn probe_halts<T>(s: Slots<T>, key: u32) -> bool {
    exists|idx: int| 0 <= idx < N && #[trigger] halts(s[idx], key)
}

/// 1 when hashing `key` counts a collision, else 0: its home slot is full and the key
/// stored there differs from the home slot's index.
pub open spec fn collision_bump<T>(s: Slots<T>, key: u32) -> int {
    match s[home(key)] {
        Some(kv) => if kv.0 as int != home(key) { 1 } else { 0 },
        None => 0,
    }
}

/// Hashing counts a collision exactly when the key's home slot is full and holds a key
/// other than the slot's own index: none for an empty home slot, one whenever the entry
/// there is of another key than that index (whether or not it is the key hashed).
pub proof fn lemma_collision_counted<T>(s: Slots<T>, key: u32)
    ensures
        s[home(key)] is None ==> collision_bump(s, key) == 0,
        s[home(key)] is Some && entry_key(s[home(key)]) as int != home(key) ==> collision_bump(
            s,
            key,
        ) == 1,
        s[home(key)] is Some && entry_key(s[home(key)]) as int == home(key) ==> collision_bump(
            s,
            key,
        ) == 0,
        s[home(key)] is Some && entry_key(s[home(key)]) != key && entry_key(s[home(key)]) as int
            != home(key) ==> collision_bump(s, key) == 1,
{
}

/// A probe halts no later than any step at which its slot is empty or holds the key,
/// and none of the steps before it halts there.
pub proof fn lemma_probe_from_le<T>(s: Slots<T>, start: int, key: u32, j: int, t: int)
    requires
        0 <= j <= t < N,
        halts(s[step(start, t)], key),
    ensures
        j <= probe_from(s, start, key, j) <= t,
        halts(s[step(start, probe_from(s, start, key, j))], key),
        forall|u: int| j <= u < probe_from(s, start, key, j) ==> !#[trigger] halts(s[step(start, u)], key),
    decreases t - j,
{
    if !halts(s[step(start, j)], key) {
        lemma_probe_from_le(s, start, key, j + 1, t);
    }
}

/// When some slot is empty or holds `key`, the probe for `key` halts within the table,
/// at a slot that is empty or holds `key`, after passing only full slots of other keys.
pub proof fn lemma_probe_halts<T>(s: Slots<T>, key: u32)
    requires
        probe_halts(s, key),
    ensures
        0 <= probe_len(s, key) < N,
        0 <= probe_slot(s, key) < N,
        halts(s[probe_slot(s, key)], key),
        forall|u: int| 0 <= u < probe_len(s, key) ==> !#[trigger] halts(s[step(home(key), u)], key),
{
    let idx = choose|idx: int| 0 <= idx < N && #[trigger] halts(s[idx], key);
    let h = home(key);
    let t = if idx >= h { idx - h } else { idx + N - h };
    assert(step(h, t) == idx);
    lemma_probe_from_le(s, h, key, 0, t);
}

pub proof fn lemma_step_bound(start: int, j: int)
    requires
        0 <= start,
        0 <= j,
    ensures
        0 <= step(start, j) < N,
{
}

pub proof fn lemma_step_next(start: int, j: int)
    requires
        0 <= start,
        0 <= j,
    ensures
        step(start, j + 1) == (step(start, j) + 1) % (N as int),
{
    vstd::arithmetic::div_mod::lemma_add_mod_noop(start + j, 1, N as int);
    vstd::arithmetic::div_mod::lemma_small_mod(1, N as nat);
}

pub proof fn lemma_step_add(i: int, u: int, w: int)
    requires
        0 <= i,
        0 <= u,
        0 <= w,
    ensures
        step(step(i, u), w) == step(i, u + w),
{
    vstd::arithmetic::div_mod::lemma_add_mod_noop(i + u, w, N as int);
    vstd::arithmetic::div_mod::lemma_mod_twice(w, N as int);
    vstd::arithmetic::div_mod::lemma_mod_twice(i + u, N as int);
    vstd::arithmetic::div_mod::lemma_add_mod_noop(step(i, u), w, N as int);
}

pub proof fn lemma_step_distinct(i: int, u: int, w: int)
    requires
        0 <= i < N,
        0 <= u < N,
        0 <= w < N,
        u != w,
    ensures
        step(i, u) != step(i, w),
{
}

} // verus!
