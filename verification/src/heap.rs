//! The table: `N` slots, each empty or holding a key and a value, searched by linear
//! probing from the key's home slot, with a count of collisions met when hashing.
use vstd::prelude::*;
use crate::gap::{as_signed, movable, relocate, shift_completes, shift_outcome, shift_steps};
use crate::gap::{
    back_scan, forward_pick, gap_closed, lemma_forward_pick_range, lemma_gap_closed_keys,
    lemma_shift_steps_same_keys, moved_clone, shift_rel, slot_keys,
};
use crate::probe::{
    N, Slots, collision_bump, entry_key, entry_value, halts, home, lemma_probe_halts, lemma_step_bound, lemma_step_next,
    probe_halts, probe_len, probe_slot, step,
};
use crate::ucid::{is_ucid, ucid_key, ucid_to_int};

verus! {

/// Open-addressing hash table from ucids to values, with linear probing over `N` slots.
pub struct MyHashingHeap<T: Clone> {
    primary_storage: Vec<Option<(u32, T)>>,
    collision_count: u32,
}

impl<T: Clone> View for MyHashingHeap<T> {
    type V = Slots<T>;

    closed spec fn view(&self) -> Slots<T> {
        self.primary_storage@
    }
}

impl<T: Clone> MyHashingHeap<T> {
    /// Number of collisions counted so far.
    pub closed spec fn collisions(&self) -> nat {
        self.collision_count as nat
    }

    /// The table has exactly `N` slots.
    pub open spec fn wf(&self) -> bool {
        self@.len() == N
    }

    /// An empty table of `N` slots with no collisions counted.
    pub fn instantiate() -> (r: Self)
        ensures
            r.wf(),
            r@ == Seq::new(N as nat, |i: int| None::<(u32, T)>),
            r.collisions() == 0,
    {
        let mut primary_storage: Vec<Option<(u32, T)>> = Vec::new();
        let mut i: usize = 0;
        while i < N
            invariant
                i <= N,
                primary_storage@ == Seq::new(i as nat, |j: int| None::<(u32, T)>),
            decreases N - i,
        {
            primary_storage.push(None);
            i = i + 1;
        }
        MyHashingHeap { primary_storage, collision_count: 0 }
    }

    /// Number of collisions counted so far.
    pub fn collision_count(&self) -> (r: u32)
        ensures
            r == self.collisions(),
    {
        self.collision_count
    }

    /// The home slot of `key`, counting a collision when that slot is full and the key
    /// stored there differs from the slot's index.
    fn hash(&mut self, key: u32) -> (r: u32)
        requires
            old(self).wf(),
            old(self).collisions() + collision_bump(old(self)@, key) <= u32::MAX,
        ensures
            final(self).wf(),
            final(self)@ == old(self)@,
            final(self).collisions() == old(self).collisions() + collision_bump(old(self)@, key),
            r == home(key),
    {
        let hash_key = key % (N as u32);
        if let Some(kv) = &self.primary_storage[hash_key as usize] {
            if kv.0 != hash_key {
                self.collision_count += 1;
            }
        }
        hash_key
    }

    /// The slot where a probe for `key` from its home slot `k` halts: the first slot
    /// from `k` on, going round the end of the table, that is empty or holds `key`.
    fn find_slot(&self, key: u32, k: u32) -> (i: u32)
        requires
            self.wf(),
            probe_halts(self@, key),
            k == home(key),
        ensures
            i == probe_slot(self@, key),
            i < N,
            halts(self@[i as int], key),
    {
        proof {
            lemma_probe_halts(self@, key);
        }
        let mut i = k;
        let ghost mut j: int = 0;
        loop
            invariant
                self.wf(),
                k == home(key),
                0 <= probe_len(self@, key) < N,
                forall|u: int|
                    0 <= u < probe_len(self@, key) ==> !#[trigger] halts(
                        self@[step(home(key), u)],
                        key,
                    ),
                halts(self@[probe_slot(self@, key)], key),
                0 <= j <= probe_len(self@, key),
                i == step(k as int, j),
            decreases probe_len(self@, key) - j,
        {
            proof {
                lemma_step_bound(k as int, j);
            }
            let stop = match &self.primary_storage[i as usize] {
                None => true,
                Some(kv) => kv.0 == key,
            };
            if stop {
                assert(halts(self@[step(home(key), j)], key));
                return i;
            }
            proof {
                lemma_step_next(k as int, j);
            }
            i = (i + 1) % (N as u32);
            proof {
                j = j + 1;
            }
        }
    }

    /// Looks `key` up: hashes it (counting a collision as `hash` does), then probes from
    /// its home slot. Returns a clone of the value where the probe meets `key`, or `None`
    /// where it meets an empty slot first.
    pub fn get(&mut self, key: &str) -> (r: Option<T>)
        requires
            old(self).wf(),
            is_ucid(key@),
            probe_halts(old(self)@, ucid_key(key@)),
            old(self).collisions() + collision_bump(old(self)@, ucid_key(key@)) <= u32::MAX,
        ensures
            final(self).wf(),
            final(self)@ == old(self)@,
            final(self).collisions() == old(self).collisions() + collision_bump(
                old(self)@,
                ucid_key(key@),
            ),
            old(self).collisions() <= final(self).collisions() <= old(self).collisions() + 1,
            match old(self)@[probe_slot(old(self)@, ucid_key(key@))] {
                Some(kv) => r matches Some(v) && cloned(kv.1, v),
                None => r is None,
            },
    {
        let key_as_num = ucid_to_int(key);
        let k = self.hash(key_as_num);
        let i = self.find_slot(key_as_num, k);
        match &self.primary_storage[i as usize] {
            None => None,
            Some(kv) => {
                let v = kv.1.clone();
                Some(v)
            },
        }
    }

    /// Stores `val` under `key`: hashes it (counting a collision as `hash` does), probes
    /// from its home slot, and writes `(key, val)` into the slot where the probe halts.
    /// Returns a clone of the value that slot held for `key`, or `None` when it was empty.
    pub fn put(&mut self, key: &str, val: T) -> (r: Option<T>)
        requires
            old(self).wf(),
            is_ucid(key@),
            probe_halts(old(self)@, ucid_key(key@)),
            old(self).collisions() + collision_bump(old(self)@, ucid_key(key@)) <= u32::MAX,
        ensures
            final(self).wf(),
            final(self).collisions() == old(self).collisions() + collision_bump(
                old(self)@,
                ucid_key(key@),
            ),
            old(self).collisions() <= final(self).collisions() <= old(self).collisions() + 1,
            final(self)@ == old(self)@.update(
                probe_slot(old(self)@, ucid_key(key@)),
                Some((ucid_key(key@), val)),
            ),
            match old(self)@[probe_slot(old(self)@, ucid_key(key@))] {
                Some(kv) => r matches Some(v) && cloned(kv.1, v),
                None => r is None,
            },
    {
        let key_as_num = ucid_to_int(key);
        let k = self.hash(key_as_num);
        let i = self.find_slot(key_as_num, k);
        let previous = match &self.primary_storage[i as usize] {
            None => None,
            Some(kv) => Some(kv.1.clone()),
        };
        self.primary_storage[i as usize] = Some((key_as_num, val));
        previous
    }

    /// Deletes `key`: hashes it (counting a collision as `hash` does) and probes from its
    /// home slot. Where the probe meets `key`, empties that slot, closes the gap (see
    /// `gap_closed`) and returns a clone of the value; where it meets an empty slot,
    /// changes no slot and returns `None`.
    pub fn remove(&mut self, key: &str) -> (r: Option<T>)
        requires
            old(self).wf(),
            is_ucid(key@),
            probe_halts(old(self)@, ucid_key(key@)),
            old(self).collisions() + collision_bump(old(self)@, ucid_key(key@)) <= u32::MAX,
            old(self)@[probe_slot(old(self)@, ucid_key(key@))] is Some ==> shift_completes(
                old(self)@.update(probe_slot(old(self)@, ucid_key(key@)), None),
                probe_slot(old(self)@, ucid_key(key@)),
                probe_slot(old(self)@, ucid_key(key@)),
            ),
        ensures
            final(self).wf(),
            final(self).collisions() == old(self).collisions() + collision_bump(
                old(self)@,
                ucid_key(key@),
            ),
            old(self).collisions() <= final(self).collisions() <= old(self).collisions() + 1,
            match old(self)@[probe_slot(old(self)@, ucid_key(key@))] {
                Some(kv) => {
                    &&& r matches Some(v) && cloned(kv.1, v)
                    &&& gap_closed(
                        old(self)@.update(probe_slot(old(self)@, ucid_key(key@)), None),
                        probe_slot(old(self)@, ucid_key(key@)),
                        probe_slot(old(self)@, ucid_key(key@)),
                        final(self)@,
                    )
                    &&& slot_keys(final(self)@) == slot_keys(
                        shift_outcome(
                            old(self)@.update(probe_slot(old(self)@, ucid_key(key@)), None),
                            probe_slot(old(self)@, ucid_key(key@)),
                            probe_slot(old(self)@, ucid_key(key@)),
                        ),
                    )
                },
                None => r is None && final(self)@ == old(self)@,
            },
    {
        let key_as_num = ucid_to_int(key);
        let k = self.hash(key_as_num);
        let i = self.find_slot(key_as_num, k);
        let removed = match &self.primary_storage[i as usize] {
            None => None,
            Some(kv) => Some(kv.1.clone()),
        };
        match removed {
            None => None,
            Some(v) => {
                self.primary_storage[i as usize] = None;
                let ghost gap = self@;
                let ghost fuel = choose|f: nat| #[trigger]
                    shift_steps(gap, i as int, i as int, f) is Some;
                self.shift_begin(i, Ghost(fuel));
                proof {
                    lemma_gap_closed_keys(gap, i as int, i as int, self@);
                }
                Some(v)
            },
        }
    }

    /// Closes the gap at the empty slot `i`: steps the bound `min_valid` back over the
    /// full slots before it, picks the last movable entry in the run of full slots after
    /// `i`, moves it into the gap and closes the gap it leaves in turn.
    fn shift(&mut self, i: u32, min_valid: i32, Ghost(fuel): Ghost<nat>)
        requires
            old(self).wf(),
            i < N,
            old(self)@[i as int] is None,
            -(N as int) < min_valid <= N,
            shift_steps(old(self)@, i as int, min_valid as int, fuel) is Some,
        ensures
            final(self).wf(),
            final(self).collisions() == old(self).collisions(),
            shift_rel(old(self)@, i as int, min_valid as int, fuel, final(self)@),
        decreases fuel,
    {
        let ghost s0 = self@;
        let ghost mv0 = min_valid as int;
        let mut min_valid = min_valid;
        while self.primary_storage[((min_valid - 1 + N as i32) as usize) % N].is_some()
            invariant
                self.wf(),
                self@ == s0,
                back_scan(s0, min_valid as int) == back_scan(s0, mv0),
                back_scan(s0, mv0) is Some,
                -(N as int) < min_valid <= N,
            decreases min_valid + N as int,
        {
            min_valid -= 1;
        }
        let ghost mv2 = min_valid as int;
        assert(back_scan(s0, mv0) == Some(mv2));
        let mut last_available = i;
        let mut t: u32 = 1;
        loop
            invariant
                self.wf(),
                self@ == s0,
                s0[i as int] is None,
                i < N,
                1 <= t <= N,
                last_available < N,
                -(N as int) < min_valid <= N,
                min_valid == mv2,
                forward_pick(s0, i as int, mv2, t as int, last_available as int) == forward_pick(
                    s0,
                    i as int,
                    mv2,
                    1,
                    i as int,
                ),
            ensures
                self.wf(),
                self@ == s0,
                last_available < N,
                last_available as int == forward_pick(s0, i as int, mv2, 1, i as int),
            decreases N - t,
        {
            let idx: u32 = (i + t) % (N as u32);
            assert(idx == step(i as int, t as int));
            match &self.primary_storage[idx as usize] {
                None => {
                    break;
                },
                Some(kv) => {
                    if is_movable(kv.0, i, min_valid) {
                        last_available = idx;
                    }
                },
            }
            t = t + 1;
        }
        if last_available != i {
            let moved = match &self.primary_storage[last_available as usize] {
                Some(kv) => Some((kv.0, kv.1.clone())),
                None => None,
            };
            self.primary_storage[i as usize] = moved;
            self.primary_storage[last_available as usize] = None;
            let ghost s1 = self@;
            proof {
                let la = last_available as int;
                lemma_forward_pick_range(s0, i as int, mv2, 1, i as int);
                assert(s0[la] is Some);
                let v = entry_value(moved);
                assert(s1 =~= s0.update(i as int, Some((entry_key(s0[la]), v))).update(la, None));
                assert(moved_clone(s0, la, i as int, s1));
                let m = relocate(s0, la, i as int);
                assert(slot_keys(s1) =~= slot_keys(m));
                lemma_shift_steps_same_keys(m, s1, la, mv2, (fuel - 1) as nat);
            }
            self.shift(last_available, min_valid, Ghost((fuel - 1) as nat));
        }
    }

    /// Closes the gap at the empty slot `i`, starting the bound at `i`.
    fn shift_begin(&mut self, i: u32, Ghost(fuel): Ghost<nat>)
        requires
            old(self).wf(),
            i < N,
            old(self)@[i as int] is None,
            shift_steps(old(self)@, i as int, i as int, fuel) is Some,
        ensures
            final(self).wf(),
            final(self).collisions() == old(self).collisions(),
            shift_rel(old(self)@, i as int, i as int, fuel, final(self)@),
    {
        self.shift(i, i as i32, Ghost(fuel));
    }
}

/// `key as i32` on a `u32`.
fn signed_key(key: u32) -> (r: i32)
    ensures
        r == as_signed(key),
{
    let r = key as i32;
    assert(key <= 0x7fff_ffffu32 ==> r == key) by (bit_vector)
        requires
            r == key as i32,
    ;
    assert(key > 0x7fff_ffffu32 ==> r == key - 0x1_0000_0000int) by (bit_vector)
        requires
            r == key as i32,
    ;
    r
}

/// Whether the entry with key `key` after the gap at `i` may move into it (see `movable`).
fn is_movable(key: u32, i: u32, min_valid: i32) -> (r: bool)
    requires
        -(N as int) <= min_valid <= N,
    ensures
        r == movable(key, i as int, min_valid as int),
{
    if key < i {
        min_valid < 0 || signed_key(key) >= min_valid
    } else {
        min_valid < 0 && signed_key(key) >= N as i32 + min_valid
    }
}

} // verus!
