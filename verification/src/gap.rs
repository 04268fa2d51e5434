//! Closing the gap that a deletion leaves: a backward scan sets a bound, a forward scan
//! picks an entry after the gap to move into it, and the gap that entry leaves is closed
//! in turn.
use vstd::prelude::*;
use crate::probe::{
    N, Slots, entry_key, entry_value, lemma_step_add, lemma_step_bound, lemma_step_distinct, step,
};

verus! {

/// `key as i32` in Rust: the bits of a `u32` read as a two's-complement `i32`.
pub open spec fn as_signed(key: u32) -> int {
    if key <= i32::MAX {
        key as int
    } else {
        key as int - 0x1_0000_0000
    }
}

/// The first phase of closing the gap left by a deletion: starting from the bound `mv`,
/// step it back while the slot before it, `(mv - 1 + N) % N`, is full. `None` when the
/// bound passes `1 - N`, where that index would be negative.
pub open spec fn back_scan<T>(s: Slots<T>, mv: int) -> Option<int>
    decreases mv + N as int,
{
    if mv < 1 - N as int {
        None
    } else if s[(mv - 1 + N as int) % (N as int)] is Some {
        back_scan(s, mv - 1)
    } else {
        Some(mv)
    }
}

/// Whether the entry with key `key`, found after the gap at `i`, may move into the gap,
/// given the bound `mv` from the backward scan.
pub open spec fn movable(key: u32, i: int, mv: int) -> bool {
    if (key as int) < i {
        mv < 0 || as_signed(key) >= mv
    } else {
        mv < 0 && as_signed(key) >= N as int + mv
    }
}

/// The second phase: over the full slots after the gap at `i` (from step `t` on, up to
/// the next empty slot), the last one whose entry is movable; `la` when there is none.
pub open spec fn forward_pick<T>(s: Slots<T>, i: int, mv: int, t: int, la: int) -> int
    decreases N as int - t,
{
    if t < 1 || t >= N as int {
        la
    } else {
        match s[step(i, t)] {
            None => la,
            Some(kv) => forward_pick(
                s,
                i,
                mv,
                t + 1,
                if movable(kv.0, i, mv) {
                    step(i, t)
                } else {
                    la
                },
            ),
        }
    }
}

/// Moves the entry at `from` into the empty slot `to`, leaving `from` empty.
pub open spec fn relocate<T>(s: Slots<T>, from: int, to: int) -> Slots<T> {
    s.update(to, s[from]).update(from, None)
}

/// Closing the gap at `i` with bound `mv`, in at most `fuel` rounds: after both scans,
/// either nothing moves, or the picked entry moves into the gap and the gap it leaves is
/// closed in turn. `None` when the backward scan fails or the rounds run out.
pub open spec fn shift_steps<T>(s: Slots<T>, i: int, mv: int, fuel: nat) -> Option<Slots<T>>
    decreases fuel,
{
    if fuel == 0 {
        None
    } else {
        match back_scan(s, mv) {
            None => None,
            Some(mv2) => {
                let la = forward_pick(s, i, mv2, 1, i);
                if la == i {
                    Some(s)
                } else {
                    shift_steps(relocate(s, la, i), la, mv2, (fuel - 1) as nat)
                }
            },
        }
    }
}

/// Closing the gap at `i` with bound `mv` finishes, in some number of rounds.
pub open spec fn shift_completes<T>(s: Slots<T>, i: int, mv: int) -> bool {
    exists|fuel: nat| #[trigger] shift_steps(s, i, mv, fuel) is Some
}

/// The slots once the gap at `i`, with bound `mv`, has been closed.
pub open spec fn shift_outcome<T>(s: Slots<T>, i: int, mv: int) -> Slots<T> {
    shift_steps(s, i, mv, choose|fuel: nat| #[trigger] shift_steps(s, i, mv, fuel) is Some)->0
}

/// More rounds change nothing once closing the gap has finished.
pub proof fn lemma_shift_steps_fuel<T>(s: Slots<T>, i: int, mv: int, f1: nat, f2: nat)
    requires
        shift_steps(s, i, mv, f1) is Some,
        f1 <= f2,
    ensures
        shift_steps(s, i, mv, f2) == shift_steps(s, i, mv, f1),
    decreases f1,
{
    let mv2 = back_scan(s, mv)->0;
    let la = forward_pick(s, i, mv2, 1, i);
    if la != i {
        lemma_shift_steps_fuel(relocate(s, la, i), la, mv2, (f1 - 1) as nat, (f2 - 1) as nat);
    }
}

/// Some slot is empty.
pub open spec fn has_vacancy<T>(s: Slots<T>) -> bool {
    exists|idx: int| 0 <= idx < N && #[trigger] s[idx] is None
}

/// Steps from `i` to the first empty slot after it, counting from step `t`; `N` when
/// there is none before `i` itself.
pub open spec fn next_empty<T>(s: Slots<T>, i: int, t: int) -> int
    decreases N as int - t,
{
    if t < 1 || t >= N as int {
        N as int
    } else if s[step(i, t)] is None {
        t
    } else {
        next_empty(s, i, t + 1)
    }
}

proof fn lemma_next_empty<T>(s: Slots<T>, i: int, t: int)
    requires
        1 <= t <= N,
    ensures
        t <= next_empty(s, i, t) <= N,
        next_empty(s, i, t) < N ==> s[step(i, next_empty(s, i, t))] is None,
        forall|w: int| t <= w < next_empty(s, i, t) ==> #[trigger] s[step(i, w)] is Some,
    decreases N as int - t,
{
    if t < N && s[step(i, t)] is Some {
        lemma_next_empty(s, i, t + 1);
    }
}

proof fn lemma_next_empty_is<T>(s: Slots<T>, i: int, t: int, e: int)
    requires
        1 <= t <= e <= N,
        e < N ==> s[step(i, e)] is None,
        forall|w: int| t <= w < e ==> #[trigger] s[step(i, w)] is Some,
    ensures
        next_empty(s, i, t) == e,
    decreases e - t,
{
    if t < e {
        assert(s[step(i, t)] is Some);
        lemma_next_empty_is(s, i, t + 1, e);
    }
}

/// The forward scan picks the gap itself or a full slot strictly between the gap and the
/// next empty slot after it.
pub proof fn lemma_forward_pick_range<T>(s: Slots<T>, i: int, mv: int, t: int, la: int)
    requires
        1 <= t <= N,
        0 <= i < N,
        la == i || exists|u: int| 1 <= u < t && la == step(i, u) && s[step(i, u)] is Some,
        forall|w: int| 1 <= w < t ==> #[trigger] s[step(i, w)] is Some,
    ensures
        ({
            let r = forward_pick(s, i, mv, t, la);
            r == i || exists|u: int|
                1 <= u < next_empty(s, i, 1) && r == step(i, u) && s[step(i, u)] is Some
        }),
    decreases N as int - t,
{
    lemma_next_empty(s, i, 1);
    if t < N && s[step(i, t)] is Some {
        let kv = s[step(i, t)]->0;
        let la2 = if movable(kv.0, i, mv) { step(i, t) } else { la };
        lemma_forward_pick_range(s, i, mv, t + 1, la2);
    } else {
        if t < N {
            lemma_next_empty_is(s, i, 1, t);
        } else {
            lemma_next_empty_is(s, i, 1, N as int);
        }
    }
}

/// Moving the picked entry into the gap shortens the run of full slots after the gap.
proof fn lemma_relocate_next_empty<T>(s: Slots<T>, i: int, u: int)
    requires
        s.len() == N,
        0 <= i < N,
        s[i] is None,
        1 <= u < next_empty(s, i, 1),
        next_empty(s, i, 1) < N,
    ensures
        next_empty(relocate(s, step(i, u), i), step(i, u), 1) == next_empty(s, i, 1) - u,
{
    let g = next_empty(s, i, 1);
    let la = step(i, u);
    let s2 = relocate(s, la, i);
    lemma_next_empty(s, i, 1);
    lemma_step_bound(i, u);
    assert forall|w: int| 1 <= w < g - u implies #[trigger] s2[step(la, w)] is Some by {
        lemma_step_add(i, u, w);
        lemma_step_distinct(i, u + w, 0);
        lemma_step_distinct(i, u + w, u);
        lemma_step_bound(i, u + w);
        assert(s[step(i, u + w)] is Some);
    }
    lemma_step_add(i, u, g - u);
    lemma_step_distinct(i, g, 0);
    lemma_step_distinct(i, g, u);
    lemma_step_bound(i, g);
    lemma_next_empty_is(s2, la, 1, g - u);
}

/// The backward scan stops at an empty slot no further back than `d` steps, when the
/// slot `d` steps back is empty.
proof fn lemma_back_scan_stops<T>(s: Slots<T>, mv: int, d: int)
    requires
        0 <= d,
        mv - d >= 1 - N as int,
        s[(mv - d - 1 + N as int) % (N as int)] is None,
    ensures
        back_scan(s, mv) is Some,
        mv - d <= back_scan(s, mv)->0 <= mv,
        s[(back_scan(s, mv)->0 - 1 + N as int) % (N as int)] is None,
    decreases d,
{
    if s[(mv - 1 + N as int) % (N as int)] is Some {
        lemma_back_scan_stops(s, mv - 1, d - 1);
    }
}

/// Closing a gap finishes when another empty slot lies just before the bound: the bound
/// no longer moves, and each round shortens the run of full slots after the gap.
proof fn lemma_shift_completes_steady<T>(s: Slots<T>, i: int, mv: int)
    requires
        s.len() == N,
        0 <= i < N,
        s[i] is None,
        1 - N as int <= mv <= N,
        s[(mv - 1 + N as int) % (N as int)] is None,
        (mv - 1 + N as int) % (N as int) != i,
    ensures
        shift_steps(s, i, mv, next_empty(s, i, 1) as nat) is Some,
    decreases next_empty(s, i, 1),
{
    let q = (mv - 1 + N as int) % (N as int);
    lemma_next_empty(s, i, 1);
    // the empty slot q lies after i, so the run after i ends before going round
    let off = if q > i { q - i } else { q + N - i };
    assert(step(i, off) == q);
    if next_empty(s, i, 1) > off {
        assert(s[step(i, off)] is Some);
    }
    assert(back_scan(s, mv) == Some(mv));
    let la = forward_pick(s, i, mv, 1, i);
    lemma_forward_pick_range(s, i, mv, 1, i);
    if la != i {
        let u = choose|u: int|
            1 <= u < next_empty(s, i, 1) && la == step(i, u) && s[step(i, u)] is Some;
        let s2 = relocate(s, la, i);
        lemma_step_bound(i, u);
        lemma_relocate_next_empty(s, i, u);
        assert(s2[q] is None);
        lemma_shift_completes_steady(s2, la, mv);
        lemma_shift_steps_fuel(
            s2,
            la,
            mv,
            next_empty(s2, la, 1) as nat,
            (next_empty(s, i, 1) - 1) as nat,
        );
    }
}

/// Emptying a full slot of a table that has an empty slot elsewhere leaves a gap that
/// closing finishes on.
pub proof fn lemma_vacancy_closes_gap<T>(s: Slots<T>, p: int)
    requires
        s.len() == N,
        0 <= p < N,
        s[p] is Some,
        has_vacancy(s),
    ensures
        shift_completes(s.update(p, None), p, p),
{
    let g = s.update(p, None);
    let h = choose|idx: int| 0 <= idx < N && #[trigger] s[idx] is None;
    let d = if h < p { p - 1 - h } else { p - 1 - h + N };
    assert((p - d - 1 + N as int) % (N as int) == h);
    lemma_back_scan_stops(g, p, d);
    let m1 = back_scan(g, p)->0;
    let q = (m1 - 1 + N as int) % (N as int);
    assert(q != p);
    lemma_shift_completes_steady(g, p, m1);
    let f = next_empty(g, p, 1) as nat;
    assert(back_scan(g, m1) == Some(m1));
    assert(shift_steps(g, p, p, f) == shift_steps(g, p, m1, f));
    assert(shift_steps(g, p, p, f) is Some);
}

pub proof fn lemma_update_to_multiset<A>(s: Seq<A>, i: int, x: A)
    requires
        0 <= i < s.len(),
    ensures
        s.update(i, x).to_multiset() =~= s.to_multiset().remove(s[i]).insert(x),
{
    broadcast use vstd::seq_lib::group_to_multiset_ensures;
    broadcast use vstd::multiset::group_multiset_axioms;

    let u = s.update(i, x);
    assert(u.remove(i) =~= s.remove(i));
    assert(u[i] == x);
    assert(u.contains(x));
}

/// Moving an entry into an empty slot keeps the same entries.
proof fn lemma_relocate_to_multiset<T>(s: Slots<T>, from: int, to: int)
    requires
        0 <= from < s.len(),
        0 <= to < s.len(),
        from != to,
        s[to] is None,
    ensures
        relocate(s, from, to).to_multiset() =~= s.to_multiset(),
        relocate(s, from, to).len() == s.len(),
{
    broadcast use vstd::seq_lib::group_to_multiset_ensures;
    broadcast use vstd::multiset::group_multiset_axioms;

    let x = s[from];
    let u1 = s.update(to, x);
    lemma_update_to_multiset(s, to, x);
    lemma_update_to_multiset(u1, from, None);
    assert(s.contains(s[to]));
}

/// Closing a gap only moves entries: the slots hold the same entries afterwards.
pub proof fn lemma_shift_keeps_entries<T>(s: Slots<T>, i: int, mv: int, fuel: nat)
    requires
        s.len() == N,
        0 <= i < N,
        s[i] is None,
        shift_steps(s, i, mv, fuel) is Some,
    ensures
        shift_steps(s, i, mv, fuel)->0.len() == N,
        shift_steps(s, i, mv, fuel)->0.to_multiset() =~= s.to_multiset(),
    decreases fuel,
{
    let mv2 = back_scan(s, mv)->0;
    let la = forward_pick(s, i, mv2, 1, i);
    lemma_forward_pick_range(s, i, mv2, 1, i);
    if la != i {
        let u = choose|u: int|
            1 <= u < next_empty(s, i, 1) && la == step(i, u) && s[step(i, u)] is Some;
        lemma_step_bound(i, u);
        lemma_relocate_to_multiset(s, la, i);
        lemma_shift_keeps_entries(relocate(s, la, i), la, mv2, (fuel - 1) as nat);
    }
}

/// The keys of the slots, with the values left out: where the slots are full and empty,
/// and which key each full one holds.
pub open spec fn slot_keys<T>(s: Slots<T>) -> Slots<()> {
    Seq::new(
        s.len(),
        |i: int|
            match s[i] {
                Some(kv) => Some((kv.0, ())),
                None => None::<(u32, ())>,
            },
    )
}

/// The backward scan reads only where the slots are full.
pub proof fn lemma_back_scan_keys<T>(s: Slots<T>, mv: int)
    requires
        s.len() == N,
    ensures
        back_scan(slot_keys(s), mv) == back_scan(s, mv),
    decreases mv + N as int,
{
    if mv >= 1 - N as int {
        let x = (mv - 1 + N as int) % (N as int);
        assert(slot_keys(s)[x] is Some == s[x] is Some);
        if s[x] is Some {
            lemma_back_scan_keys(s, mv - 1);
        }
    }
}

/// The forward scan reads only the keys.
pub proof fn lemma_forward_pick_keys<T>(s: Slots<T>, i: int, mv: int, t: int, la: int)
    requires
        s.len() == N,
        0 <= i,
    ensures
        forward_pick(slot_keys(s), i, mv, t, la) == forward_pick(s, i, mv, t, la),
    decreases N as int - t,
{
    if 1 <= t < N {
        lemma_step_bound(i, t);
        let x = step(i, t);
        if s[x] is Some {
            let kv = s[x]->0;
            assert(slot_keys(s)[x] == Some((kv.0, ())));
            let la2 = if movable(kv.0, i, mv) { x } else { la };
            lemma_forward_pick_keys(s, i, mv, t + 1, la2);
        }
    }
}

/// Moving an entry and then leaving out the values is leaving out the values and then
/// moving the key.
pub proof fn lemma_relocate_keys<T>(s: Slots<T>, from: int, to: int)
    requires
        0 <= from < s.len(),
        0 <= to < s.len(),
    ensures
        slot_keys(relocate(s, from, to)) =~= relocate(slot_keys(s), from, to),
{
}

/// Closing a gap in the keys alone finishes exactly when it does in the slots, and gives
/// the keys of what it gives in the slots.
pub proof fn lemma_shift_steps_keys<T>(s: Slots<T>, i: int, mv: int, fuel: nat)
    requires
        s.len() == N,
        0 <= i < N,
        s[i] is None,
    ensures
        shift_steps(slot_keys(s), i, mv, fuel) == match shift_steps(s, i, mv, fuel) {
            Some(r) => Some(slot_keys(r)),
            None => None,
        },
    decreases fuel,
{
    if fuel > 0 {
        lemma_back_scan_keys(s, mv);
        if back_scan(s, mv) is Some {
            let mv2 = back_scan(s, mv)->0;
            lemma_forward_pick_keys(s, i, mv2, 1, i);
            let la = forward_pick(s, i, mv2, 1, i);
            lemma_forward_pick_range(s, i, mv2, 1, i);
            if la != i {
                let u = choose|u: int|
                    1 <= u < next_empty(s, i, 1) && la == step(i, u) && s[step(i, u)] is Some;
                lemma_step_bound(i, u);
                lemma_relocate_keys(s, la, i);
                lemma_shift_steps_keys(relocate(s, la, i), la, mv2, (fuel - 1) as nat);
            }
        }
    }
}

/// Slots with the same keys close a gap alike.
pub proof fn lemma_shift_steps_same_keys<T>(a: Slots<T>, b: Slots<T>, i: int, mv: int, fuel: nat)
    requires
        a.len() == N,
        b.len() == N,
        0 <= i < N,
        a[i] is None,
        slot_keys(a) == slot_keys(b),
    ensures
        shift_steps(a, i, mv, fuel) is Some <==> shift_steps(b, i, mv, fuel) is Some,
        shift_steps(a, i, mv, fuel) is Some ==> slot_keys(shift_steps(a, i, mv, fuel)->0)
            == slot_keys(shift_steps(b, i, mv, fuel)->0),
{
    assert(b[i] is None) by {
        assert(slot_keys(a)[i] is None);
        assert(slot_keys(b)[i] is None);
    }
    lemma_shift_steps_keys(a, i, mv, fuel);
    lemma_shift_steps_keys(b, i, mv, fuel);
}

/// `r` is `s` with the entry at `from` moved into the empty slot `to` as the original's
/// code moves it: the key copied and the value cloned.
pub open spec fn moved_clone<T: Clone>(s: Slots<T>, from: int, to: int, r: Slots<T>) -> bool {
    exists|v: T|
        cloned(entry_value(s[from]), v) && r == #[trigger] s.update(
            to,
            Some((entry_key(s[from]), v)),
        ).update(from, None)
}

/// `r` is what closing the gap at `i` with bound `mv` can leave, in at most `fuel`
/// rounds: the rounds of `shift_steps`, each moving its entry by cloning its value.
pub open spec fn shift_rel<T: Clone>(s: Slots<T>, i: int, mv: int, fuel: nat, r: Slots<T>) -> bool
    decreases fuel,
{
    if fuel == 0 {
        false
    } else {
        match back_scan(s, mv) {
            None => false,
            Some(mv2) => {
                let la = forward_pick(s, i, mv2, 1, i);
                if la == i {
                    r == s
                } else {
                    exists|s2: Slots<T>|
                        #[trigger] moved_clone(s, la, i, s2) && shift_rel(
                            s2,
                            la,
                            mv2,
                            (fuel - 1) as nat,
                            r,
                        )
                }
            },
        }
    }
}

/// `r` is what closing the gap at `i` with bound `mv` can leave.
pub open spec fn gap_closed<T: Clone>(s: Slots<T>, i: int, mv: int, r: Slots<T>) -> bool {
    exists|fuel: nat| #[trigger] shift_rel(s, i, mv, fuel, r)
}

/// What closing a gap leaves has the keys of `shift_steps`'s result, at the same slots.
pub proof fn lemma_shift_rel_keys<T: Clone>(s: Slots<T>, i: int, mv: int, fuel: nat, r: Slots<T>)
    requires
        s.len() == N,
        0 <= i < N,
        s[i] is None,
        shift_rel(s, i, mv, fuel, r),
    ensures
        shift_steps(s, i, mv, fuel) is Some,
        r.len() == N,
        slot_keys(r) == slot_keys(shift_steps(s, i, mv, fuel)->0),
    decreases fuel,
{
    let mv2 = back_scan(s, mv)->0;
    let la = forward_pick(s, i, mv2, 1, i);
    if la != i {
        lemma_forward_pick_range(s, i, mv2, 1, i);
        let u = choose|u: int|
            1 <= u < next_empty(s, i, 1) && la == step(i, u) && s[step(i, u)] is Some;
        lemma_step_bound(i, u);
        let s2 = choose|s2: Slots<T>|
            #[trigger] moved_clone(s, la, i, s2) && shift_rel(s2, la, mv2, (fuel - 1) as nat, r);
        let m = relocate(s, la, i);
        assert(slot_keys(s2) =~= slot_keys(m));
        lemma_shift_rel_keys(s2, la, mv2, (fuel - 1) as nat, r);
        lemma_shift_steps_same_keys(s2, m, la, mv2, (fuel - 1) as nat);
    }
}

/// What closing a gap leaves has the keys of `shift_outcome`, at the same slots.
pub proof fn lemma_gap_closed_keys<T: Clone>(s: Slots<T>, i: int, mv: int, r: Slots<T>)
    requires
        s.len() == N,
        0 <= i < N,
        s[i] is None,
        gap_closed(s, i, mv, r),
    ensures
        shift_completes(s, i, mv),
        r.len() == N,
        slot_keys(r) == slot_keys(shift_outcome(s, i, mv)),
{
    let fuel = choose|fuel: nat| #[trigger] shift_rel(s, i, mv, fuel, r);
    lemma_shift_rel_keys(s, i, mv, fuel, r);
    let f2 = choose|f: nat| #[trigger] shift_steps(s, i, mv, f) is Some;
    if fuel <= f2 {
        lemma_shift_steps_fuel(s, i, mv, fuel, f2);
    } else {
        lemma_shift_steps_fuel(s, i, mv, f2, fuel);
    }
}

/// Where every clone equals its source, closing a gap leaves exactly `shift_outcome`.
pub proof fn lemma_gap_closed_exact_clones<T: Clone>(s: Slots<T>, i: int, mv: int, r: Slots<T>)
    requires
        s.len() == N,
        0 <= i < N,
        s[i] is None,
        gap_closed(s, i, mv, r),
        forall|a: T, b: T| #[trigger] cloned(a, b) ==> a == b,
    ensures
        r == shift_outcome(s, i, mv),
{
    let fuel = choose|fuel: nat| #[trigger] shift_rel(s, i, mv, fuel, r);
    lemma_shift_rel_exact(s, i, mv, fuel, r);
    lemma_gap_closed_keys(s, i, mv, r);
    let f2 = choose|f: nat| #[trigger] shift_steps(s, i, mv, f) is Some;
    if fuel <= f2 {
        lemma_shift_steps_fuel(s, i, mv, fuel, f2);
    } else {
        lemma_shift_steps_fuel(s, i, mv, f2, fuel);
    }
}

proof fn lemma_shift_rel_exact<T: Clone>(s: Slots<T>, i: int, mv: int, fuel: nat, r: Slots<T>)
    requires
        s.len() == N,
        0 <= i < N,
        s[i] is None,
        shift_rel(s, i, mv, fuel, r),
        forall|a: T, b: T| #[trigger] cloned(a, b) ==> a == b,
    ensures
        shift_steps(s, i, mv, fuel) == Some(r),
    decreases fuel,
{
    let mv2 = back_scan(s, mv)->0;
    let la = forward_pick(s, i, mv2, 1, i);
    if la != i {
        lemma_forward_pick_range(s, i, mv2, 1, i);
        let u = choose|u: int|
            1 <= u < next_empty(s, i, 1) && la == step(i, u) && s[step(i, u)] is Some;
        lemma_step_bound(i, u);
        let s2 = choose|s2: Slots<T>|
            #[trigger] moved_clone(s, la, i, s2) && shift_rel(s2, la, mv2, (fuel - 1) as nat, r);
        let v = choose|v: T|
            cloned(entry_value(s[la]), v) && s2 == #[trigger] s.update(
                i,
                Some((entry_key(s[la]), v)),
            ).update(la, None);
        assert(s2 =~= relocate(s, la, i));
        lemma_shift_rel_exact(s2, la, mv2, (fuel - 1) as nat, r);
    }
}

/// How an entry's key and the bound decide whether it may move into the gap at `i`:
/// a key below `i` may move when the bound is negative or at most the key; a key at or
/// above `i` only when the bound is negative and the key, read as an `i32`, reaches `N`
/// plus the bound (so never when that reading is negative).
pub proof fn lemma_movable_cases(key: u32, i: int, mv: int)
    requires
        0 <= i < N,
        -(N as int) < mv <= N,
    ensures
        (key as int) < i ==> (movable(key, i, mv) <==> (mv < 0 || mv <= key)),
        (key as int) >= i && mv >= 0 ==> !movable(key, i, mv),
        (key as int) >= i && mv < 0 && key <= i32::MAX ==> (movable(key, i, mv) <==> key >= N
            + mv),
        key > i32::MAX ==> !movable(key, i, mv),
{
}

/// The entry `u` steps after the gap at `i` is there and may move into the gap.
pub open spec fn movable_at<T>(s: Slots<T>, i: int, mv: int, u: int) -> bool {
    s[step(i, u)] is Some && movable(entry_key(s[step(i, u)]), i, mv)
}

/// `la` is the last slot among steps 1 to `t - 1` after the gap at `i` whose entry may
/// move into the gap, or the gap itself where none may.
pub open spec fn last_movable<T>(s: Slots<T>, i: int, mv: int, t: int, la: int) -> bool {
    ||| la == i && forall|w: int| 1 <= w < t ==> !#[trigger] movable_at(s, i, mv, w)
    ||| exists|u: int|
        1 <= u < t && la == step(i, u) && movable_at(s, i, mv, u) && forall|w: int|
            u < w < t ==> !#[trigger] movable_at(s, i, mv, w)
}

proof fn lemma_forward_pick_last_from<T>(s: Slots<T>, i: int, mv: int, t: int, la: int)
    requires
        0 <= i < N,
        1 <= t <= N,
        forall|w: int| 1 <= w < t ==> #[trigger] s[step(i, w)] is Some,
        last_movable(s, i, mv, t, la),
    ensures
        t <= next_empty(s, i, 1),
        last_movable(s, i, mv, next_empty(s, i, 1), forward_pick(s, i, mv, t, la)),
    decreases N as int - t,
{
    if t < N && s[step(i, t)] is Some {
        let kv = s[step(i, t)]->0;
        assert(movable_at(s, i, mv, t) == movable(kv.0, i, mv));
        let la2 = if movable(kv.0, i, mv) { step(i, t) } else { la };
        if movable(kv.0, i, mv) {
            assert(1 <= t < t + 1 && la2 == step(i, t) && movable_at(s, i, mv, t));
        } else {
            if la == i {
                assert(forall|w: int| 1 <= w < t + 1 ==> !#[trigger] movable_at(s, i, mv, w));
            } else {
                let u = choose|u: int|
                    1 <= u < t && la == step(i, u) && movable_at(s, i, mv, u) && forall|w: int|
                        u < w < t ==> !#[trigger] movable_at(s, i, mv, w);
                assert(forall|w: int| u < w < t + 1 ==> !#[trigger] movable_at(s, i, mv, w));
            }
        }
        lemma_forward_pick_last_from(s, i, mv, t + 1, la2);
    } else {
        if t < N {
            lemma_next_empty_is(s, i, 1, t);
        } else {
            lemma_next_empty_is(s, i, 1, N as int);
        }
    }
}

/// The forward scan covers the whole run of full slots after the gap, up to the next
/// empty slot: it picks the last entry of the run that may move into the gap, and the gap
/// itself only when none may.
pub proof fn lemma_forward_pick_last_movable<T>(s: Slots<T>, i: int, mv: int)
    requires
        0 <= i < N,
    ensures
        last_movable(s, i, mv, next_empty(s, i, 1), forward_pick(s, i, mv, 1, i)),
{
    lemma_forward_pick_last_from(s, i, mv, 1, i);
}

/// The backward scan ends on a bound no higher than where it started, no lower than
/// `1 - N`, just after an empty slot.
pub proof fn lemma_back_scan_result<T>(s: Slots<T>, mv: int)
    requires
        back_scan(s, mv) is Some,
    ensures
        1 - N as int <= back_scan(s, mv)->0 <= mv,
        s[(back_scan(s, mv)->0 - 1 + N as int) % (N as int)] is None,
        back_scan(s, back_scan(s, mv)->0) == back_scan(s, mv),
    decreases mv + N as int,
{
    if s[(mv - 1 + N as int) % (N as int)] is Some {
        lemma_back_scan_result(s, mv - 1);
    }
}

proof fn lemma_shift_rel_complete<T: Clone>(s: Slots<T>, i: int, mv: int, fuel: nat, r: Slots<T>)
    requires
        s.len() == N,
        0 <= i < N,
        s[i] is None,
        shift_rel(s, i, mv, fuel, r),
    ensures
        exists|j: int, m: int|
            #![trigger r[j], back_scan(r, m)]
            {
                &&& 0 <= j < N
                &&& r[j] is None
                &&& (j == i || s[j] is Some)
                &&& m <= mv
                &&& back_scan(r, m) == Some(m)
                &&& forall|w: int| 1 <= w < next_empty(r, j, 1) ==> !#[trigger] movable_at(r, j, m, w)
            },
    decreases fuel,
{
    let mv2 = back_scan(s, mv)->0;
    lemma_back_scan_result(s, mv);
    let la = forward_pick(s, i, mv2, 1, i);
    lemma_forward_pick_range(s, i, mv2, 1, i);
    if la == i {
        lemma_forward_pick_last_movable(s, i, mv2);
        if !(forall|w: int| 1 <= w < next_empty(s, i, 1) ==> !#[trigger] movable_at(s, i, mv2, w)) {
            let u = choose|u: int|
                1 <= u < next_empty(s, i, 1) && la == step(i, u) && movable_at(s, i, mv2, u)
                    && forall|w: int| u < w < next_empty(s, i, 1) ==> !#[trigger] movable_at(s, i, mv2, w);
            lemma_next_empty(s, i, 1);
            lemma_step_distinct(i, u, 0);
        }
        assert(r[i] is None && back_scan(r, mv2) == Some(mv2));
    } else {
        let u = choose|u: int|
            1 <= u < next_empty(s, i, 1) && la == step(i, u) && s[step(i, u)] is Some;
        lemma_step_bound(i, u);
        let s2 = choose|s2: Slots<T>|
            #[trigger] moved_clone(s, la, i, s2) && shift_rel(s2, la, mv2, (fuel - 1) as nat, r);
        let v = choose|v: T|
            cloned(entry_value(s[la]), v) && s2 == #[trigger] s.update(
                i,
                Some((entry_key(s[la]), v)),
            ).update(la, None);
        lemma_shift_rel_complete(s2, la, mv2, (fuel - 1) as nat, r);
        let (j, m) = choose|j: int, m: int|
            #![trigger r[j], back_scan(r, m)]
            {
                &&& 0 <= j < N
                &&& r[j] is None
                &&& (j == la || s2[j] is Some)
                &&& m <= mv2
                &&& back_scan(r, m) == Some(m)
                &&& forall|w: int| 1 <= w < next_empty(r, j, 1) ==> !#[trigger] movable_at(r, j, m, w)
            };
        assert(j == i || s[j] is Some);
    }
}

/// Closing a gap goes on until nothing may move: what it leaves has an empty slot `j`
/// (the starting gap, or a slot that was full before) and a bound `m` (no higher than the
/// starting one, and kept by the backward scan) such that no entry of the run of full
/// slots after `j` may move into `j`.
pub proof fn lemma_gap_closed_complete<T: Clone>(s: Slots<T>, i: int, mv: int, r: Slots<T>)
    requires
        s.len() == N,
        0 <= i < N,
        s[i] is None,
        gap_closed(s, i, mv, r),
    ensures
        exists|j: int, m: int|
            #![trigger r[j], back_scan(r, m)]
            {
                &&& 0 <= j < N
                &&& r[j] is None
                &&& (j == i || s[j] is Some)
                &&& m <= mv
                &&& back_scan(r, m) == Some(m)
                &&& forall|w: int| 1 <= w < next_empty(r, j, 1) ==> !#[trigger] movable_at(r, j, m, w)
            },
{
    let fuel = choose|fuel: nat| #[trigger] shift_rel(s, i, mv, fuel, r);
    lemma_shift_rel_complete(s, i, mv, fuel, r);
}

} // verus!
