//! Mathematical model of the timing wheel: the abstract state of each ring,
//! and spec functions giving the exact meaning of scheduling and of one
//! cascading tick.

use vstd::prelude::*;
use vstd::arithmetic::power::pow;
use vstd::arithmetic::power::lemma_pow0;
use vstd::arithmetic::power::lemma_pow1;
use vstd::arithmetic::power::lemma_pow_adds;
use vstd::arithmetic::power::lemma_pow_increases;
use vstd::arithmetic::power::lemma_pow_positive;
use vstd::arithmetic::div_mod::lemma_mod_division_less_than_divisor;

verus! {

/// Abstract state of one ring: its level in the hierarchy, the index of the
/// slot representing "now", and the ordered contents of every slot. Each
/// entry pairs a residual delay (in base ticks) with its payload.
pub struct RingState<T> {
    pub level: nat,
    pub cursor: int,
    pub slots: Seq<Seq<(usize, T)>>,
}

/// Number of slots per ring, uniform across levels.
pub open spec fn slot_count<T>(w: Seq<RingState<T>>) -> int {
    w[0].slots.len() as int
}

/// Base ticks represented by one slot at `level`.
pub open spec fn span_of(s: int, level: int) -> int {
    pow(s, level as nat)
}

/// Well-formed wheel: at least one ring, at least two slots per ring,
/// contiguous levels, cursors in range, the topmost capacity representable
/// by the machine, and every stored residual delay strictly below the span
/// of the ring holding it.
pub open spec fn wf_state<T>(w: Seq<RingState<T>>) -> bool {
    let s = slot_count(w);
    &&& w.len() >= 1
    &&& s >= 2
    &&& pow(s, w.len() as nat) <= usize::MAX as int
    &&& forall|k: int| 0 <= k < w.len() ==> (#[trigger] w[k].level) == k
    &&& forall|k: int| 0 <= k < w.len() ==> (#[trigger] w[k].slots.len()) == s
    &&& forall|k: int| 0 <= k < w.len() ==> 0 <= (#[trigger] w[k].cursor) < s
    &&& forall|k: int, i: int, j: int|
        0 <= k < w.len() && 0 <= i < w[k].slots.len() && 0 <= j < w[k].slots[i].len()
            ==> (#[trigger] w[k].slots[i][j]).0 < span_of(s, k)
}

/// The state of a freshly constructed wheel: `levels` rings of `s` empty
/// slots each, every cursor at 0.
pub open spec fn fresh_state<T>(levels: int, s: int) -> Seq<RingState<T>> {
    Seq::new(
        levels as nat,
        |k: int|
            RingState {
                level: k as nat,
                cursor: 0,
                slots: Seq::new(s as nat, |i: int| Seq::<(usize, T)>::empty()),
            },
    )
}

/// A delay of 0 ticks is treated as 1 tick: a just-submitted timer must not
/// fire on the very next drain of the current slot.
pub open spec fn norm_delay(d: int) -> int {
    if d == 0 {
        1
    } else {
        d
    }
}

/// Scan levels upward from `i`; the first level whose span/capacity window
/// holds `d` is selected. Returns `n` when no level accommodates `d`.
pub open spec fn find_level(s: int, n: int, d: int, i: int) -> int
    decreases n - i,
{
    if i >= n {
        n
    } else if span_of(s, i) <= d < span_of(s, i + 1) {
        i
    } else {
        find_level(s, n, d, i + 1)
    }
}

/// Scheduling succeeds exactly when the normalized delay is below the
/// topmost ring's capacity.
pub open spec fn sched_ok<T>(w: Seq<RingState<T>>, d: int) -> bool {
    norm_delay(d) < pow(slot_count(w), w.len() as nat)
}

/// The level a successful `schedule` selects for delay `d`.
pub open spec fn sched_level<T>(w: Seq<RingState<T>>, d: int) -> int {
    find_level(slot_count(w), w.len() as int, norm_delay(d), 0)
}

/// The slot index a successful `schedule` selects for delay `d`.
pub open spec fn sched_slot<T>(w: Seq<RingState<T>>, d: int) -> int {
    let s = slot_count(w);
    let l = sched_level(w, d);
    (w[l].cursor + norm_delay(d) / span_of(s, l)) % s
}

/// The residual delay stored alongside the payload: the part of the delay
/// not accounted for by the slot offset at the selected level.
pub open spec fn sched_residual<T>(w: Seq<RingState<T>>, d: int) -> int {
    norm_delay(d) % span_of(slot_count(w), sched_level(w, d))
}

/// The wheel state after a successful `schedule` of `(d, t)`: the entry is
/// appended at the back of the selected slot of the selected ring.
pub open spec fn sched_insert<T>(w: Seq<RingState<T>>, d: int, t: T) -> Seq<RingState<T>> {
    let l = sched_level(w, d);
    let i = sched_slot(w, d);
    let r = sched_residual(w, d);
    w.update(
        l,
        (RingState {
            slots: w[l].slots.update(i, w[l].slots[i].push((r as usize, t))),
            ..w[l]
        }),
    )
}

/// Ring `k` advances during a tick pass iff every ring below it has just
/// completed a full rotation, i.e. every lower cursor sits on the last slot.
pub open spec fn wrapped_below<T>(w: Seq<RingState<T>>, k: int) -> bool {
    forall|j: int| 0 <= j < k ==> (#[trigger] w[j].cursor) == slot_count(w) - 1
}

/// One ring after its own tick: the cursor moves one slot forward and the
/// slot it lands on is drained.
pub open spec fn ring_advanced<T>(r: RingState<T>, s: int) -> RingState<T> {
    let c = (r.cursor + 1) % s;
    RingState { cursor: c, slots: r.slots.update(c, Seq::<(usize, T)>::empty()), ..r }
}

/// The wheel after the ring-advancing phase of one tick pass, restricted to
/// rings below index `k` (rings at `k` and above are untouched).
pub open spec fn rings_advanced_below<T>(w: Seq<RingState<T>>, k: int) -> Seq<RingState<T>> {
    Seq::new(
        w.len(),
        |j: int|
            if j < k && wrapped_below(w, j) {
                ring_advanced(w[j], slot_count(w))
            } else {
                w[j]
            },
    )
}

/// The entries ring `k` drains when it advances: the contents of the slot
/// its cursor moves onto.
pub open spec fn drained_entries<T>(w: Seq<RingState<T>>, k: int) -> Seq<(usize, T)> {
    w[k].slots[(w[k].cursor + 1) % slot_count(w)]
}

/// The payloads of a sequence of entries, in order.
pub open spec fn payloads_of<T>(entries: Seq<(usize, T)>) -> Seq<T> {
    entries.map_values(|e: (usize, T)| e.1)
}

/// What ring 0 yields on a tick pass: everything in its drained slot is due
/// immediately.
pub open spec fn due_now<T>(w: Seq<RingState<T>>) -> Seq<T> {
    payloads_of(drained_entries(w, 0))
}

/// The entries drained from rings 1 up to (excluding) `k` during one tick
/// pass, concatenated in level order. These cascade rather than fire.
pub open spec fn graduated_below<T>(w: Seq<RingState<T>>, k: int) -> Seq<(usize, T)>
    decreases k,
{
    if k <= 1 {
        Seq::<(usize, T)>::empty()
    } else {
        graduated_below(w, k - 1) + if wrapped_below(w, k - 1) {
            drained_entries(w, k - 1)
        } else {
            Seq::<(usize, T)>::empty()
        }
    }
}

/// Re-dispatch of the drained (cascading) entries, in order: an entry with
/// residual 0 is due now; any other is re-scheduled with its residual as the
/// new delay. Returns the final wheel state and the accumulated due list.
pub open spec fn resched<T>(
    w: Seq<RingState<T>>,
    gs: Seq<(usize, T)>,
    due: Seq<T>,
) -> (Seq<RingState<T>>, Seq<T>)
    decreases gs.len(),
{
    if gs.len() == 0 {
        (w, due)
    } else {
        let e = gs[0];
        if e.0 == 0 {
            resched(w, gs.remove(0), due.push(e.1))
        } else {
            resched(sched_insert(w, e.0 as int, e.1), gs.remove(0), due)
        }
    }
}

/// One full tick pass: advance every ring whose trigger fired, collect ring
/// 0's drainage as due, then cascade everything drained from higher rings.
pub open spec fn step<T>(w: Seq<RingState<T>>) -> (Seq<RingState<T>>, Seq<T>) {
    resched(
        rings_advanced_below(w, w.len() as int),
        graduated_below(w, w.len() as int),
        due_now(w),
    )
}

/// One slot at the next level spans a whole rotation of the level below.
pub proof fn lemma_span_up(s: int, l: int)
    requires
        l >= 0,
    ensures
        span_of(s, l + 1) == span_of(s, l) * s,
{
    lemma_pow1(s);
    lemma_pow_adds(s, l as nat, 1);
}

/// The upward scan of `find_level` always lands on a level whose window
/// holds `d`, as long as `d` is below the topmost capacity.
pub proof fn lemma_find_level_found(s: int, n: int, d: int, i: int)
    requires
        s >= 2,
        0 <= i <= n,
        span_of(s, i) <= d,
        d < span_of(s, n),
    ensures
        ({
            let l = find_level(s, n, d, i);
            &&& i <= l < n
            &&& span_of(s, l) <= d
            &&& d < span_of(s, l + 1)
        }),
    decreases n - i,
{
    if i == n {
        assert(false);
    } else if span_of(s, i) <= d < span_of(s, i + 1) {
    } else {
        assert(span_of(s, i + 1) <= d);
        lemma_find_level_found(s, n, d, i + 1);
    }
}

/// A successful insertion preserves well-formedness, and its selected
/// level, slot and residual all lie in range.
pub proof fn lemma_sched_insert_wf<T>(w: Seq<RingState<T>>, d: int, t: T)
    requires
        wf_state(w),
        sched_ok(w, d),
        d >= 0,
    ensures
        wf_state(sched_insert(w, d, t)),
        0 <= sched_level(w, d) < w.len(),
        span_of(slot_count(w), sched_level(w, d)) <= norm_delay(d),
        norm_delay(d) < span_of(slot_count(w), sched_level(w, d) + 1),
        0 <= sched_slot(w, d) < slot_count(w),
        0 <= sched_residual(w, d) < span_of(slot_count(w), sched_level(w, d)),
        sched_insert(w, d, t).len() == w.len(),
        slot_count(sched_insert(w, d, t)) == slot_count(w),
{
    let s = slot_count(w);
    let n = w.len() as int;
    let nd = norm_delay(d);
    lemma_pow0(s);
    lemma_find_level_found(s, n, nd, 0);
    let l = sched_level(w, d);
    let sp = span_of(s, l);
    lemma_pow_positive(s, l as nat);
    lemma_mod_division_less_than_divisor(nd, sp);
    lemma_mod_division_less_than_divisor(w[l].cursor + nd / sp, s);
    lemma_pow_increases(s as nat, l as nat, w.len());
    assert(sp <= pow(s, w.len() as nat));
    let w2 = sched_insert(w, d, t);
    let idx = sched_slot(w, d);
    assert(w2[0].slots.len() == s);
    assert forall|k: int| 0 <= k < w2.len() implies (#[trigger] w2[k].level) == k
        && w2[k].slots.len() == s && 0 <= w2[k].cursor < s by {
        if k == l {
            assert(w2[k].slots.len() == w[k].slots.len());
        }
    }
    assert forall|k: int, i: int, j: int|
        0 <= k < w2.len() && 0 <= i < w2[k].slots.len() && 0 <= j < w2[k].slots[i].len() implies (
    #[trigger] w2[k].slots[i][j]).0 < span_of(s, k) by {
        if k == l && i == idx {
            if j < w[k].slots[i].len() {
                assert(w2[k].slots[i][j] == w[k].slots[i][j]);
            } else {
                assert(w2[k].slots[i][j] == ((sched_residual(w, d) as usize), t));
            }
        } else {
            assert(w2[k].slots[i] == w[k].slots[i]);
        }
    }
}

/// Payload `t` occurs somewhere in the wheel.
pub open spec fn state_has_payload<T>(w: Seq<RingState<T>>, t: T) -> bool {
    exists|k: int, i: int, j: int|
        0 <= k < w.len() && 0 <= i < w[k].slots.len() && 0 <= j < w[k].slots[i].len() && (
        #[trigger] w[k].slots[i][j]).1 == t
}

/// Payload `t` sits in slot `idx` of ring 0 and nowhere else in the wheel.
pub open spec fn payload_only_in_slot<T>(w: Seq<RingState<T>>, idx: int, t: T) -> bool {
    &&& exists|j: int| 0 <= j < w[0].slots[idx].len() && (#[trigger] w[0].slots[idx][j]).1 == t
    &&& forall|k: int, i: int, j: int|
        0 <= k < w.len() && 0 <= i < w[k].slots.len() && 0 <= j < w[k].slots[i].len() && !(k == 0
            && i == idx) ==> (#[trigger] w[k].slots[i][j]).1 != t
}

/// Payload `t` occurs exactly once in the wheel, as the entry `(r, t)` in
/// slot `idx` of ring `lvl`.
pub open spec fn payload_pinned<T>(w: Seq<RingState<T>>, lvl: int, idx: int, r: int, t: T) -> bool {
    &&& exists|j: int|
        0 <= j < w[lvl].slots[idx].len() && (#[trigger] w[lvl].slots[idx][j]) == (((r as usize), t))
    &&& forall|k: int, i: int, j: int|
        0 <= k < w.len() && 0 <= i < w[k].slots.len() && 0 <= j < w[k].slots[i].len() && (
        #[trigger] w[k].slots[i][j]).1 == t ==> k == lvl && i == idx && w[k].slots[i][j] == ((
        (r as usize),
        t,
        ))
    &&& forall|j1: int, j2: int|
        0 <= j1 < w[lvl].slots[idx].len() && 0 <= j2 < w[lvl].slots[idx].len() && (
        #[trigger] w[lvl].slots[idx][j1]).1 == t && (#[trigger] w[lvl].slots[idx][j2]).1 == t
            ==> j1 == j2
}

/// The ring-advancing phase preserves well-formedness: cursors stay in
/// range and drained slots become empty.
pub proof fn lemma_advanced_wf<T>(w: Seq<RingState<T>>, k: int)
    requires
        wf_state(w),
    ensures
        wf_state(rings_advanced_below(w, k)),
        rings_advanced_below(w, k).len() == w.len(),
        slot_count(rings_advanced_below(w, k)) == slot_count(w),
{
    let s = slot_count(w);
    let w2 = rings_advanced_below(w, k);
    assert forall|j: int| 0 <= j < w2.len() implies (#[trigger] w2[j].level) == j
        && w2[j].slots.len() == s && 0 <= w2[j].cursor < s by {
        if j < k && wrapped_below(w, j) {
            lemma_mod_division_less_than_divisor(w[j].cursor + 1, s);
        }
    }
    assert(w2[0].slots.len() == s);
    assert forall|a: int, i: int, j: int|
        0 <= a < w2.len() && 0 <= i < w2[a].slots.len() && 0 <= j < w2[a].slots[i].len() implies (
    #[trigger] w2[a].slots[i][j]).0 < span_of(s, a) by {
        if a < k && wrapped_below(w, a) {
            let c = (w[a].cursor + 1) % s;
            if i == c {
                assert(w2[a].slots[i].len() == 0);
            } else {
                assert(w2[a].slots[i] == w[a].slots[i]);
            }
        } else {
            assert(w2[a] == w[a]);
        }
    }
}

/// Every residual delay drained from a cascading ring is below the span of
/// the topmost ring, hence re-schedulable within the wheel.
pub proof fn lemma_graduated_bound<T>(w: Seq<RingState<T>>, k: int)
    requires
        wf_state(w),
        k <= w.len(),
    ensures
        forall|j: int| 0 <= j < graduated_below(w, k).len()
            ==> (#[trigger] graduated_below(w, k)[j]).0 < span_of(slot_count(w), w.len() - 1),
    decreases k,
{
    let s = slot_count(w);
    if k <= 1 {
    } else {
        lemma_graduated_bound(w, k - 1);
        let prev = graduated_below(w, k - 1);
        let cur = graduated_below(w, k);
        if wrapped_below(w, k - 1) {
            let c = (w[k - 1].cursor + 1) % s;
            lemma_mod_division_less_than_divisor(w[k - 1].cursor + 1, s);
            lemma_pow_increases(s as nat, (k - 1) as nat, (w.len() - 1) as nat);
            assert forall|j: int| 0 <= j < cur.len() implies (#[trigger] cur[j]).0 < span_of(
                s,
                w.len() - 1,
            ) by {
                if j < prev.len() {
                    assert(cur[j] == prev[j]);
                } else {
                    assert(cur[j] == w[k - 1].slots[c][j - prev.len()]);
                    assert(w[k - 1].slots[c][j - prev.len()].0 < span_of(s, k - 1));
                }
            }
        } else {
            assert(cur =~= prev);
        }
    }
}

/// Payloads already owed before the cascade pass stay in front of whatever
/// the pass adds, and do not influence the resulting wheel state.
pub proof fn lemma_resched_prefix<T>(
    w: Seq<RingState<T>>,
    gs: Seq<(usize, T)>,
    a: Seq<T>,
    b: Seq<T>,
)
    ensures
        resched(w, gs, a + b).0 == resched(w, gs, b).0,
        resched(w, gs, a + b).1 == a + resched(w, gs, b).1,
    decreases gs.len(),
{
    if gs.len() == 0 {
    } else {
        let e = gs[0];
        if e.0 == 0 {
            assert((a + b).push(e.1) =~= a + b.push(e.1));
            lemma_resched_prefix(w, gs.remove(0), a, b.push(e.1));
        } else {
            lemma_resched_prefix(sched_insert(w, e.0 as int, e.1), gs.remove(0), a, b);
        }
    }
}

/// `n` successive tick passes, concatenating the due payloads in pass order.
pub open spec fn run<T>(w: Seq<RingState<T>>, n: nat) -> (Seq<RingState<T>>, Seq<T>)
    decreases n,
{
    if n == 0 {
        (w, Seq::<T>::empty())
    } else {
        let first = step(w);
        let rest = run(first.0, (n - 1) as nat);
        (rest.0, first.1 + rest.1)
    }
}

} // verus!
