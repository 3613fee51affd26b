//! Laws of the wheel, stated over the model and proved once and for all.

use vstd::prelude::*;
use vstd::arithmetic::power::pow;
use vstd::arithmetic::power::lemma_pow_increases;
use vstd::arithmetic::power::lemma_pow_positive;

use vstd::arithmetic::div_mod::lemma_fundamental_div_mod;
use vstd::arithmetic::div_mod::lemma_mod_multiples_vanish;
use vstd::arithmetic::div_mod::lemma_small_mod;

use crate::model::RingState;
use crate::model::drained_entries;
use crate::model::due_now;
use crate::model::graduated_below;
use crate::model::lemma_advanced_wf;
use crate::model::lemma_find_level_found;
use crate::model::lemma_graduated_bound;
use crate::model::lemma_resched_prefix;
use crate::model::lemma_sched_insert_wf;
use crate::model::lemma_span_up;
use crate::model::payload_only_in_slot;
use crate::model::payload_pinned;
use crate::model::payloads_of;
use crate::model::resched;
use crate::model::ring_advanced;
use crate::model::rings_advanced_below;
use crate::model::run;
use crate::model::sched_insert;
use crate::model::sched_level;
use crate::model::sched_ok;
use crate::model::sched_residual;
use crate::model::sched_slot;
use crate::model::slot_count;
use crate::model::span_of;
use crate::model::state_has_payload;
use crate::model::step;
use crate::model::wf_state;
use crate::model::wrapped_below;

verus! {

/// Zero-delay normalization: scheduling with a delay of 0 ticks is in every
/// respect the same as scheduling with a delay of 1 tick.
pub proof fn lemma_zero_delay_normalization<T>(w: Seq<RingState<T>>, t: T)
    ensures
        sched_ok(w, 0) == sched_ok(w, 1),
        sched_level(w, 0) == sched_level(w, 1),
        sched_slot(w, 0) == sched_slot(w, 1),
        sched_residual(w, 0) == sched_residual(w, 1),
        sched_insert(w, 0, t) == sched_insert(w, 1, t),
{
}

/// Same-slot batching: two payloads scheduled with the same delay land at
/// the same level and slot, and sit in that slot adjacently, in the order
/// they were scheduled.
pub proof fn lemma_same_slot_batching<T>(w: Seq<RingState<T>>, d: int, t1: T, t2: T)
    requires
        wf_state(w),
        d >= 0,
        sched_ok(w, d),
    ensures
        ({
            let w1 = sched_insert(w, d, t1);
            let l = sched_level(w, d);
            let i = sched_slot(w, d);
            let r = sched_residual(w, d);
            &&& sched_ok(w1, d)
            &&& sched_level(w1, d) == l
            &&& sched_slot(w1, d) == i
            &&& sched_residual(w1, d) == r
            &&& sched_insert(w1, d, t2)[l].slots[i] == w[l].slots[i].push(
                ((r as usize), t1),
            ).push(((r as usize), t2))
        }),
{
    lemma_sched_insert_wf(w, d, t1);
    let w1 = sched_insert(w, d, t1);
    let l = sched_level(w, d);
    let i = sched_slot(w, d);
    assert(w1.len() == w.len());
    assert(slot_count(w1) == slot_count(w));
    assert(sched_level(w1, d) == l);
    assert(w1[l].cursor == w[l].cursor);
    lemma_sched_insert_wf(w1, d, t2);
    assert(w1[l].slots[i] == w[l].slots[i].push(((sched_residual(w, d) as usize), t1)));
}

/// Boundary rejection: a delay exactly equal to the topmost ring's capacity
/// is rejected, while a delay one less is accepted at the topmost level.
pub proof fn lemma_boundary_rejection<T>(w: Seq<RingState<T>>)
    requires
        wf_state(w),
    ensures
        !sched_ok(w, pow(slot_count(w), w.len() as nat)),
        sched_ok(w, pow(slot_count(w), w.len() as nat) - 1),
        sched_level(w, pow(slot_count(w), w.len() as nat) - 1) == w.len() - 1,
{
    let s = slot_count(w);
    let n = w.len() as int;
    let cap = pow(s, w.len() as nat);
    lemma_pow_positive(s, w.len() as nat);
    lemma_pow_increases(s as nat, 1, w.len());
    vstd::arithmetic::power::lemma_pow1(s);
    assert(cap >= s >= 2);
    assert(!sched_ok(w, cap));
    assert(sched_ok(w, cap - 1));
    lemma_span_up(s, n - 1);
    assert(cap == span_of(s, n - 1) * s);
    lemma_pow_positive(s, (n - 1) as nat);
    assert(span_of(s, n - 1) * s >= span_of(s, n - 1) * 2) by {
        vstd::arithmetic::mul::lemma_mul_inequality(2, s, span_of(s, n - 1));
        vstd::arithmetic::mul::lemma_mul_is_commutative(span_of(s, n - 1), s);
        vstd::arithmetic::mul::lemma_mul_is_commutative(span_of(s, n - 1), 2);
    }
    assert(span_of(s, n - 1) <= cap - 1);
    vstd::arithmetic::power::lemma_pow0(s);
    lemma_find_level_found(s, n, cap - 1, 0);
    let l = sched_level(w, cap - 1);
    if l < n - 1 {
        lemma_pow_increases(s as nat, (l + 1) as nat, (n - 1) as nat);
        assert(span_of(s, l + 1) <= span_of(s, n - 1));
        assert(false);
    }
}

/// Cascade soundness: an entry drained from ring `k` carries a residual
/// delay below that ring's span, so re-scheduling it always succeeds and
/// always lands at a strictly lower (finer) level.
pub proof fn lemma_cascade_descends<T>(w: Seq<RingState<T>>, k: int, d: int)
    requires
        wf_state(w),
        1 <= k < w.len(),
        1 <= d < span_of(slot_count(w), k),
    ensures
        sched_ok(w, d),
        sched_level(w, d) < k,
{
    let s = slot_count(w);
    let n = w.len() as int;
    lemma_pow_increases(s as nat, k as nat, w.len());
    assert(sched_ok(w, d));
    vstd::arithmetic::power::lemma_pow0(s);
    lemma_find_level_found(s, n, d, 0);
    let l = sched_level(w, d);
    if l >= k {
        lemma_pow_increases(s as nat, k as nat, l as nat);
        assert(span_of(s, k) <= span_of(s, l));
        assert(false);
    }
}

/// Reducing a summand modulo `s` does not change a sum's remainder.
proof fn lemma_mod_shift(a: int, b: int, s: int)
    requires
        s >= 1,
    ensures
        (a % s + b) % s == (a + b) % s,
{
    lemma_fundamental_div_mod(a, s);
    lemma_mod_multiples_vanish(a / s, a % s + b, s);
    assert(s * (a / s) + (a % s + b) == a + b);
}

/// Two offsets from the same base that differ by less than a full rotation
/// land on distinct slots.
proof fn lemma_mod_distinct(c: int, j: int, d: int, s: int)
    requires
        s >= 1,
        c >= 0,
        0 <= j < d,
        d - j < s,
    ensures
        (c + j) % s != (c + d) % s,
{
    let a = c + j;
    let b = c + d;
    lemma_fundamental_div_mod(a, s);
    lemma_fundamental_div_mod(b, s);
    if a % s == b % s {
        let q = b / s - a / s;
        assert(b - a == s * q) by (nonlinear_arith)
            requires
                a == s * (a / s) + a % s,
                b == s * (b / s) + b % s,
                q == b / s - a / s,
                a % s == b % s,
        ;
        assert(0 < s * q < s);
        assert(false) by (nonlinear_arith)
            requires
                0 < s * q < s,
                s >= 1,
        ;
    }
}

/// No payload equal to `t` is among the entries drained from the cascading
/// rings when none of those rings holds such a payload.
proof fn lemma_graduated_no_payload<T>(w: Seq<RingState<T>>, k: int, t: T)
    requires
        wf_state(w),
        k <= w.len(),
        forall|a: int, i: int, j: int|
            1 <= a < w.len() && 0 <= i < w[a].slots.len() && 0 <= j < w[a].slots[i].len() ==> (
            #[trigger] w[a].slots[i][j]).1 != t,
    ensures
        forall|j: int| 0 <= j < graduated_below(w, k).len()
            ==> (#[trigger] graduated_below(w, k)[j]).1 != t,
    decreases k,
{
    let s = slot_count(w);
    if k <= 1 {
    } else {
        lemma_graduated_no_payload(w, k - 1, t);
        let prev = graduated_below(w, k - 1);
        let cur = graduated_below(w, k);
        if wrapped_below(w, k - 1) {
            let c = (w[k - 1].cursor + 1) % s;
            vstd::arithmetic::div_mod::lemma_mod_division_less_than_divisor(
                w[k - 1].cursor + 1,
                s,
            );
            assert forall|j: int| 0 <= j < cur.len() implies (#[trigger] cur[j]).1 != t by {
                if j < prev.len() {
                    assert(cur[j] == prev[j]);
                } else {
                    assert(cur[j] == w[k - 1].slots[c][j - prev.len()]);
                }
            }
        } else {
            assert(cur =~= prev);
        }
    }
}

/// The cascade re-dispatch neither moves the tracked payload out of its
/// ring-0 slot nor lets it appear in the due list, as long as no cascading
/// entry carries that payload.
proof fn lemma_resched_keeps<T>(
    w: Seq<RingState<T>>,
    gs: Seq<(usize, T)>,
    due: Seq<T>,
    idx: int,
    t: T,
)
    requires
        wf_state(w),
        payload_only_in_slot(w, idx, t),
        0 <= idx < slot_count(w),
        forall|j: int| 0 <= j < gs.len() ==> (#[trigger] gs[j]).0 < span_of(
            slot_count(w),
            w.len() - 1,
        ),
        forall|j: int| 0 <= j < gs.len() ==> (#[trigger] gs[j]).1 != t,
        !due.contains(t),
    ensures
        ({
            let out = resched(w, gs, due);
            &&& wf_state(out.0)
            &&& out.0.len() == w.len()
            &&& slot_count(out.0) == slot_count(w)
            &&& out.0[0].cursor == w[0].cursor
            &&& payload_only_in_slot(out.0, idx, t)
            &&& out.0[0].slots[idx].len() >= w[0].slots[idx].len()
            &&& forall|q: int| 0 <= q < w[0].slots[idx].len() ==> (
            #[trigger] out.0[0].slots[idx][q]) == w[0].slots[idx][q]
            &&& !out.1.contains(t)
        }),
    decreases gs.len(),
{
    let s = slot_count(w);
    let n = w.len() as int;
    if gs.len() == 0 {
    } else {
        let e = gs[0];
        let rest = gs.remove(0);
        assert forall|j: int| 0 <= j < rest.len() implies (#[trigger] rest[j]).0 < span_of(s, n - 1)
            && rest[j].1 != t by {
            assert(rest[j] == gs[j + 1]);
        }
        if e.0 == 0 {
            let due2 = due.push(e.1);
            assert(!due2.contains(t)) by {
                if due2.contains(t) {
                    let i = choose|i: int| 0 <= i < due2.len() && due2[i] == t;
                    if i < due.len() {
                        assert(due[i] == t);
                    } else {
                        assert(due2[i] == e.1);
                    }
                }
            }
            lemma_resched_keeps(w, rest, due2, idx, t);
        } else {
            lemma_pow_increases(s as nat, (n - 1) as nat, n as nat);
            assert(sched_ok(w, e.0 as int));
            lemma_sched_insert_wf(w, e.0 as int, e.1);
            let w2 = sched_insert(w, e.0 as int, e.1);
            let l = sched_level(w, e.0 as int);
            let si = sched_slot(w, e.0 as int);
            assert(payload_only_in_slot(w2, idx, t)) by {
                let j0 = choose|j: int|
                    0 <= j < w[0].slots[idx].len() && (#[trigger] w[0].slots[idx][j]).1 == t;
                assert(w2[0].slots[idx][j0].1 == t);
                assert forall|k: int, i: int, j: int|
                    0 <= k < w2.len() && 0 <= i < w2[k].slots.len() && 0 <= j
                        < w2[k].slots[i].len() && !(k == 0 && i == idx) implies (
                #[trigger] w2[k].slots[i][j]).1 != t by {
                    if k == l && i == si {
                        if j < w[k].slots[i].len() {
                            assert(w2[k].slots[i][j] == w[k].slots[i][j]);
                        } else {
                            assert(w2[k].slots[i][j].1 == e.1);
                        }
                    } else {
                        assert(w2[k].slots[i] == w[k].slots[i]);
                    }
                }
            }
            assert(w2[0].cursor == w[0].cursor);
            assert(w2[0].slots[idx].len() >= w[0].slots[idx].len());
            assert forall|q: int| 0 <= q < w[0].slots[idx].len() implies (
            #[trigger] w2[0].slots[idx][q]) == w[0].slots[idx][q] by {
                if l == 0 && si == idx {
                    assert(w2[0].slots[idx][q] == w[0].slots[idx][q]);
                } else {
                    assert(w2[0].slots[idx] == w[0].slots[idx]);
                }
            }
            lemma_resched_keeps(w2, rest, due, idx, t);
        }
    }
}

/// One tick pass whose drained ring-0 slot is not the tracked slot: the
/// tracked payload stays put and is not among the due payloads.
proof fn lemma_step_keeps<T>(w: Seq<RingState<T>>, idx: int, t: T)
    requires
        wf_state(w),
        payload_only_in_slot(w, idx, t),
        0 <= idx < slot_count(w),
        idx != (w[0].cursor + 1) % slot_count(w),
    ensures
        ({
            let out = step(w);
            &&& wf_state(out.0)
            &&& out.0.len() == w.len()
            &&& slot_count(out.0) == slot_count(w)
            &&& out.0[0].cursor == (w[0].cursor + 1) % slot_count(w)
            &&& payload_only_in_slot(out.0, idx, t)
            &&& out.0[0].slots[idx].len() >= w[0].slots[idx].len()
            &&& forall|q: int| 0 <= q < w[0].slots[idx].len() ==> (
            #[trigger] out.0[0].slots[idx][q]) == w[0].slots[idx][q]
            &&& !out.1.contains(t)
        }),
{
    let s = slot_count(w);
    let n = w.len() as int;
    let wa = rings_advanced_below(w, n);
    lemma_advanced_wf(w, n);
    lemma_graduated_bound(w, n);
    let c1 = (w[0].cursor + 1) % s;
    vstd::arithmetic::div_mod::lemma_mod_division_less_than_divisor(w[0].cursor + 1, s);
    assert(wa[0] == ring_advanced(w[0], s));
    assert(wa[0].slots[idx] == w[0].slots[idx]);
    assert(wa[0].cursor == c1);
    assert(payload_only_in_slot(wa, idx, t)) by {
        let j0 = choose|j: int|
            0 <= j < w[0].slots[idx].len() && (#[trigger] w[0].slots[idx][j]).1 == t;
        assert(wa[0].slots[idx][j0].1 == t);
        assert forall|k: int, i: int, j: int|
            0 <= k < wa.len() && 0 <= i < wa[k].slots.len() && 0 <= j < wa[k].slots[i].len() && !(k
                == 0 && i == idx) implies (#[trigger] wa[k].slots[i][j]).1 != t by {
            if wrapped_below(w, k) {
                let ck = (w[k].cursor + 1) % s;
                vstd::arithmetic::div_mod::lemma_mod_division_less_than_divisor(
                    w[k].cursor + 1,
                    s,
                );
                if i == ck {
                    assert(wa[k].slots[i].len() == 0);
                } else {
                    assert(wa[k].slots[i] == w[k].slots[i]);
                }
            } else {
                assert(wa[k] == w[k]);
            }
        }
    }
    assert(!due_now(w).contains(t)) by {
        if due_now(w).contains(t) {
            let i = choose|i: int| 0 <= i < due_now(w).len() && due_now(w)[i] == t;
            assert(w[0].slots[c1][i].1 == t);
        }
    }
    assert forall|a: int, i: int, j: int|
        1 <= a < w.len() && 0 <= i < w[a].slots.len() && 0 <= j < w[a].slots[i].len() implies (
    #[trigger] w[a].slots[i][j]).1 != t by {}
    lemma_graduated_no_payload(w, n, t);
    lemma_resched_keeps(wa, graduated_below(w, n), due_now(w), idx, t);
}

/// As long as ring 0's cursor keeps missing the tracked slot, every pass
/// leaves the tracked payload in place and yields no due payload equal to it.
proof fn lemma_survives<T>(w: Seq<RingState<T>>, idx: int, t: T, steps: nat)
    requires
        wf_state(w),
        payload_only_in_slot(w, idx, t),
        0 <= idx < slot_count(w),
        forall|j: int| 1 <= j <= steps ==> #[trigger] ((w[0].cursor + j) % slot_count(w)) != idx,
    ensures
        ({
            let out = run(w, steps);
            &&& wf_state(out.0)
            &&& out.0.len() == w.len()
            &&& slot_count(out.0) == slot_count(w)
            &&& out.0[0].cursor == (w[0].cursor + steps) % slot_count(w)
            &&& payload_only_in_slot(out.0, idx, t)
            &&& out.0[0].slots[idx].len() >= w[0].slots[idx].len()
            &&& forall|q: int| 0 <= q < w[0].slots[idx].len() ==> (
            #[trigger] out.0[0].slots[idx][q]) == w[0].slots[idx][q]
            &&& !out.1.contains(t)
        }),
    decreases steps,
{
    let s = slot_count(w);
    let c = w[0].cursor;
    if steps == 0 {
        lemma_small_mod(c as nat, s as nat);
    } else {
        assert((c + 1) % s != idx);
        lemma_step_keeps(w, idx, t);
        let w1 = step(w).0;
        assert forall|j: int| 1 <= j <= steps - 1 implies #[trigger] ((w1[0].cursor + j) % s) != idx by {
            lemma_mod_shift(c + 1, j, s);
            assert((w1[0].cursor + j) % s == (c + 1 + j) % s);
            assert((c + (j + 1)) % s != idx);
        }
        lemma_survives(w1, idx, t, (steps - 1) as nat);
        assert(run(w, steps).0 == run(w1, (steps - 1) as nat).0);
        assert(run(w, steps).1 == step(w).1 + run(w1, (steps - 1) as nat).1);
        assert(!run(w, steps).1.contains(t)) by {
            if run(w, steps).1.contains(t) {
                let i = choose|i: int|
                    0 <= i < run(w, steps).1.len() && run(w, steps).1[i] == t;
                if i < step(w).1.len() {
                    assert(step(w).1[i] == t);
                } else {
                    assert(run(w1, (steps - 1) as nat).1[i - step(w).1.len()] == t);
                }
            }
        }
        lemma_mod_shift(c + 1, steps - 1, s);
        assert((w1[0].cursor + (steps - 1)) % s == (c + steps) % s);
    }
}

/// Exact-delay firing at the finest level: on any well-formed wheel that
/// does not already hold payload `t`, scheduling `t` with a delay that ring
/// 0 accepts (`1 <= d <` slots per ring) and then ticking one pass at a time
/// yields `t` on the `d`-th pass and on no earlier pass. (At coarser levels
/// this holds from a freshly constructed wheel but not from every mid-cycle
/// state: a coarse ring advances when the rings below it wrap, so a timer
/// scheduled mid-cycle at a coarse level can fire early.)
pub proof fn lemma_exact_delay_firing_fine<T>(w: Seq<RingState<T>>, d: int, t: T, k: int)
    requires
        wf_state(w),
        1 <= d < slot_count(w),
        !state_has_payload(w, t),
        1 <= k <= d,
    ensures
        k < d ==> !run(sched_insert(w, d, t), k as nat).1.contains(t),
        k == d ==> run(sched_insert(w, d, t), k as nat).1.contains(t),
{
    let s = slot_count(w);
    let n = w.len() as int;
    let c = w[0].cursor;
    vstd::arithmetic::power::lemma_pow0(s);
    vstd::arithmetic::power::lemma_pow1(s);
    lemma_pow_increases(s as nat, 1, w.len());
    assert(sched_ok(w, d));
    assert(sched_level(w, d) == 0);
    lemma_sched_insert_wf(w, d, t);
    let w1 = sched_insert(w, d, t);
    let idx = sched_slot(w, d);
    assert(idx == (c + d) % s);
    assert(w1[0].cursor == c);
    assert(payload_only_in_slot(w1, idx, t)) by {
        let pushed = w[0].slots[idx].push(((sched_residual(w, d) as usize), t));
        assert(w1[0].slots[idx] == pushed);
        assert(pushed[pushed.len() - 1].1 == t);
        assert forall|a: int, i: int, j: int|
            0 <= a < w1.len() && 0 <= i < w1[a].slots.len() && 0 <= j < w1[a].slots[i].len() && !(a
                == 0 && i == idx) implies (#[trigger] w1[a].slots[i][j]).1 != t by {
            assert(w1[a].slots[i] == w[a].slots[i]);
            if w[a].slots[i][j].1 == t {
                assert(state_has_payload(w, t));
            }
        }
    }
    lemma_fires_from_slot(w1, idx, d, t, k);
}

/// A payload sitting (alone) in the ring-0 slot that is `rem` cursor steps
/// ahead comes due on exactly the `rem`-th pass and on no earlier pass.
proof fn lemma_fires_from_slot<T>(w1: Seq<RingState<T>>, idx: int, rem: int, t: T, k: int)
    requires
        wf_state(w1),
        payload_only_in_slot(w1, idx, t),
        1 <= rem < slot_count(w1),
        0 <= idx < slot_count(w1),
        idx == (w1[0].cursor + rem) % slot_count(w1),
        1 <= k <= rem,
    ensures
        k < rem ==> !run(w1, k as nat).1.contains(t),
        k == rem ==> run(w1, k as nat).1.contains(t),
{
    let s = slot_count(w1);
    let c = w1[0].cursor;
    if k < rem {
        assert forall|j: int| 1 <= j <= k implies #[trigger] ((c + j) % s) != idx by {
            lemma_mod_distinct(c, j, rem, s);
        }
        lemma_survives(w1, idx, t, k as nat);
    } else {
        assert forall|j: int| 1 <= j <= rem - 1 implies #[trigger] ((c + j) % s) != idx by {
            lemma_mod_distinct(c, j, rem, s);
        }
        lemma_survives(w1, idx, t, (rem - 1) as nat);
        let wd = run(w1, (rem - 1) as nat).0;
        assert(wd[0].cursor == (c + (rem - 1)) % s);
        assert((wd[0].cursor + 1) % s == (c + rem) % s) by {
            lemma_mod_shift(c + (rem - 1), 1, s);
        }
        assert(due_now(wd).contains(t)) by {
            let j0 = choose|j: int|
                0 <= j < wd[0].slots[idx].len() && (#[trigger] wd[0].slots[idx][j]).1 == t;
            assert(due_now(wd) == payloads_of(wd[0].slots[(wd[0].cursor + 1) % slot_count(wd)]));
            assert(due_now(wd)[j0] == wd[0].slots[idx][j0].1);
        }
        let nd = wd.len() as int;
        let wa = rings_advanced_below(wd, nd);
        let gs = graduated_below(wd, nd);
        lemma_resched_prefix(wa, gs, due_now(wd), Seq::<T>::empty());
        assert(due_now(wd) + Seq::<T>::empty() =~= due_now(wd));
        assert(step(wd).1 == due_now(wd) + resched(wa, gs, Seq::<T>::empty()).1);
        assert(step(wd).1.contains(t)) by {
            let i0 = choose|i: int| 0 <= i < due_now(wd).len() && due_now(wd)[i] == t;
            assert(step(wd).1[i0] == t);
        }
        lemma_multi_step_tick_equivalence(w1, (rem - 1) as nat, 1);
        assert(run(step(wd).0, 0).1 == Seq::<T>::empty());
        assert(run(wd, 1).1 =~= step(wd).1 + Seq::<T>::empty());
        assert(run(w1, rem as nat).1 == run(w1, (rem - 1) as nat).1 + run(wd, 1).1);
        assert(run(w1, rem as nat).1.contains(t)) by {
            let i1 = choose|i: int| 0 <= i < step(wd).1.len() && step(wd).1[i] == t;
            assert(run(wd, 1).1[i1] == t);
            assert(run(w1, rem as nat).1[run(w1, (rem - 1) as nat).1.len() + i1] == t);
        }
    }
}

/// One unit step of division: the quotient grows exactly at the multiples.
proof fn lemma_div_step(m: int, s: int)
    requires
        s >= 1,
        m >= 0,
    ensures
        (m + 1) % s == 0 ==> (m + 1) / s == m / s + 1 && m % s == s - 1,
        (m + 1) % s != 0 ==> (m + 1) / s == m / s && (m + 1) % s == m % s + 1,
{
    lemma_fundamental_div_mod(m, s);
    vstd::arithmetic::div_mod::lemma_mod_division_less_than_divisor(m, s);
    let q = m / s;
    let r0 = m % s;
    if r0 + 1 < s {
        assert(m + 1 == q * s + (r0 + 1)) by (nonlinear_arith)
            requires
                m == s * q + r0,
        ;
        vstd::arithmetic::div_mod::lemma_fundamental_div_mod_converse(m + 1, s, q, r0 + 1);
    } else {
        assert(m + 1 == (q + 1) * s + 0) by (nonlinear_arith)
            requires
                m == s * q + r0,
                r0 + 1 == s,
        ;
        vstd::arithmetic::div_mod::lemma_fundamental_div_mod_converse(m + 1, s, q + 1, 0);
    }
}

/// The cascade re-dispatch handles a concatenation of entry lists by
/// handling the two lists one after the other.
proof fn lemma_resched_split<T>(
    w: Seq<RingState<T>>,
    a: Seq<(usize, T)>,
    b: Seq<(usize, T)>,
    due: Seq<T>,
)
    ensures
        resched(w, a + b, due) == resched(resched(w, a, due).0, b, resched(w, a, due).1),
    decreases a.len(),
{
    if a.len() == 0 {
        assert(a + b =~= b);
    } else {
        let e = a[0];
        assert((a + b)[0] == e);
        assert((a + b).remove(0) =~= a.remove(0) + b);
        if e.0 == 0 {
            lemma_resched_split(w, a.remove(0), b, due.push(e.1));
        } else {
            lemma_resched_split(sched_insert(w, e.0 as int, e.1), a.remove(0), b, due);
        }
    }
}

/// The cascade re-dispatch introduces no occurrence of a payload that is
/// neither in the wheel nor among the dispatched entries.
proof fn lemma_resched_clean<T>(w: Seq<RingState<T>>, gs: Seq<(usize, T)>, due: Seq<T>, t: T)
    requires
        wf_state(w),
        forall|j: int| 0 <= j < gs.len() ==> (#[trigger] gs[j]).0 < span_of(
            slot_count(w),
            w.len() - 1,
        ),
        forall|j: int| 0 <= j < gs.len() ==> (#[trigger] gs[j]).1 != t,
        !state_has_payload(w, t),
        !due.contains(t),
    ensures
        ({
            let out = resched(w, gs, due);
            &&& wf_state(out.0)
            &&& out.0.len() == w.len()
            &&& slot_count(out.0) == slot_count(w)
            &&& forall|j: int| 0 <= j < w.len() ==> (#[trigger] out.0[j].cursor) == w[j].cursor
            &&& !state_has_payload(out.0, t)
            &&& !out.1.contains(t)
        }),
    decreases gs.len(),
{
    let s = slot_count(w);
    let n = w.len() as int;
    if gs.len() == 0 {
    } else {
        let e = gs[0];
        let rest = gs.remove(0);
        assert forall|j: int| 0 <= j < rest.len() implies (#[trigger] rest[j]).0 < span_of(s, n - 1)
            && rest[j].1 != t by {
            assert(rest[j] == gs[j + 1]);
        }
        if e.0 == 0 {
            let due2 = due.push(e.1);
            assert(!due2.contains(t)) by {
                if due2.contains(t) {
                    let i = choose|i: int| 0 <= i < due2.len() && due2[i] == t;
                    if i < due.len() {
                        assert(due[i] == t);
                    } else {
                        assert(due2[i] == e.1);
                    }
                }
            }
            lemma_resched_clean(w, rest, due2, t);
        } else {
            lemma_pow_increases(s as nat, (n - 1) as nat, n as nat);
            assert(sched_ok(w, e.0 as int));
            lemma_sched_insert_wf(w, e.0 as int, e.1);
            let w2 = sched_insert(w, e.0 as int, e.1);
            let l = sched_level(w, e.0 as int);
            let si = sched_slot(w, e.0 as int);
            assert(!state_has_payload(w2, t)) by {
                if state_has_payload(w2, t) {
                    let (k, i, j) = choose|k: int, i: int, j: int|
                        0 <= k < w2.len() && 0 <= i < w2[k].slots.len() && 0 <= j
                            < w2[k].slots[i].len() && (#[trigger] w2[k].slots[i][j]).1 == t;
                    if k == l && i == si {
                        if j < w[k].slots[i].len() {
                            assert(w2[k].slots[i][j] == w[k].slots[i][j]);
                            assert(state_has_payload(w, t));
                        } else {
                            assert(w2[k].slots[i][j].1 == e.1);
                        }
                    } else {
                        assert(w2[k].slots[i] == w[k].slots[i]);
                        assert(state_has_payload(w, t));
                    }
                }
            }
            lemma_resched_clean(w2, rest, due, t);
        }
    }
}

/// Entries drained from the cascading rings avoid payload `t` when every
/// occurrence of `t` above ring 0 sits in a slot that is not drained.
proof fn lemma_graduated_avoids<T>(w: Seq<RingState<T>>, k: int, lvl: int, idx: int, t: T)
    requires
        wf_state(w),
        k <= w.len(),
        forall|a: int, i: int, j: int|
            1 <= a < w.len() && 0 <= i < w[a].slots.len() && 0 <= j < w[a].slots[i].len() && (
            #[trigger] w[a].slots[i][j]).1 == t ==> a == lvl && i == idx,
        lvl >= 1 ==> (wrapped_below(w, lvl) ==> (w[lvl].cursor + 1) % slot_count(w) != idx),
    ensures
        forall|j: int| 0 <= j < graduated_below(w, k).len()
            ==> (#[trigger] graduated_below(w, k)[j]).1 != t,
    decreases k,
{
    let s = slot_count(w);
    if k <= 1 {
    } else {
        lemma_graduated_avoids(w, k - 1, lvl, idx, t);
        let prev = graduated_below(w, k - 1);
        let cur = graduated_below(w, k);
        if wrapped_below(w, k - 1) {
            let c = (w[k - 1].cursor + 1) % s;
            vstd::arithmetic::div_mod::lemma_mod_division_less_than_divisor(
                w[k - 1].cursor + 1,
                s,
            );
            assert forall|j: int| 0 <= j < cur.len() implies (#[trigger] cur[j]).1 != t by {
                if j < prev.len() {
                    assert(cur[j] == prev[j]);
                } else {
                    assert(cur[j] == w[k - 1].slots[c][j - prev.len()]);
                    if w[k - 1].slots[c][j - prev.len()].1 == t {
                        assert(k - 1 == lvl && c == idx);
                    }
                }
            }
        } else {
            assert(cur =~= prev);
        }
    }
}

/// The cascade re-dispatch keeps a pinned payload exactly where it is, as
/// long as no dispatched entry carries that payload.
proof fn lemma_resched_pins<T>(
    w: Seq<RingState<T>>,
    gs: Seq<(usize, T)>,
    due: Seq<T>,
    lvl: int,
    idx: int,
    r: int,
    t: T,
)
    requires
        wf_state(w),
        payload_pinned(w, lvl, idx, r, t),
        0 <= lvl < w.len(),
        0 <= idx < slot_count(w),
        forall|j: int| 0 <= j < gs.len() ==> (#[trigger] gs[j]).0 < span_of(
            slot_count(w),
            w.len() - 1,
        ),
        forall|j: int| 0 <= j < gs.len() ==> (#[trigger] gs[j]).1 != t,
        !due.contains(t),
    ensures
        ({
            let out = resched(w, gs, due);
            &&& wf_state(out.0)
            &&& out.0.len() == w.len()
            &&& slot_count(out.0) == slot_count(w)
            &&& forall|j: int| 0 <= j < w.len() ==> (#[trigger] out.0[j].cursor) == w[j].cursor
            &&& payload_pinned(out.0, lvl, idx, r, t)
            &&& !out.1.contains(t)
        }),
    decreases gs.len(),
{
    let s = slot_count(w);
    let n = w.len() as int;
    if gs.len() == 0 {
    } else {
        let e = gs[0];
        let rest = gs.remove(0);
        assert forall|j: int| 0 <= j < rest.len() implies (#[trigger] rest[j]).0 < span_of(s, n - 1)
            && rest[j].1 != t by {
            assert(rest[j] == gs[j + 1]);
        }
        if e.0 == 0 {
            let due2 = due.push(e.1);
            assert(!due2.contains(t)) by {
                if due2.contains(t) {
                    let i = choose|i: int| 0 <= i < due2.len() && due2[i] == t;
                    if i < due.len() {
                        assert(due[i] == t);
                    } else {
                        assert(due2[i] == e.1);
                    }
                }
            }
            lemma_resched_pins(w, rest, due2, lvl, idx, r, t);
        } else {
            lemma_pow_increases(s as nat, (n - 1) as nat, n as nat);
            assert(sched_ok(w, e.0 as int));
            lemma_sched_insert_wf(w, e.0 as int, e.1);
            let w2 = sched_insert(w, e.0 as int, e.1);
            let l = sched_level(w, e.0 as int);
            let si = sched_slot(w, e.0 as int);
            assert(payload_pinned(w2, lvl, idx, r, t)) by {
                let j0 = choose|j: int|
                    0 <= j < w[lvl].slots[idx].len() && (#[trigger] w[lvl].slots[idx][j]) == ((
                    (r as usize),
                    t,
                ));
                assert(w2[lvl].slots[idx][j0] == (((r as usize), t)));
                assert forall|k: int, i: int, j: int|
                    0 <= k < w2.len() && 0 <= i < w2[k].slots.len() && 0 <= j
                        < w2[k].slots[i].len() && (#[trigger] w2[k].slots[i][j]).1 == t implies k
                    == lvl && i == idx && w2[k].slots[i][j] == (((r as usize), t)) by {
                    if k == l && i == si {
                        if j < w[k].slots[i].len() {
                            assert(w2[k].slots[i][j] == w[k].slots[i][j]);
                        } else {
                            assert(w2[k].slots[i][j].1 == e.1);
                        }
                    } else {
                        assert(w2[k].slots[i] == w[k].slots[i]);
                    }
                }
                assert forall|j1: int, j2: int|
                    0 <= j1 < w2[lvl].slots[idx].len() && 0 <= j2 < w2[lvl].slots[idx].len() && (
                    #[trigger] w2[lvl].slots[idx][j1]).1 == t && (
                #[trigger] w2[lvl].slots[idx][j2]).1 == t implies j1 == j2 by {
                    if l == lvl && si == idx {
                        if j1 < w[lvl].slots[idx].len() && j2 < w[lvl].slots[idx].len() {
                            assert(w2[lvl].slots[idx][j1] == w[lvl].slots[idx][j1]);
                            assert(w2[lvl].slots[idx][j2] == w[lvl].slots[idx][j2]);
                        } else if j1 >= w[lvl].slots[idx].len() {
                            assert(w2[lvl].slots[idx][j1].1 == e.1);
                        } else {
                            assert(w2[lvl].slots[idx][j2].1 == e.1);
                        }
                    } else {
                        assert(w2[lvl].slots[idx] == w[lvl].slots[idx]);
                    }
                }
            }
            lemma_resched_pins(w2, rest, due, lvl, idx, r, t);
        }
    }
}

/// One tick pass that does not drain the pinned slot leaves the pinned
/// payload in place and yields no due payload equal to it.
proof fn lemma_step_pins<T>(w: Seq<RingState<T>>, lvl: int, idx: int, r: int, t: T)
    requires
        wf_state(w),
        payload_pinned(w, lvl, idx, r, t),
        0 <= lvl < w.len(),
        0 <= idx < slot_count(w),
        wrapped_below(w, lvl) ==> (w[lvl].cursor + 1) % slot_count(w) != idx,
    ensures
        ({
            let out = step(w);
            &&& wf_state(out.0)
            &&& out.0.len() == w.len()
            &&& slot_count(out.0) == slot_count(w)
            &&& forall|j: int| 0 <= j < w.len() ==> (#[trigger] out.0[j].cursor) == (
            if wrapped_below(w, j) {
                (w[j].cursor + 1) % slot_count(w)
            } else {
                w[j].cursor
            })
            &&& payload_pinned(out.0, lvl, idx, r, t)
            &&& !out.1.contains(t)
        }),
{
    let s = slot_count(w);
    let n = w.len() as int;
    let wa = rings_advanced_below(w, n);
    lemma_advanced_wf(w, n);
    lemma_graduated_bound(w, n);
    let c1 = (w[0].cursor + 1) % s;
    vstd::arithmetic::div_mod::lemma_mod_division_less_than_divisor(w[0].cursor + 1, s);
    assert(wa[lvl].slots[idx] == w[lvl].slots[idx]) by {
        if wrapped_below(w, lvl) {
            let cl = (w[lvl].cursor + 1) % s;
            vstd::arithmetic::div_mod::lemma_mod_division_less_than_divisor(w[lvl].cursor + 1, s);
            assert(cl != idx);
        }
    }
    assert(payload_pinned(wa, lvl, idx, r, t)) by {
        assert forall|k: int, i: int, j: int|
            0 <= k < wa.len() && 0 <= i < wa[k].slots.len() && 0 <= j < wa[k].slots[i].len() && (
            #[trigger] wa[k].slots[i][j]).1 == t implies k == lvl && i == idx && wa[k].slots[i][j]
            == (((r as usize), t)) by {
            if wrapped_below(w, k) {
                let ck = (w[k].cursor + 1) % s;
                vstd::arithmetic::div_mod::lemma_mod_division_less_than_divisor(
                    w[k].cursor + 1,
                    s,
                );
                if i == ck {
                    assert(wa[k].slots[i].len() == 0);
                } else {
                    assert(wa[k].slots[i] == w[k].slots[i]);
                }
            } else {
                assert(wa[k] == w[k]);
            }
        }
    }
    assert(!due_now(w).contains(t)) by {
        if due_now(w).contains(t) {
            let i = choose|i: int| 0 <= i < due_now(w).len() && due_now(w)[i] == t;
            assert(w[0].slots[c1][i].1 == t);
            assert(lvl == 0 && c1 == idx);
        }
    }
    lemma_graduated_avoids(w, n, lvl, idx, t);
    lemma_resched_pins(wa, graduated_below(w, n), due_now(w), lvl, idx, r, t);
}

/// While fewer base ticks have elapsed than the pinned ring-1 slot's due
/// point, the two finest cursors advance like the digits of the tick count
/// and the pinned payload neither moves nor fires.
proof fn lemma_survives_ring1<T>(w: Seq<RingState<T>>, o: int, r: int, t: T, m: int, steps: nat)
    requires
        wf_state(w),
        w.len() >= 2,
        payload_pinned(w, 1, o, r, t),
        1 <= o < slot_count(w),
        m >= 0,
        w[0].cursor == m % slot_count(w),
        w[1].cursor == m / slot_count(w),
        m + steps < o * slot_count(w),
    ensures
        ({
            let out = run(w, steps);
            &&& wf_state(out.0)
            &&& out.0.len() == w.len()
            &&& slot_count(out.0) == slot_count(w)
            &&& payload_pinned(out.0, 1, o, r, t)
            &&& out.0[0].cursor == (m + steps) % slot_count(w)
            &&& out.0[1].cursor == (m + steps) / slot_count(w)
            &&& !out.1.contains(t)
        }),
    decreases steps,
{
    let s = slot_count(w);
    if steps == 0 {
    } else {
        lemma_div_step(m, s);
        assert(m + 1 <= o * s - 1);
        vstd::arithmetic::div_mod::lemma_div_is_ordered(m + 1, o * s - 1, s);
        assert((o * s - 1) / s == o - 1) by {
            assert(o * s - 1 == (o - 1) * s + (s - 1)) by (nonlinear_arith);
            vstd::arithmetic::div_mod::lemma_fundamental_div_mod_converse(
                o * s - 1,
                s,
                o - 1,
                s - 1,
            );
        }
        assert((m + 1) / s <= o - 1);
        assert(m / s <= o - 1);
        assert(!wrapped_below(w, 2)) by {
            assert(w[1].cursor <= o - 1 < s - 1 || o == s - 1 || true);
            if wrapped_below(w, 2) {
                assert(w[1].cursor == s - 1);
                assert(m / s == s - 1);
                assert(o - 1 >= s - 1);
            }
        }
        assert(wrapped_below(w, 1) ==> (w[1].cursor + 1) % s != o) by {
            if wrapped_below(w, 1) {
                assert(w[0].cursor == s - 1);
                assert(m % s == s - 1);
                assert((m + 1) % s == 0);
                assert((m + 1) / s == m / s + 1);
                assert(w[1].cursor + 1 == (m + 1) / s);
                assert(w[1].cursor + 1 <= o - 1);
                lemma_small_mod((w[1].cursor + 1) as nat, s as nat);
            }
        }
        lemma_step_pins(w, 1, o, r, t);
        let w1 = step(w).0;
        assert(w1[0].cursor == (m + 1) % s) by {
            lemma_mod_shift(m, 1, s);
        }
        assert(w1[1].cursor == (m + 1) / s) by {
            if wrapped_below(w, 1) {
                assert((m + 1) % s == 0);
                assert(w1[1].cursor == (w[1].cursor + 1) % s);
                assert(w[1].cursor + 1 <= o - 1 < s);
                lemma_small_mod((w[1].cursor + 1) as nat, s as nat);
            } else {
                assert(w[0].cursor != s - 1);
                assert((m + 1) % s != 0);
            }
        }
        lemma_survives_ring1(w1, o, r, t, m + 1, (steps - 1) as nat);
        assert(run(w, steps).0 == run(w1, (steps - 1) as nat).0);
        assert(run(w, steps).1 == step(w).1 + run(w1, (steps - 1) as nat).1);
        assert(!run(w, steps).1.contains(t)) by {
            if run(w, steps).1.contains(t) {
                let i = choose|i: int| 0 <= i < run(w, steps).1.len() && run(w, steps).1[i] == t;
                if i < step(w).1.len() {
                    assert(step(w).1[i] == t);
                } else {
                    assert(run(w1, (steps - 1) as nat).1[i - step(w).1.len()] == t);
                }
            }
        }
    }
}

/// When ring 0 wraps but ring 1 does not, ring 1 is the only cascading ring
/// that drains in the pass.
proof fn lemma_graduated_only_ring1<T>(w: Seq<RingState<T>>, k: int)
    requires
        wf_state(w),
        2 <= k <= w.len(),
        w[0].cursor == slot_count(w) - 1,
        w[1].cursor != slot_count(w) - 1,
    ensures
        graduated_below(w, k) == drained_entries(w, 1),
    decreases k,
{
    if k == 2 {
        assert(wrapped_below(w, 1));
        assert(graduated_below(w, 1) == Seq::<(usize, T)>::empty());
        assert(graduated_below(w, 2) == graduated_below(w, 1) + drained_entries(w, 1));
        assert(Seq::<(usize, T)>::empty() + drained_entries(w, 1) =~= drained_entries(w, 1));
    } else {
        lemma_graduated_only_ring1(w, k - 1);
        assert(!wrapped_below(w, k - 1)) by {
            if wrapped_below(w, k - 1) {
                assert(w[1].cursor == slot_count(w) - 1);
            }
        }
        assert(graduated_below(w, k) =~= graduated_below(w, k - 1));
    }
}

/// The pass in which ring 1's cursor reaches the pinned slot: the pinned
/// entry is drained, and either comes due at once (residual 0) or is
/// re-scheduled alone into the ring-0 slot its residual selects.
proof fn lemma_drain_ring1<T>(w: Seq<RingState<T>>, o: int, r: int, t: T)
    requires
        wf_state(w),
        w.len() >= 2,
        payload_pinned(w, 1, o, r, t),
        1 <= o < slot_count(w),
        0 <= r < slot_count(w),
        w[0].cursor == slot_count(w) - 1,
        w[1].cursor == o - 1,
    ensures
        ({
            let out = step(w);
            &&& wf_state(out.0)
            &&& out.0.len() == w.len()
            &&& slot_count(out.0) == slot_count(w)
            &&& out.0[0].cursor == 0
            &&& (r == 0 ==> out.1.contains(t))
            &&& (r >= 1 ==> payload_only_in_slot(out.0, r, t) && !out.1.contains(t))
        }),
{
    let s = slot_count(w);
    let n = w.len() as int;
    let wa = rings_advanced_below(w, n);
    lemma_advanced_wf(w, n);
    lemma_graduated_bound(w, n);
    lemma_pow_increases(s as nat, 1, w.len());
    vstd::arithmetic::power::lemma_pow1(s);
    assert(wrapped_below(w, 1));
    lemma_small_mod(o as nat, s as nat);
    vstd::arithmetic::div_mod::lemma_mod_self_0(s);
    assert(wa[0].cursor == 0);
    assert(wa[1].slots[o].len() == 0);
    assert(!state_has_payload(wa, t)) by {
        if state_has_payload(wa, t) {
            let (k, i, j) = choose|k: int, i: int, j: int|
                0 <= k < wa.len() && 0 <= i < wa[k].slots.len() && 0 <= j < wa[k].slots[i].len()
                    && (#[trigger] wa[k].slots[i][j]).1 == t;
            if wrapped_below(w, k) {
                let ck = (w[k].cursor + 1) % s;
                vstd::arithmetic::div_mod::lemma_mod_division_less_than_divisor(
                    w[k].cursor + 1,
                    s,
                );
                if i == ck {
                    assert(wa[k].slots[i].len() == 0);
                } else {
                    assert(wa[k].slots[i] == w[k].slots[i]);
                    assert(k == 1 && i == o);
                    assert(ck == o);
                }
            } else {
                assert(wa[k] == w[k]);
                assert(k == 1 && i == o);
                assert(wrapped_below(w, 1));
            }
        }
    }
    assert(!due_now(w).contains(t)) by {
        if due_now(w).contains(t) {
            let c1 = (w[0].cursor + 1) % s;
            let i = choose|i: int| 0 <= i < due_now(w).len() && due_now(w)[i] == t;
            assert(w[0].slots[c1][i].1 == t);
        }
    }
    lemma_graduated_only_ring1(w, n);
    let gs = graduated_below(w, n);
    assert(gs == w[1].slots[o]);
    let j0 = choose|j: int|
        0 <= j < w[1].slots[o].len() && (#[trigger] w[1].slots[o][j]) == (((r as usize), t));
    assert forall|p: int| 0 <= p < gs.len() && p != j0 implies (#[trigger] gs[p]).1 != t by {
        if gs[p].1 == t {
            assert(w[1].slots[o][p].1 == t);
            assert(w[1].slots[o][j0].1 == t);
        }
    }
    assert(gs =~= gs.take(j0) + gs.skip(j0));
    lemma_resched_split(wa, gs.take(j0), gs.skip(j0), due_now(w));
    assert forall|p: int| 0 <= p < gs.take(j0).len() implies (#[trigger] gs.take(j0)[p]).0
        < span_of(s, n - 1) && gs.take(j0)[p].1 != t by {
        assert(gs.take(j0)[p] == gs[p]);
    }
    lemma_resched_clean(wa, gs.take(j0), due_now(w), t);
    let mid = resched(wa, gs.take(j0), due_now(w));
    let rest = gs.skip(j0);
    assert(rest[0] == gs[j0]);
    assert(gs[j0] == (((r as usize), t)));
    assert(rest.remove(0) =~= gs.skip(j0 + 1));
    assert forall|p: int| 0 <= p < rest.remove(0).len() implies (#[trigger] rest.remove(0)[p]).0
        < span_of(s, n - 1) && rest.remove(0)[p].1 != t by {
        assert(rest.remove(0)[p] == gs[j0 + 1 + p]);
    }
    assert(mid.0[0].cursor == 0);
    assert(step(w) == resched(wa, gs, due_now(w)));
    assert(resched(wa, gs, due_now(w)) == resched(mid.0, rest, mid.1));
    if r == 0 {
        assert((r as usize) == 0usize);
        assert(resched(mid.0, rest, mid.1) == resched(mid.0, rest.remove(0), mid.1.push(t)));
        lemma_resched_prefix(mid.0, rest.remove(0), mid.1.push(t), Seq::<T>::empty());
        assert(mid.1.push(t) + Seq::<T>::empty() =~= mid.1.push(t));
        let fin = resched(mid.0, rest.remove(0), mid.1.push(t));
        assert(fin.1 == mid.1.push(t) + resched(mid.0, rest.remove(0), Seq::<T>::empty()).1);
        assert(fin.1[mid.1.len() as int] == t);
        assert(fin.1.contains(t));
        lemma_resched_clean(mid.0, rest.remove(0), Seq::<T>::empty(), t);
        assert(fin.0 == resched(mid.0, rest.remove(0), Seq::<T>::empty()).0);
        assert(wf_state(fin.0) && fin.0[0].cursor == 0);
    } else {
        assert((r as usize) != 0usize);
        assert(resched(mid.0, rest, mid.1) == resched(
            sched_insert(mid.0, r, t),
            rest.remove(0),
            mid.1,
        ));
        vstd::arithmetic::power::lemma_pow0(s);
        assert(sched_ok(mid.0, r));
        lemma_sched_insert_wf(mid.0, r, t);
        let w2 = sched_insert(mid.0, r, t);
        assert(sched_level(mid.0, r) == 0);
        assert(sched_slot(mid.0, r) == r) by {
            vstd::arithmetic::div_mod::lemma_fundamental_div_mod_converse(r, 1, r, 0);
            lemma_small_mod(r as nat, s as nat);
        }
        assert(payload_only_in_slot(w2, r, t)) by {
            let pushed = mid.0[0].slots[r].push(((sched_residual(mid.0, r) as usize), t));
            assert(w2[0].slots[r] == pushed);
            assert(pushed[pushed.len() - 1].1 == t);
            assert forall|a: int, i: int, j: int|
                0 <= a < w2.len() && 0 <= i < w2[a].slots.len() && 0 <= j < w2[a].slots[i].len()
                    && !(a == 0 && i == r) implies (#[trigger] w2[a].slots[i][j]).1 != t by {
                assert(w2[a].slots[i] == mid.0[a].slots[i]);
                if mid.0[a].slots[i][j].1 == t {
                    assert(state_has_payload(mid.0, t));
                }
            }
        }
        lemma_resched_keeps(w2, rest.remove(0), mid.1, r, t);
    }
}

/// Cascade correctness through one hop: on a well-formed wheel whose two
/// finest cursors stand at the start of their cycles and which does not
/// already hold payload `t`, scheduling `t` with a delay that level 1
/// accepts and then ticking one pass at a time yields `t` on exactly the
/// `d`-th pass and on no earlier pass: the entry is drained from ring 1
/// when the cursors reach its slot, and its residual then plays out on
/// ring 0 without advancing or delaying the deadline. (From a mid-cycle
/// state this fails: the first coarse-ring advance comes early.)
pub proof fn lemma_cascade_exact_delay<T>(w: Seq<RingState<T>>, d: int, t: T, k: int)
    requires
        wf_state(w),
        w.len() >= 2,
        slot_count(w) <= d < slot_count(w) * slot_count(w),
        w[0].cursor == 0,
        w[1].cursor == 0,
        !state_has_payload(w, t),
        1 <= k <= d,
    ensures
        k < d ==> !run(sched_insert(w, d, t), k as nat).1.contains(t),
        k == d ==> run(sched_insert(w, d, t), k as nat).1.contains(t),
{
    let s = slot_count(w);
    let n = w.len() as int;
    lemma_span_up(s, 1);
    vstd::arithmetic::power::lemma_pow0(s);
    vstd::arithmetic::power::lemma_pow1(s);
    lemma_pow_increases(s as nat, 2, w.len());
    assert(span_of(s, 2) == s * s);
    assert(sched_ok(w, d));
    assert(sched_level(w, d) == 1) by {
        assert(crate::model::find_level(s, n, d, 0) == crate::model::find_level(s, n, d, 1));
        assert(crate::model::find_level(s, n, d, 1) == 1);
    }
    let o = d / s;
    let r = d % s;
    vstd::arithmetic::div_mod::lemma_mod_division_less_than_divisor(d, s);
    lemma_fundamental_div_mod(d, s);
    assert(d == s * o + r);
    vstd::arithmetic::div_mod::lemma_multiply_divide_lt(d, s, s);
    assert(o < s);
    assert(o >= 1) by (nonlinear_arith)
        requires
            d == s * o + r,
            d >= s,
            0 <= r < s,
            s >= 2,
    ;
    lemma_sched_insert_wf(w, d, t);
    let w1 = sched_insert(w, d, t);
    assert(sched_slot(w, d) == o) by {
        lemma_small_mod(o as nat, s as nat);
    }
    assert(sched_residual(w, d) == r);
    assert(payload_pinned(w1, 1, o, r, t)) by {
        let pushed = w[1].slots[o].push(((r as usize), t));
        assert(w1[1].slots[o] == pushed);
        assert(pushed[pushed.len() - 1] == (((r as usize), t)));
        assert forall|a: int, i: int, j: int|
            0 <= a < w1.len() && 0 <= i < w1[a].slots.len() && 0 <= j < w1[a].slots[i].len() && (
            #[trigger] w1[a].slots[i][j]).1 == t implies a == 1 && i == o && w1[a].slots[i][j] == ((
        (r as usize),
        t,
        )) by {
            if !(a == 1 && i == o) {
                assert(w1[a].slots[i] == w[a].slots[i]);
                assert(state_has_payload(w, t));
            } else {
                if j < w[1].slots[o].len() {
                    assert(w1[a].slots[i][j] == w[a].slots[i][j]);
                    assert(state_has_payload(w, t));
                }
            }
        }
        assert forall|j1: int, j2: int|
            0 <= j1 < w1[1].slots[o].len() && 0 <= j2 < w1[1].slots[o].len() && (
            #[trigger] w1[1].slots[o][j1]).1 == t && (#[trigger] w1[1].slots[o][j2]).1 == t
                implies j1 == j2 by {
            if j1 < w[1].slots[o].len() {
                assert(w1[1].slots[o][j1] == w[1].slots[o][j1]);
                assert(state_has_payload(w, t));
            }
            if j2 < w[1].slots[o].len() {
                assert(w1[1].slots[o][j2] == w[1].slots[o][j2]);
                assert(state_has_payload(w, t));
            }
        }
    }
    assert(w1[0].cursor == 0 && w1[1].cursor == 0);
    assert(slot_count(w1) == s && w1.len() == n);
    let drain_at = o * s;
    assert(d == drain_at + r);
    assert(drain_at >= 2) by (nonlinear_arith)
        requires
            o >= 1,
            s >= 2,
            drain_at == o * s,
    ;
    assert(0int % s == 0) by {
        lemma_small_mod(0, s as nat);
    }
    assert(0int / s == 0) by {
        vstd::arithmetic::div_mod::lemma_fundamental_div_mod_converse(0, s, 0, 0);
    }
    if k < drain_at {
        lemma_survives_ring1(w1, o, r, t, 0, k as nat);
    } else {
        lemma_survives_ring1(w1, o, r, t, 0, (drain_at - 1) as nat);
        let wd = run(w1, (drain_at - 1) as nat).0;
        assert(wd[0].cursor == s - 1 && wd[1].cursor == o - 1) by {
            assert(o * s - 1 == (o - 1) * s + (s - 1)) by (nonlinear_arith);
            vstd::arithmetic::div_mod::lemma_fundamental_div_mod_converse(
                o * s - 1,
                s,
                o - 1,
                s - 1,
            );
        }
        lemma_drain_ring1(wd, o, r, t);
        let w_after = step(wd).0;
        lemma_multi_step_tick_equivalence(w1, (drain_at - 1) as nat, 1);
        assert(run(step(wd).0, 0).1 == Seq::<T>::empty());
        assert(run(step(wd).0, 0).0 == step(wd).0);
        assert(run(wd, 1).1 =~= step(wd).1 + Seq::<T>::empty());
        assert(run(wd, 1).0 == step(wd).0);
        assert((drain_at - 1) as nat + 1 == drain_at as nat);
        assert(run(w1, drain_at as nat).0 == w_after);
        assert(run(w1, drain_at as nat).1 == run(w1, (drain_at - 1) as nat).1 + run(wd, 1).1);
        assert(!run(w1, (drain_at - 1) as nat).1.contains(t));
        if r == 0 {
            assert(k == d);
            assert(step(wd).1.contains(t));
            let i0 = choose|i: int| 0 <= i < step(wd).1.len() && step(wd).1[i] == t;
            assert(run(wd, 1).1[i0] == t);
            assert(run(w1, drain_at as nat).1[run(w1, (drain_at - 1) as nat).1.len() + i0] == t);
            assert(run(w1, k as nat).1.contains(t));
        } else {
            assert(!step(wd).1.contains(t));
            assert(!run(w1, drain_at as nat).1.contains(t)) by {
                if run(w1, drain_at as nat).1.contains(t) {
                    let i = choose|i: int|
                        0 <= i < run(w1, drain_at as nat).1.len() && (#[trigger] run(
                            w1,
                            drain_at as nat,
                        ).1[i]) == t;
                    if i < run(w1, (drain_at - 1) as nat).1.len() {
                        assert(run(w1, (drain_at - 1) as nat).1[i] == t);
                    } else {
                        assert(run(wd, 1).1[i - run(w1, (drain_at - 1) as nat).1.len()] == t);
                        assert(step(wd).1[i - run(w1, (drain_at - 1) as nat).1.len()] == t);
                    }
                }
            }
            if k == drain_at {
                assert(k < d);
            } else {
                let k2 = k - drain_at;
                assert(1 <= k2 <= r);
                lemma_multi_step_tick_equivalence(w1, drain_at as nat, k2 as nat);
                assert(drain_at as nat + k2 as nat == k as nat);
                assert(run(w1, k as nat).1 == run(w1, drain_at as nat).1 + run(
                    w_after,
                    k2 as nat,
                ).1);
                assert(r < s);
                assert((w_after[0].cursor + r) % s == r) by {
                    lemma_small_mod(r as nat, s as nat);
                }
                lemma_fires_from_slot(w_after, r, r, t, k2);
                if k < d {
                    assert(k2 < r);
                    assert(!run(w_after, k2 as nat).1.contains(t));
                    assert(!run(w1, k as nat).1.contains(t)) by {
                        if run(w1, k as nat).1.contains(t) {
                            let i = choose|i: int|
                                0 <= i < run(w1, k as nat).1.len() && (#[trigger] run(w1, k as nat).1[i]) == t;
                            if i < run(w1, drain_at as nat).1.len() {
                                assert(run(w1, drain_at as nat).1[i] == t);
                            } else {
                                assert(run(w_after, k2 as nat).1[i - run(
                                    w1,
                                    drain_at as nat,
                                ).1.len()] == t);
                            }
                        }
                    }
                } else {
                    assert(k2 == r);
                    assert(run(w_after, k2 as nat).1.contains(t));
                    let i1 = choose|i: int|
                        0 <= i < run(w_after, k2 as nat).1.len() && (#[trigger] run(
                            w_after,
                            k2 as nat,
                        ).1[i]) == t;
                    assert(run(w1, k as nat).1[run(w1, drain_at as nat).1.len() + i1] == t);
                    assert(run(w1, k as nat).1.contains(t));
                }
            }
        }
    }
}

/// Same-slot batching, firing half, at the finest level: two payloads
/// scheduled back to back with the same ring-0 delay on a wheel holding
/// neither come due in the same (`d`-th) pass, adjacent and in the order
/// they were scheduled, and in no earlier pass.
pub proof fn lemma_same_slot_same_tick<T>(w: Seq<RingState<T>>, d: int, t1: T, t2: T, k: int)
    requires
        wf_state(w),
        1 <= d < slot_count(w),
        !state_has_payload(w, t1),
        !state_has_payload(w, t2),
        1 <= k <= d,
    ensures
        ({
            let w2 = sched_insert(sched_insert(w, d, t1), d, t2);
            &&& k < d ==> !run(w2, k as nat).1.contains(t1) && !run(w2, k as nat).1.contains(t2)
            &&& k == d ==> exists|p: int|
                0 <= p && p + 1 < run(w2, k as nat).1.len() && (#[trigger] run(w2, k as nat).1[p])
                    == t1 && run(w2, k as nat).1[p + 1] == t2
        }),
{
    let s = slot_count(w);
    let n = w.len() as int;
    let c = w[0].cursor;
    vstd::arithmetic::power::lemma_pow0(s);
    vstd::arithmetic::power::lemma_pow1(s);
    lemma_pow_increases(s as nat, 1, w.len());
    assert(sched_ok(w, d));
    assert(sched_level(w, d) == 0);
    lemma_sched_insert_wf(w, d, t1);
    lemma_same_slot_batching(w, d, t1, t2);
    let w1 = sched_insert(w, d, t1);
    let w2 = sched_insert(w1, d, t2);
    lemma_sched_insert_wf(w1, d, t2);
    let idx = sched_slot(w, d);
    assert(idx == (c + d) % s);
    assert(w1[0].cursor == c);
    assert(w2[0].cursor == c);
    let base = w[0].slots[idx];
    let r = sched_residual(w, d);
    assert(w2[0].slots[idx] == base.push(((r as usize), t1)).push(((r as usize), t2)));
    let l1 = base.len() as int;
    assert(w2[0].slots[idx][l1].1 == t1);
    assert(w2[0].slots[idx][l1 + 1].1 == t2);
    assert(sched_slot(w1, d) == idx && sched_level(w1, d) == 0);
    assert forall|a: int, i: int, j: int|
        0 <= a < w2.len() && 0 <= i < w2[a].slots.len() && 0 <= j < w2[a].slots[i].len() && !(a == 0
            && i == idx) implies (#[trigger] w2[a].slots[i][j]).1 != t1 && w2[a].slots[i][j].1
        != t2 by {
        assert(w1[a].slots[i] == w[a].slots[i]);
        assert(w2[a].slots[i] == w[a].slots[i]);
        if w[a].slots[i][j].1 == t1 || w[a].slots[i][j].1 == t2 {
            assert(state_has_payload(w, w[a].slots[i][j].1));
        }
    }
    assert(payload_only_in_slot(w2, idx, t1));
    assert(payload_only_in_slot(w2, idx, t2));
    if k < d {
        assert forall|j: int| 1 <= j <= k implies #[trigger] ((c + j) % s) != idx by {
            lemma_mod_distinct(c, j, d, s);
        }
        lemma_survives(w2, idx, t1, k as nat);
        lemma_survives(w2, idx, t2, k as nat);
    } else {
        assert forall|j: int| 1 <= j <= d - 1 implies #[trigger] ((c + j) % s) != idx by {
            lemma_mod_distinct(c, j, d, s);
        }
        lemma_survives(w2, idx, t1, (d - 1) as nat);
        let wd = run(w2, (d - 1) as nat).0;
        assert(wd[0].cursor == (c + (d - 1)) % s);
        assert((wd[0].cursor + 1) % s == (c + d) % s) by {
            lemma_mod_shift(c + (d - 1), 1, s);
        }
        assert(wd[0].slots[idx][l1] == w2[0].slots[idx][l1]);
        assert(wd[0].slots[idx][l1 + 1] == w2[0].slots[idx][l1 + 1]);
        let fired = due_now(wd);
        assert(fired == payloads_of(wd[0].slots[idx]));
        assert(fired[l1] == t1 && fired[l1 + 1] == t2);
        assert(l1 + 1 < fired.len());
        let nd = wd.len() as int;
        let wa = rings_advanced_below(wd, nd);
        let gs = graduated_below(wd, nd);
        lemma_resched_prefix(wa, gs, fired, Seq::<T>::empty());
        assert(fired + Seq::<T>::empty() =~= fired);
        assert(step(wd).1 == fired + resched(wa, gs, Seq::<T>::empty()).1);
        assert(step(wd).1[l1] == t1 && step(wd).1[l1 + 1] == t2);
        assert(l1 + 1 < step(wd).1.len());
        lemma_multi_step_tick_equivalence(w2, (d - 1) as nat, 1);
        assert(run(step(wd).0, 0).1 == Seq::<T>::empty());
        assert(run(wd, 1).1 =~= step(wd).1 + Seq::<T>::empty());
        assert(run(w2, d as nat).1 == run(w2, (d - 1) as nat).1 + run(wd, 1).1);
        let p = run(w2, (d - 1) as nat).1.len() as int + l1;
        assert(run(w2, d as nat).1[p] == t1 && run(w2, d as nat).1[p + 1] == t2);
        assert(p + 1 < run(w2, d as nat).1.len());
    }
}

/// Multi-step tick equivalence: advancing by `m + n` ticks reaches the same
/// wheel state, and yields the same due payloads in the same order, as
/// advancing by `m` ticks and then by `n` ticks, concatenating the results.
/// In particular, `tick(n)` equals `n` calls of `tick(1)` concatenated.
pub proof fn lemma_multi_step_tick_equivalence<T>(w: Seq<RingState<T>>, m: nat, n: nat)
    ensures
        run(w, m + n).0 == run(run(w, m).0, n).0,
        run(w, m + n).1 == run(w, m).1 + run(run(w, m).0, n).1,
    decreases m,
{
    if m == 0 {
        assert(run(w, n).1 =~= Seq::<T>::empty() + run(w, n).1);
    } else {
        let first = crate::model::step(w);
        lemma_multi_step_tick_equivalence(first.0, (m - 1) as nat, n);
        assert((m + n - 1) as nat == (m - 1) as nat + n);
        assert(first.1 + (run(first.0, (m - 1) as nat).1 + run(run(first.0, (m - 1) as nat).0, n).1)
            =~= (first.1 + run(first.0, (m - 1) as nat).1) + run(run(first.0, (m - 1) as nat).0, n).1);
    }
}

} // verus!
