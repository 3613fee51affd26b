//! The hierarchical wheel itself: level selection, scheduling, and the
//! cascading tick.

use vstd::prelude::*;
use vstd::arithmetic::power::pow;
use vstd::arithmetic::power::lemma_pow_increases;

use crate::model::RingState;
use crate::model::due_now;
use crate::model::drained_entries;
use crate::model::find_level;
use crate::model::graduated_below;
use crate::model::lemma_advanced_wf;
use crate::model::lemma_graduated_bound;
use crate::model::lemma_resched_prefix;
use crate::model::payloads_of;
use crate::model::resched;
use crate::model::ring_advanced;
use crate::model::rings_advanced_below;
use crate::model::run;
use crate::model::step;
use crate::model::wrapped_below;
use crate::laws::lemma_multi_step_tick_equivalence;
use crate::model::fresh_state;
use crate::model::lemma_find_level_found;
use crate::model::lemma_sched_insert_wf;
use crate::model::lemma_span_up;
use crate::model::norm_delay;
use crate::model::sched_insert;
use crate::model::sched_level;
use crate::model::sched_ok;
use crate::model::sched_slot;
use crate::model::slot_count;
use crate::model::span_of;
use crate::model::wf_state;
use crate::ring::Ring;

verus! {

pub struct HierarchicalTimingWheel<T> {
    rings: Vec<Ring<T>>,
}

/// The only failure: the requested delay exceeds the topmost ring's capacity.
#[derive(Debug)]
pub enum ScheduleError {
    DelayTooLarge,
}

impl<T> View for HierarchicalTimingWheel<T> {
    type V = Seq<RingState<T>>;

    closed spec fn view(&self) -> Seq<RingState<T>> {
        self.rings@.map_values(|r: Ring<T>| r@)
    }
}

impl<T> HierarchicalTimingWheel<T> {
    pub open spec fn wf(&self) -> bool {
        wf_state(self@)
    }

    pub fn new(levels: u32, slot_capacity: usize, slots_per_level: usize) -> (w: Self)
        requires
            levels >= 1,
            slots_per_level >= 2,
            pow(slots_per_level as int, levels as nat) <= usize::MAX as int,
        ensures
            w@ == fresh_state::<T>(levels as int, slots_per_level as int),
            w.wf(),
    {
        let mut rings: Vec<Ring<T>> = Vec::new();
        let mut level: u32 = 0;
        while level < levels
            invariant
                level <= levels,
                rings@.len() == level,
                forall|k: int| 0 <= k < level ==> (#[trigger] rings@[k])@
                    == fresh_state::<T>(levels as int, slots_per_level as int)[k],
            decreases levels - level,
        {
            let r = Ring::new(level, slot_capacity, slots_per_level);
            proof {
                assert(r@ == fresh_state::<T>(levels as int, slots_per_level as int)[level as int]);
            }
            rings.push(r);
            level = level + 1;
        }
        let w = HierarchicalTimingWheel { rings };
        proof {
            assert(w@ =~= fresh_state::<T>(levels as int, slots_per_level as int));
            lemma_fresh_wf::<T>(levels as int, slots_per_level as int);
            assert(pow(slots_per_level as int, levels as nat) <= usize::MAX as int);
        }
        w
    }

    /// Place `timer` in the first ring whose span/capacity window holds the
    /// (normalized) delay; report the chosen level and slot, or reject a
    /// delay at or beyond the topmost ring's capacity.
    pub fn schedule(&mut self, delay_ticks: usize, timer: T) -> (r: Result<
        (usize, usize),
        ScheduleError,
    >)
        requires
            old(self).wf(),
        ensures
            final(self).wf(),
            sched_ok(old(self)@, delay_ticks as int) ==> {
                &&& r matches Ok(ls) && ls.0 as int == sched_level(old(self)@, delay_ticks as int)
                    && ls.1 as int == sched_slot(old(self)@, delay_ticks as int)
                &&& final(self)@ == sched_insert(old(self)@, delay_ticks as int, timer)
            },
            !sched_ok(old(self)@, delay_ticks as int) ==> {
                &&& r matches Err(e) && e == ScheduleError::DelayTooLarge
                &&& final(self)@ == old(self)@
            },
    {
        let ghost w0 = self@;
        let ghost s = slot_count(w0);
        let d = if delay_ticks == 0 {
            1
        } else {
            delay_ticks
        };
        let n = self.rings.len();
        proof {
            assert(n == w0.len());
        }
        let mut level: usize = 0;
        while level < n
            invariant
                self.rings@ == old(self).rings@,
                self@ == w0,
                wf_state(w0),
                n == w0.len(),
                s == slot_count(w0),
                level <= n,
                d as int == norm_delay(delay_ticks as int),
                find_level(s, n as int, d as int, 0) == find_level(s, n as int, d as int, level as int),
            decreases n - level,
        {
            proof {
                assert(w0[level as int] == self.rings@[level as int]@);
                lemma_pow_increases(s as nat, (level + 1) as nat, n as nat);
            }
            let sp = self.rings[level].span();
            let cap = self.rings[level].capacity();
            if d < cap && d >= sp {
                proof {
                    assert(find_level(s, n as int, d as int, level as int) == level as int);
                    assert(sched_level(w0, delay_ticks as int) == level as int);
                    assert(sched_ok(w0, delay_ticks as int));
                    lemma_span_up(s, level as int);
                    vstd::arithmetic::div_mod::lemma_multiply_divide_lt(
                        d as int,
                        span_of(s, level as int),
                        s,
                    );
                }
                let mut ring = self.rings.remove(level);
                let slot = ring.place(d, timer);
                self.rings.insert(level, ring);
                proof {
                    assert(self@ =~= w0.update(level as int, ring@));
                    lemma_sched_insert_wf(w0, delay_ticks as int, timer);
                    assert(self@ =~= sched_insert(w0, delay_ticks as int, timer));
                }
                return Ok((level, slot));
            }
            proof {
                assert(find_level(s, n as int, d as int, level as int)
                    == find_level(s, n as int, d as int, level as int + 1));
            }
            level = level + 1;
        }
        proof {
            assert(find_level(s, n as int, d as int, n as int) == n as int);
            if sched_ok(w0, delay_ticks as int) {
                vstd::arithmetic::power::lemma_pow0(s);
                lemma_find_level_found(s, n as int, d as int, 0);
                assert(false);
            }
        }
        Err(ScheduleError::DelayTooLarge)
    }

    /// Advance the wheel by `steps` base ticks, one cascade pass per tick,
    /// and return every payload that came due, in pass order.
    pub fn tick(&mut self, steps: usize) -> (due: Vec<T>)
        requires
            old(self).wf(),
        ensures
            final(self).wf(),
            final(self)@ == run(old(self)@, steps as nat).0,
            due@ == run(old(self)@, steps as nat).1,
    {
        let ghost worig = self@;
        let mut due: Vec<T> = Vec::new();
        let mut pass: usize = 0;
        while pass < steps
            invariant
                self.wf(),
                pass <= steps,
                self@ == run(worig, pass as nat).0,
                due@ == run(worig, pass as nat).1,
            decreases steps - pass,
        {
            let ghost w0 = self@;
            let ghost s = slot_count(w0);
            let ghost due_before = due@;
            let n = self.rings.len();
            let mut graduated: Vec<(usize, T)> = Vec::new();
            let mut i: usize = 0;
            let mut prev_ticked = false;
            let mut prev_cursor: usize = 0;
            proof {
                assert(n == w0.len());
                assert(self@ =~= rings_advanced_below(w0, 0));
            }
            while i < n
                invariant
                    wf_state(w0),
                    n == w0.len(),
                    n == self.rings@.len(),
                    s == slot_count(w0),
                    i <= n,
                    self@ == rings_advanced_below(w0, i as int),
                    i >= 1 ==> prev_ticked == wrapped_below(w0, i as int - 1),
                    i >= 1 && prev_ticked ==> prev_cursor as int == (w0[i as int - 1].cursor + 1)
                        % s,
                    graduated@ == graduated_below(w0, i as int),
                    due@ == if i >= 1 {
                        due_before + due_now(w0)
                    } else {
                        due_before
                    },
                decreases n - i,
            {
                let should_tick = i == 0 || (prev_ticked && prev_cursor == 0);
                proof {
                    if i >= 1 {
                        if prev_ticked && prev_cursor == 0 {
                            let c = w0[i as int - 1].cursor;
                            if c + 1 < s {
                                vstd::arithmetic::div_mod::lemma_small_mod(
                                    (c + 1) as nat,
                                    s as nat,
                                );
                                assert(false);
                            }
                            assert(c == s - 1);
                            assert forall|j: int| 0 <= j < i as int implies (#[trigger] w0[j].cursor)
                                == s - 1 by {}
                            assert(wrapped_below(w0, i as int));
                        } else {
                            if prev_ticked {
                                let c = w0[i as int - 1].cursor;
                                if c == s - 1 {
                                    vstd::arithmetic::div_mod::lemma_mod_self_0(s);
                                    assert(prev_cursor as int == s % s);
                                    assert(false);
                                }
                                assert(!wrapped_below(w0, i as int));
                            } else {
                                if wrapped_below(w0, i as int) {
                                    assert(wrapped_below(w0, i as int - 1));
                                }
                            }
                        }
                    }
                    assert(should_tick == wrapped_below(w0, i as int));
                }
                if should_tick {
                    let ghost rings_before = self.rings@;
                    let ghost view_before = self@;
                    let mut ring = self.rings.remove(i);
                    proof {
                        assert(ring@ == rings_advanced_below(w0, i as int)[i as int]);
                        assert(ring@ == w0[i as int]);
                    }
                    let timers = ring.tick();
                    prev_cursor = ring.cursor_pos();
                    self.rings.insert(i, ring);
                    proof {
                        assert(timers@ == drained_entries(w0, i as int));
                        let rr = rings_before.remove(i as int);
                        rings_before.remove_ensures(i as int);
                        rr.insert_ensures(i as int, ring);
                        assert(self.rings@ == rr.insert(i as int, ring));
                        assert forall|j: int| 0 <= j < n implies #[trigger] self@[j]
                            == rings_advanced_below(w0, i as int + 1)[j] by {
                            if j < i as int {
                                assert(self.rings@[j] == rr[j]);
                                assert(rr[j] == rings_before[j]);
                                assert(self@[j] == rings_before[j]@);
                                assert(view_before[j] == rings_before[j]@);
                                assert(view_before[j] == rings_advanced_below(w0, i as int)[j]);
                                assert(rings_advanced_below(w0, i as int)[j]
                                    == rings_advanced_below(w0, i as int + 1)[j]);
                            } else if j == i as int {
                                assert(self.rings@[j] == ring);
                                assert(self@[j] == ring@);
                                assert(w0[i as int].slots.len() == s);
                                assert(ring@ == ring_advanced(w0[i as int], s));
                            } else {
                                assert(self.rings@[j] == rr[j - 1]);
                                assert(rr[j - 1] == rings_before[j]);
                                assert(self@[j] == rings_before[j]@);
                                assert(view_before[j] == rings_before[j]@);
                                assert(view_before[j] == rings_advanced_below(w0, i as int)[j]);
                                assert(rings_advanced_below(w0, i as int)[j] == w0[j]);
                                assert(rings_advanced_below(w0, i as int + 1)[j] == w0[j]);
                            }
                        }
                        assert(self@ =~= rings_advanced_below(w0, i as int + 1));
                    }
                    if i == 0 {
                        push_payloads(&mut due, timers);
                        proof {
                            assert(due@ == due_before + due_now(w0));
                            assert(graduated@ == graduated_below(w0, i as int + 1));
                        }
                    } else {
                        let mut cascading = timers;
                        graduated.append(&mut cascading);
                        proof {
                            assert(graduated@ == graduated_below(w0, i as int + 1));
                        }
                    }
                } else {
                    proof {
                        assert forall|j: int| 0 <= j < n implies #[trigger] self@[j]
                            == rings_advanced_below(w0, i as int + 1)[j] by {}
                        assert(self@ =~= rings_advanced_below(w0, i as int + 1));
                        assert(graduated@ == graduated_below(w0, i as int + 1));
                    }
                }
                prev_ticked = should_tick;
                i = i + 1;
            }
            proof {
                lemma_advanced_wf(w0, n as int);
                lemma_graduated_bound(w0, n as int);
            }
            let ghost w1 = self@;
            let ghost gs_all = graduated@;
            let ghost due_mid = due@;
            while graduated.len() > 0
                invariant
                    wf_state(self@),
                    n == w0.len(),
                    self@.len() == n,
                    s == slot_count(self@),
                    s == slot_count(w0),
                    forall|j: int| 0 <= j < graduated@.len() ==> (#[trigger] graduated@[j]).0
                        < span_of(s, n as int - 1),
                    resched(self@, graduated@, due@) == resched(w1, gs_all, due_mid),
                decreases graduated@.len(),
            {
                let ghost gs_before = graduated@;
                let ghost state_before = self@;
                let ghost due_at = due@;
                let entry = graduated.remove(0);
                if entry.0 == 0 {
                    due.push(entry.1);
                    proof {
                        assert(resched(state_before, gs_before, due_at) == resched(
                            self@,
                            graduated@,
                            due@,
                        ));
                    }
                } else {
                    proof {
                        lemma_pow_increases(s as nat, (n - 1) as nat, n as nat);
                        assert(sched_ok(self@, entry.0 as int));
                    }
                    let placed = self.schedule(entry.0, entry.1);
                    proof {
                        assert(placed is Ok);
                        assert(self@ == sched_insert(state_before, entry.0 as int, entry.1));
                        assert(resched(state_before, gs_before, due_at) == resched(
                            self@,
                            graduated@,
                            due@,
                        ));
                        lemma_sched_insert_wf(state_before, entry.0 as int, entry.1);
                    }
                }
            }
            proof {
                assert(graduated@.len() == 0);
                assert(resched(self@, graduated@, due@) == (self@, due@));
                lemma_resched_prefix(w1, gs_all, due_before, due_now(w0));
                assert(due_mid == due_before + due_now(w0));
                assert(step(w0) == resched(w1, gs_all, due_now(w0)));
                assert(self@ == step(w0).0);
                assert(due@ =~= due_before + step(w0).1);
                lemma_multi_step_tick_equivalence(worig, pass as nat, 1);
                assert(run(step(w0).0, 0).0 == step(w0).0);
                assert(run(step(w0).0, 0).1 == Seq::<T>::empty());
                assert(run(w0, 1).0 == step(w0).0);
                assert(run(w0, 1).1 =~= step(w0).1);
                assert((pass + 1) as nat == pass as nat + 1);
            }
            pass = pass + 1;
        }
        due
    }
}

/// Append the payloads of the drained entries to `due`, preserving order.
fn push_payloads<T>(due: &mut Vec<T>, entries: Vec<(usize, T)>)
    ensures
        final(due)@ == old(due)@ + payloads_of(entries@),
{
    let ghost all = entries@;
    let ghost mut k: int = 0;
    let mut entries = entries;
    while entries.len() > 0
        invariant
            0 <= k <= all.len(),
            entries@ == all.subrange(k, all.len() as int),
            due@ == old(due)@ + payloads_of(all.take(k)),
        decreases entries@.len(),
    {
        let e = entries.remove(0);
        due.push(e.1);
        proof {
            assert(e == all[k]);
            assert(entries@ =~= all.subrange(k + 1, all.len() as int));
            assert(payloads_of(all.take(k + 1)) =~= payloads_of(all.take(k)).push(all[k].1));
            k = k + 1;
        }
    }
    proof {
        assert(all.take(all.len() as int) =~= all);
        assert(due@ == old(due)@ + payloads_of(all));
    }
}

/// Construct a wheel with `levels` rings of `slots_per_level` slots each;
/// `slot_capacity` only pre-sizes the slot queues and has no semantic effect.
pub fn hierarchical<T>(levels: u32, slot_capacity: usize, slots_per_level: usize) -> (w:
    HierarchicalTimingWheel<T>)
    requires
        levels >= 1,
        slots_per_level >= 2,
        pow(slots_per_level as int, levels as nat) <= usize::MAX as int,
    ensures
        w@ == fresh_state::<T>(levels as int, slots_per_level as int),
        w.wf(),
{
    HierarchicalTimingWheel::new(levels, slot_capacity, slots_per_level)
}

/// A freshly constructed wheel is well-formed.
proof fn lemma_fresh_wf<T>(levels: int, s: int)
    requires
        levels >= 1,
        s >= 2,
        pow(s, levels as nat) <= usize::MAX as int,
    ensures
        wf_state(fresh_state::<T>(levels, s)),
{
    let w = fresh_state::<T>(levels, s);
    assert(crate::model::slot_count(w) == s);
    assert forall|k: int, i: int, j: int|
        0 <= k < w.len() && 0 <= i < w[k].slots.len() && 0 <= j < w[k].slots[i].len() implies (
    #[trigger] w[k].slots[i][j]).0 < crate::model::span_of(s, k) by {
        assert(w[k].slots[i].len() == 0);
    }
}

} // verus!
