use vstd::prelude::*;

use crate::anchor::{counter_range, wrap, Anchor, MAX_ANCHORS};
use crate::profile::{all_blank, closed_anchors, opened_timer, DropTimer, Profiler};

verus! {

/// One step of a single-threaded program under instrumentation: a region is
/// entered, or the innermost open region is left, at the given cycle.
pub enum Event {
    Enter(usize, u64),
    Exit(u64),
}

/// The regions open after `events`, innermost last, each with its id and the
/// cycle at which it was entered.
pub open spec fn opens(events: Seq<Event>) -> Seq<(usize, u64)>
    decreases events.len(),
{
    if events.len() == 0 {
        Seq::empty()
    } else {
        let o = opens(events.drop_last());
        match events.last() {
            Event::Enter(i, t) => o.push((i, t)),
            Event::Exit(_) => o.drop_last(),
        }
    }
}

/// The cycle of the last event, or `t0` before any.
pub open spec fn last_time(events: Seq<Event>, t0: u64) -> u64 {
    if events.len() == 0 {
        t0
    } else {
        match events.last() {
            Event::Enter(_, t) => t,
            Event::Exit(t) => t,
        }
    }
}

/// Events that a session begun at cycle `t0` can see: valid region ids,
/// cycles that never go back, and no exit without an open region.
pub open spec fn valid_events(events: Seq<Event>, t0: u64) -> bool
    decreases events.len(),
{
    if events.len() == 0 {
        true
    } else {
        let prev = events.drop_last();
        &&& valid_events(prev, t0)
        &&& match events.last() {
            Event::Enter(i, t) => 0 < i < MAX_ANCHORS && last_time(prev, t0) <= t,
            Event::Exit(t) => opens(prev).len() > 0 && last_time(prev, t0) <= t,
        }
    }
}

/// Cycles of the session up to the last event during which no region was
/// open.
pub open spec fn idle_time(events: Seq<Event>, t0: u64) -> int
    decreases events.len(),
{
    if events.len() == 0 {
        0
    } else {
        let prev = events.drop_last();
        let before = idle_time(prev, t0);
        match events.last() {
            Event::Enter(_, t) => if opens(prev).len() == 0 {
                before + (t - last_time(prev, t0))
            } else {
                before
            },
            Event::Exit(_) => before,
        }
    }
}

/// Cycles spent inside top-level regions that were left by the last event.
pub open spec fn top_level_time(events: Seq<Event>) -> int
    decreases events.len(),
{
    if events.len() == 0 {
        0
    } else {
        let prev = events.drop_last();
        let before = top_level_time(prev);
        match events.last() {
            Event::Enter(_, _) => before,
            Event::Exit(t) => if opens(prev).len() == 1 {
                before + (t - opens(prev).last().1)
            } else {
                before
            },
        }
    }
}

/// The number of invocations of region `id` that have been left.
pub open spec fn invocations(events: Seq<Event>, id: usize) -> int
    decreases events.len(),
{
    if events.len() == 0 {
        0
    } else {
        let prev = events.drop_last();
        let before = invocations(prev, id);
        match events.last() {
            Event::Enter(_, _) => before,
            Event::Exit(_) => if opens(prev).last().0 == id {
                before + 1
            } else {
                before
            },
        }
    }
}

/// Whether region `id` is among the open regions `o`.
pub open spec fn is_open(o: Seq<(usize, u64)>, id: usize) -> bool {
    exists|k: int| 0 <= k < o.len() && (#[trigger] o[k]).0 == id
}

/// Cycles spent in the outermost invocations of region `id` that have been
/// left: those not nested in another invocation of `id`.
pub open spec fn outermost_time(events: Seq<Event>, id: usize) -> int
    decreases events.len(),
{
    if events.len() == 0 {
        0
    } else {
        let prev = events.drop_last();
        let before = outermost_time(prev, id);
        match events.last() {
            Event::Enter(_, _) => before,
            Event::Exit(t) => {
                let o = opens(prev);
                if o.last().0 == id && !is_open(o.drop_last(), id) {
                    before + (t - o.last().1)
                } else {
                    before
                }
            },
        }
    }
}

/// Whether region `id` never has a region entered inside it.
pub open spec fn without_children(events: Seq<Event>, id: usize) -> bool
    decreases events.len(),
{
    if events.len() == 0 {
        true
    } else {
        let prev = events.drop_last();
        &&& without_children(prev, id)
        &&& match events.last() {
            Event::Enter(_, _) => !(opens(prev).len() > 0 && opens(prev).last().0 == id),
            Event::Exit(_) => true,
        }
    }
}

/// What the profiler holds after a run: the anchor table, the active region
/// and the tokens of the open regions, innermost last.
pub struct Replay {
    pub anchors: Seq<Anchor>,
    pub current: usize,
    pub timers: Seq<DropTimer>,
}

/// The profiler's state after `events`, starting from table `start` with no
/// region active: entering does what `DropTimer::start` ensures, leaving what
/// `DropTimer::stop` ensures when no label clashes. `labels` gives the label
/// under which each region is entered.
pub open spec fn replay(start: Seq<Anchor>, events: Seq<Event>, labels: spec_fn(usize) -> String) -> Replay
    decreases events.len(),
{
    if events.len() == 0 {
        Replay { anchors: start, current: 0, timers: Seq::empty() }
    } else {
        let m = replay(start, events.drop_last(), labels);
        match events.last() {
            Event::Enter(i, t) => {
                let timer = DropTimer {
                    label: labels(i),
                    cpu_start: t,
                    anchor_index: i,
                    parent_index: m.current,
                    elapsed_before: m.anchors[i as int].tsc_elapsed_inclusive,
                };
                Replay { current: i, timers: m.timers.push(timer), ..m }
            },
            Event::Exit(t) => {
                let timer = m.timers.last();
                Replay {
                    anchors: closed_anchors(m.anchors, timer, (t - timer.cpu_start) as u64),
                    current: timer.parent_index,
                    timers: m.timers.drop_last(),
                }
            },
        }
    }
}

/// The exclusive cycles of slots 1 up to `n` (excluded), summed.
pub open spec fn exclusive_sum(anchors: Seq<Anchor>, n: int) -> int
    decreases n,
{
    if n <= 1 {
        0
    } else {
        exclusive_sum(anchors, n - 1) + anchors[n - 1].tsc_elapsed_exclusive
    }
}

/// Whether `a` and `b` agree modulo the counter's range.
pub open spec fn congruent(a: int, b: int) -> bool {
    (a - b) % counter_range() == 0
}

proof fn lemma_wrap(x: int)
    ensures
        congruent(wrap(x) as int, x),
        0 <= x < counter_range() ==> wrap(x) == x,
{
}

proof fn lemma_congruent_add(a: int, b: int, c: int, d: int)
    requires
        congruent(a, b),
        congruent(c, d),
    ensures
        congruent(a + c, b + d),
        congruent(a - c, b - d),
{
    vstd::arithmetic::div_mod::lemma_add_mod_noop(a - b, c - d, counter_range());
    vstd::arithmetic::div_mod::lemma_sub_mod_noop(a - b, c - d, counter_range());
}

proof fn lemma_congruent_trans(a: int, b: int, c: int)
    requires
        congruent(a, b),
        congruent(b, c),
    ensures
        congruent(a, c),
{
    lemma_congruent_add(a, b, b, c);
}

proof fn lemma_congruent_eq(a: int, b: int)
    requires
        congruent(a, b),
        0 <= a < counter_range(),
        0 <= b < counter_range(),
    ensures
        a == b,
{
}

proof fn lemma_exclusive_sum_update(anchors: Seq<Anchor>, j: int, a: Anchor, n: int)
    requires
        0 <= j < anchors.len(),
        n <= anchors.len(),
    ensures
        exclusive_sum(anchors.update(j, a), n) == exclusive_sum(anchors, n) + if 1 <= j < n {
            a.tsc_elapsed_exclusive - anchors[j].tsc_elapsed_exclusive
        } else {
            0
        },
    decreases n,
{
    if n > 1 {
        lemma_exclusive_sum_update(anchors, j, a, n - 1);
    }
}

/// The replayed state matches the open regions `o`: one token per open
/// region, each naming the region it was entered from, and the innermost
/// one active.
pub open spec fn shaped(m: Replay, o: Seq<(usize, u64)>, last: u64) -> bool {
    &&& m.anchors.len() == MAX_ANCHORS
    &&& m.timers.len() == o.len()
    &&& forall|k: int|
        0 <= k < o.len() ==> {
            &&& (#[trigger] m.timers[k]).anchor_index == o[k].0
            &&& m.timers[k].cpu_start == o[k].1
            &&& 0 < o[k].0 < MAX_ANCHORS
            &&& o[k].1 <= last
            &&& m.timers[k].parent_index == if k == 0 {
                0
            } else {
                o[k - 1].0
            }
        }
    &&& m.current == if o.len() == 0 {
        0
    } else {
        o.last().0
    }
}

proof fn lemma_shaped(start: Seq<Anchor>, events: Seq<Event>, t0: u64, labels: spec_fn(usize) -> String)
    requires
        start.len() == MAX_ANCHORS,
        valid_events(events, t0),
    ensures
        shaped(replay(start, events, labels), opens(events), last_time(events, t0)),
        t0 <= last_time(events, t0),
    decreases events.len(),
{
    if events.len() > 0 {
        let prev = events.drop_last();
        lemma_shaped(start, prev, t0, labels);
        let m = replay(start, prev, labels);
        let o = opens(prev);
        let m2 = replay(start, events, labels);
        let o2 = opens(events);
        match events.last() {
            Event::Enter(i, t) => {
                assert forall|k: int| 0 <= k < o2.len() implies {
                    &&& (#[trigger] m2.timers[k]).anchor_index == o2[k].0
                    &&& m2.timers[k].cpu_start == o2[k].1
                    &&& 0 < o2[k].0 < MAX_ANCHORS
                    &&& o2[k].1 <= t
                    &&& m2.timers[k].parent_index == if k == 0 {
                        0
                    } else {
                        o2[k - 1].0
                    }
                } by {
                    if k < o.len() {
                        assert(m.timers[k] == m2.timers[k]);
                    }
                }
                assert(m2.anchors.len() == MAX_ANCHORS);
                assert(m2.timers.len() == o2.len());
                assert(m2.current == if o2.len() == 0 { 0 } else { o2.last().0 });
            },
            Event::Exit(t) => {
                assert forall|k: int| 0 <= k < o2.len() implies {
                    &&& (#[trigger] m2.timers[k]).anchor_index == o2[k].0
                    &&& m2.timers[k].cpu_start == o2[k].1
                    &&& 0 < o2[k].0 < MAX_ANCHORS
                    &&& o2[k].1 <= t
                    &&& m2.timers[k].parent_index == if k == 0 {
                        0
                    } else {
                        o2[k - 1].0
                    }
                } by {
                    assert(m.timers[k] == m2.timers[k]);
                }
                let k = o.len() - 1;
                assert(m.timers[k].anchor_index == o[k].0);
                assert(m.timers.last() == m.timers[k]);
                if k > 0 {
                    assert(m.timers[k - 1].anchor_index == o[k - 1].0);
                }
                assert(m.timers[k].parent_index < MAX_ANCHORS);
                assert(m2.anchors.len() == MAX_ANCHORS);
                assert(m2.timers.len() == o2.len());
                assert(m2.current == if o2.len() == 0 { 0 } else { o2.last().0 });
            },
        }
    }
}

proof fn lemma_conservation(start: Seq<Anchor>, events: Seq<Event>, t0: u64, labels: spec_fn(usize) -> String)
    requires
        start.len() == MAX_ANCHORS,
        all_blank(start),
        valid_events(events, t0),
    ensures
        idle_time(events, t0) + top_level_time(events) == if opens(events).len() == 0 {
            last_time(events, t0) - t0
        } else {
            opens(events)[0].1 - t0
        },
        congruent(
            exclusive_sum(replay(start, events, labels).anchors, MAX_ANCHORS as int),
            top_level_time(events),
        ),
    decreases events.len(),
{
    if events.len() == 0 {
        assert(exclusive_sum(start, MAX_ANCHORS as int) == 0) by {
            lemma_blank_sum(start, MAX_ANCHORS as int);
        }
    } else {
        let prev = events.drop_last();
        lemma_conservation(start, prev, t0, labels);
        lemma_shaped(start, prev, t0, labels);
        let m = replay(start, prev, labels);
        let o = opens(prev);
        match events.last() {
            Event::Enter(i, t) => {
                if o.len() > 0 {
                    assert(opens(events)[0] == o[0]);
                }
            },
            Event::Exit(t) => {
                let k = o.len() - 1;
                let timer = m.timers.last();
                assert(timer == m.timers[k]);
                if k > 0 {
                    assert(m.timers[k - 1].anchor_index == o[k - 1].0);
                    assert(opens(events)[0] == o[0]);
                }
                let e = (t - timer.cpu_start) as u64;
                let n = MAX_ANCHORS as int;
                let pi = timer.parent_index as int;
                let ai = timer.anchor_index as int;
                let pa = m.anchors[pi];
                let a1 = m.anchors.update(
                    pi,
                    Anchor { tsc_elapsed_exclusive: wrap(pa.tsc_elapsed_exclusive - e), ..pa },
                );
                let sa = a1[ai];
                let a2 = a1.update(
                    ai,
                    Anchor {
                        hit_count: wrap(sa.hit_count + 1),
                        label: if sa.label@.len() == 0 { timer.label } else { sa.label },
                        tsc_elapsed_inclusive: wrap(e + timer.elapsed_before),
                        tsc_elapsed_exclusive: wrap(sa.tsc_elapsed_exclusive + e),
                    },
                );
                assert(replay(start, events, labels).anchors == a2);
                lemma_exclusive_sum_update(m.anchors, pi, a1[pi], n);
                lemma_exclusive_sum_update(a1, ai, a2[ai], n);
                lemma_wrap(pa.tsc_elapsed_exclusive - e);
                lemma_wrap(sa.tsc_elapsed_exclusive + e);
                let s0 = exclusive_sum(m.anchors, n);
                let top = top_level_time(prev);
                if k == 0 {
                    // The region left was entered from the root, whose slot
                    // lies outside the sum.
                    lemma_congruent_add(s0, top, wrap(sa.tsc_elapsed_exclusive + e) - sa.tsc_elapsed_exclusive, e as int);
                } else {
                    // The parent gives back exactly what the region takes.
                    lemma_congruent_add(
                        wrap(pa.tsc_elapsed_exclusive - e) - pa.tsc_elapsed_exclusive,
                        -e,
                        wrap(sa.tsc_elapsed_exclusive + e) - sa.tsc_elapsed_exclusive,
                        e as int,
                    );
                    lemma_congruent_add(
                        s0,
                        top,
                        wrap(pa.tsc_elapsed_exclusive - e) - pa.tsc_elapsed_exclusive
                            + wrap(sa.tsc_elapsed_exclusive + e) - sa.tsc_elapsed_exclusive,
                        0,
                    );
                }
            },
        }
    }
}

proof fn lemma_blank_sum(anchors: Seq<Anchor>, n: int)
    requires
        all_blank(anchors),
        n <= anchors.len(),
    ensures
        exclusive_sum(anchors, n) == 0,
    decreases n,
{
    if n > 1 {
        lemma_blank_sum(anchors, n - 1);
        assert(anchors[n - 1].is_blank());
    }
}

/// Conservation of time: for well-nested regions in a session that began at
/// cycle `t0` with a blank table and ends at cycle `t1` with no region open,
/// the exclusive cycles of all regions plus the cycles during which no region
/// was open add up to the session's length `t1 - t0`, counted modulo the
/// counter's range as the table keeps them.
pub proof fn law_time_is_conserved(
    start: Seq<Anchor>,
    events: Seq<Event>,
    t0: u64,
    t1: u64,
    labels: spec_fn(usize) -> String,
)
    requires
        start.len() == MAX_ANCHORS,
        all_blank(start),
        valid_events(events, t0),
        opens(events).len() == 0,
        last_time(events, t0) <= t1,
    ensures
        wrap(
            exclusive_sum(replay(start, events, labels).anchors, MAX_ANCHORS as int) + idle_time(
                events,
                t0,
            ) + (t1 - last_time(events, t0)),
        ) == t1 - t0,
{
    lemma_conservation(start, events, t0, labels);
    lemma_shaped(start, events, t0, labels);
    let s = exclusive_sum(replay(start, events, labels).anchors, MAX_ANCHORS as int);
    let idle = idle_time(events, t0) + (t1 - last_time(events, t0));
    lemma_congruent_add(s, top_level_time(events), idle, idle);
    lemma_wrap(s + idle);
    lemma_congruent_add(wrap(s + idle) as int, s + idle, 0, 0);
    assert(congruent(wrap(s + idle) as int, (t1 - t0) as int));
    lemma_congruent_eq(wrap(s + idle) as int, (t1 - t0) as int);
}

/// Whether region `id` is never entered while an invocation of it is open.
pub open spec fn never_reentered(events: Seq<Event>, id: usize) -> bool
    decreases events.len(),
{
    if events.len() == 0 {
        true
    } else {
        let prev = events.drop_last();
        &&& never_reentered(prev, id)
        &&& match events.last() {
            Event::Enter(i, _) => !(i == id && is_open(opens(prev), id)),
            Event::Exit(_) => true,
        }
    }
}

/// Cycles spent in every invocation of region `id` that has been left,
/// nested ones included.
pub open spec fn invocation_time(events: Seq<Event>, id: usize) -> int
    decreases events.len(),
{
    if events.len() == 0 {
        0
    } else {
        let prev = events.drop_last();
        let before = invocation_time(prev, id);
        match events.last() {
            Event::Enter(_, _) => before,
            Event::Exit(t) => if opens(prev).last().0 == id {
                before + (t - opens(prev).last().1)
            } else {
                before
            },
        }
    }
}

/// Whether the open region at position `k` of `o` is the outermost open
/// invocation of `id`.
pub open spec fn first_open(o: Seq<(usize, u64)>, id: usize, k: int) -> bool {
    &&& 0 <= k < o.len()
    &&& o[k].0 == id
    &&& forall|j: int| 0 <= j < k ==> (#[trigger] o[j]).0 != id
}

proof fn lemma_wrap_add(x: int, y: int)
    ensures
        wrap(wrap(x) + y) == wrap(x + y),
{
    lemma_wrap(x);
    lemma_wrap(wrap(x) + y);
    lemma_wrap(x + y);
    lemma_congruent_add(wrap(x) as int, x, y, y);
    lemma_congruent_add(wrap(wrap(x) + y) as int, wrap(x) + y, wrap(x) + y, x + y);
    lemma_congruent_add(wrap(wrap(x) + y) as int, x + y, x + y, wrap(x + y) as int);
    lemma_congruent_eq(wrap(wrap(x) + y) as int, wrap(x + y) as int);
}

proof fn lemma_region(
    start: Seq<Anchor>,
    events: Seq<Event>,
    t0: u64,
    labels: spec_fn(usize) -> String,
    id: usize,
)
    requires
        start.len() == MAX_ANCHORS,
        all_blank(start),
        valid_events(events, t0),
        0 < id < MAX_ANCHORS,
    ensures
        ({
            let m = replay(start, events, labels);
            let o = opens(events);
            let a = m.anchors[id as int];
            &&& a.hit_count == wrap(invocations(events, id))
            &&& !is_open(o, id) ==> a.tsc_elapsed_inclusive == wrap(outermost_time(events, id))
            &&& forall|k: int|
                first_open(o, id, k) ==> (#[trigger] m.timers[k]).elapsed_before == wrap(
                    outermost_time(events, id),
                )
            &&& without_children(events, id) ==> {
                &&& a.tsc_elapsed_exclusive == wrap(outermost_time(events, id))
                &&& forall|k: int| 0 <= k < o.len() - 1 ==> (#[trigger] o[k]).0 != id
            }
        }),
    decreases events.len(),
{
    if events.len() == 0 {
        assert(start[id as int].is_blank());
    } else {
        let prev = events.drop_last();
        lemma_region(start, prev, t0, labels, id);
        lemma_shaped(start, prev, t0, labels);
        let m = replay(start, prev, labels);
        let m2 = replay(start, events, labels);
        let o = opens(prev);
        let o2 = opens(events);
        let outer = outermost_time(prev, id);
        match events.last() {
            Event::Enter(i, t) => {
                assert(m2.anchors == m.anchors);
                assert forall|k: int| first_open(o2, id, k) implies (#[trigger] m2.timers[k]).elapsed_before
                    == wrap(outermost_time(events, id)) by {
                    if k < o.len() {
                        assert(o2[k] == o[k]);
                        assert forall|j: int| 0 <= j < k implies (#[trigger] o[j]).0 != id by {
                            assert(o2[j] == o[j]);
                        }
                        assert(first_open(o, id, k));
                        assert(m2.timers[k] == m.timers[k]);
                    } else {
                        assert forall|j: int| 0 <= j < o.len() implies (#[trigger] o[j]).0 != id by {
                            assert(o2[j] == o[j]);
                        }
                    }
                }
                if !is_open(o2, id) {
                    if is_open(o, id) {
                        let j = choose|j: int| 0 <= j < o.len() && (#[trigger] o[j]).0 == id;
                        assert(o2[j] == o[j]);
                    }
                }
                if without_children(events, id) {
                    assert forall|k: int| 0 <= k < o2.len() - 1 implies (#[trigger] o2[k]).0 != id by {
                        assert(o2[k] == o[k]);
                        if k == o.len() - 1 {
                            assert(o.last() == o[k]);
                        }
                    }
                }
            },
            Event::Exit(t) => {
                let k = o.len() - 1;
                let timer = m.timers.last();
                assert(timer == m.timers[k]);
                assert(o.last() == o[k]);
                if k > 0 {
                    assert(m.timers[k - 1].anchor_index == o[k - 1].0);
                }
                let e = (t - timer.cpu_start) as u64;
                let pi = timer.parent_index as int;
                let ai = timer.anchor_index as int;
                let pa = m.anchors[pi];
                let a1 = m.anchors.update(
                    pi,
                    Anchor { tsc_elapsed_exclusive: wrap(pa.tsc_elapsed_exclusive - e), ..pa },
                );
                let sa = a1[ai];
                let a2 = a1.update(
                    ai,
                    Anchor {
                        hit_count: wrap(sa.hit_count + 1),
                        label: if sa.label@.len() == 0 { timer.label } else { sa.label },
                        tsc_elapsed_inclusive: wrap(e + timer.elapsed_before),
                        tsc_elapsed_exclusive: wrap(sa.tsc_elapsed_exclusive + e),
                    },
                );
                assert(m2.anchors == a2);
                assert(o2 == o.drop_last());
                assert forall|k2: int| first_open(o2, id, k2) implies (#[trigger] m2.timers[k2]).elapsed_before
                    == wrap(outermost_time(events, id)) by {
                    assert(o2[k2] == o[k2]);
                    assert forall|j: int| 0 <= j < k2 implies (#[trigger] o[j]).0 != id by {
                        assert(o2[j] == o[j]);
                    }
                    assert(first_open(o, id, k2));
                    assert(m2.timers[k2] == m.timers[k2]);
                    assert(is_open(o2, id));
                }
                if ai == id {
                    lemma_wrap_add(invocations(prev, id), 1);
                    if !is_open(o2, id) {
                        assert forall|j: int| 0 <= j < k implies (#[trigger] o[j]).0 != id by {
                            assert(o2[j] == o[j]);
                        }
                        assert(first_open(o, id, k));
                        lemma_wrap_add(outer, e as int);
                    }
                } else {
                    if is_open(o, id) {
                        let j = choose|j: int| 0 <= j < o.len() && (#[trigger] o[j]).0 == id;
                        assert(o2[j] == o[j]);
                    }
                }
                if without_children(events, id) {
                    if k > 0 {
                        assert(o[k - 1].0 != id);
                    }
                    if ai == id {
                        assert(!is_open(o2, id)) by {
                            if is_open(o2, id) {
                                let j = choose|j: int| 0 <= j < o2.len() && (#[trigger] o2[j]).0 == id;
                                assert(o2[j] == o[j]);
                            }
                        }
                        lemma_wrap_add(outer, e as int);
                    }
                    assert forall|k2: int| 0 <= k2 < o2.len() - 1 implies (#[trigger] o2[k2]).0 != id by {
                        assert(o2[k2] == o[k2]);
                    }
                }
            },
        }
    }
}

proof fn lemma_not_reentered(events: Seq<Event>, t0: u64, id: usize)
    requires
        valid_events(events, t0),
        never_reentered(events, id),
    ensures
        outermost_time(events, id) == invocation_time(events, id),
        forall|j: int, k: int|
            0 <= j < k < opens(events).len() && (#[trigger] opens(events)[j]).0 == id ==> (
            #[trigger] opens(events)[k]).0 != id,
    decreases events.len(),
{
    if events.len() > 0 {
        let prev = events.drop_last();
        lemma_not_reentered(prev, t0, id);
        let o = opens(prev);
        let o2 = opens(events);
        match events.last() {
            Event::Enter(i, t) => {
                assert forall|j: int, k: int|
                    0 <= j < k < o2.len() && (#[trigger] o2[j]).0 == id implies (#[trigger] o2[k]).0
                    != id by {
                    assert(o2[j] == o[j]);
                    if k < o.len() {
                        assert(o2[k] == o[k]);
                    }
                }
            },
            Event::Exit(t) => {
                let k = o.len() - 1;
                assert(o.last() == o[k]);
                if o[k].0 == id && is_open(o.drop_last(), id) {
                    let j = choose|j: int| 0 <= j < o.drop_last().len() && (#[trigger] o.drop_last()[j]).0 == id;
                    assert(o.drop_last()[j] == o[j]);
                }
                assert forall|j: int, k2: int|
                    0 <= j < k2 < o2.len() && (#[trigger] o2[j]).0 == id implies (#[trigger] o2[k2]).0
                    != id by {
                    assert(o2[j] == o[j]);
                    assert(o2[k2] == o[k2]);
                }
            },
        }
    }
}

/// Sequential invocations: in a session begun with a blank table, a region
/// that is not open at the end and that is never entered while an invocation
/// of it is open (its invocations follow one another, whatever they contain)
/// has a hit count equal to its number of invocations and inclusive cycles
/// equal to the sum of their elapsed cycles.
pub proof fn law_sequential_invocations(
    start: Seq<Anchor>,
    events: Seq<Event>,
    t0: u64,
    labels: spec_fn(usize) -> String,
    id: usize,
)
    requires
        start.len() == MAX_ANCHORS,
        all_blank(start),
        valid_events(events, t0),
        !is_open(opens(events), id),
        0 < id < MAX_ANCHORS,
        never_reentered(events, id),
    ensures
        replay(start, events, labels).anchors[id as int].hit_count == wrap(invocations(events, id)),
        replay(start, events, labels).anchors[id as int].tsc_elapsed_inclusive == wrap(
            invocation_time(events, id),
        ),
{
    lemma_region(start, events, t0, labels, id);
    lemma_not_reentered(events, t0, id);
}

/// Recursion: in a session begun with a blank table, for a region that is
/// not open at the end, every entry and exit of it counts as a hit, while its
/// inclusive cycles are those of its outermost invocations only: cycles of
/// an invocation nested in another of the same region are not added again.
pub proof fn law_recursive_invocations(
    start: Seq<Anchor>,
    events: Seq<Event>,
    t0: u64,
    labels: spec_fn(usize) -> String,
    id: usize,
)
    requires
        start.len() == MAX_ANCHORS,
        all_blank(start),
        valid_events(events, t0),
        !is_open(opens(events), id),
        0 < id < MAX_ANCHORS,
    ensures
        replay(start, events, labels).anchors[id as int].hit_count == wrap(invocations(events, id)),
        replay(start, events, labels).anchors[id as int].tsc_elapsed_inclusive == wrap(
            outermost_time(events, id),
        ),
{
    lemma_region(start, events, t0, labels, id);
}

/// Leaf regions: in a session begun with a blank table, a region that is not
/// open at the end and inside which no region is ever entered ends with
/// equal exclusive and inclusive cycles.
pub proof fn law_leaf_region(
    start: Seq<Anchor>,
    events: Seq<Event>,
    t0: u64,
    labels: spec_fn(usize) -> String,
    id: usize,
)
    requires
        start.len() == MAX_ANCHORS,
        all_blank(start),
        valid_events(events, t0),
        !is_open(opens(events), id),
        0 < id < MAX_ANCHORS,
        without_children(events, id),
    ensures
        replay(start, events, labels).anchors[id as int].tsc_elapsed_exclusive == replay(
            start,
            events,
            labels,
        ).anchors[id as int].tsc_elapsed_inclusive,
{
    lemma_region(start, events, t0, labels, id);
}

/// Whether two anchors hold the same statistics and label text.
pub open spec fn same_anchor(a: Anchor, b: Anchor) -> bool {
    &&& a.hit_count == b.hit_count
    &&& a.label@ == b.label@
    &&& a.tsc_elapsed_inclusive == b.tsc_elapsed_inclusive
    &&& a.tsc_elapsed_exclusive == b.tsc_elapsed_exclusive
}

/// Whether two tokens agree field by field, the label by its text.
pub open spec fn same_timer(a: DropTimer, b: DropTimer) -> bool {
    &&& a.label@ == b.label@
    &&& a.cpu_start == b.cpu_start
    &&& a.anchor_index == b.anchor_index
    &&& a.parent_index == b.parent_index
    &&& a.elapsed_before == b.elapsed_before
}

/// Whether profiler `p`, with the tokens `timers` of its open regions, is in
/// the state `m` of the replay.
pub open spec fn tracks(p: Profiler, timers: Seq<DropTimer>, m: Replay) -> bool {
    &&& p.anchors@.len() == m.anchors.len()
    &&& forall|i: int| 0 <= i < m.anchors.len() ==> same_anchor(#[trigger] p.anchors@[i], m.anchors[i])
    &&& p.current_anchor == m.current
    &&& timers.len() == m.timers.len()
    &&& forall|k: int| 0 <= k < timers.len() ==> same_timer(#[trigger] timers[k], m.timers[k])
}

/// Entering a region is a step of the replay: a profiler that tracks the
/// replay of `events`, moved as `DropTimer::start` ensures on success, tracks
/// the replay of `events` followed by the entry, with the new token last.
pub proof fn law_start_is_replayed(
    start: Seq<Anchor>,
    events: Seq<Event>,
    labels: spec_fn(usize) -> String,
    p: Profiler,
    timers: Seq<DropTimer>,
    id: usize,
    now: u64,
    t: DropTimer,
    moved: Profiler,
)
    requires
        tracks(p, timers, replay(start, events, labels)),
        0 < id < p.anchors@.len(),
        opened_timer(p, id, labels(id)@, now, t),
        moved == (Profiler { current_anchor: id, ..p }),
    ensures
        tracks(moved, timers.push(t), replay(start, events.push(Event::Enter(id, now)), labels)),
{
    let ev = events.push(Event::Enter(id, now));
    assert(ev.drop_last() =~= events);
    let m = replay(start, events, labels);
    let m2 = replay(start, ev, labels);
    assert(same_anchor(p.anchors@[id as int], m.anchors[id as int]));
    let ts = timers.push(t);
    assert forall|k: int| 0 <= k < ts.len() implies same_timer(#[trigger] ts[k], m2.timers[k]) by {
        if k < timers.len() {
            assert(ts[k] == timers[k]);
            assert(m2.timers[k] == m.timers[k]);
        }
    }
}

/// Leaving a region is a step of the replay: a profiler that tracks the
/// replay of `events`, whose innermost token is left as `DropTimer::stop`
/// ensures on success, tracks the replay of `events` followed by the exit.
pub proof fn law_stop_is_replayed(
    start: Seq<Anchor>,
    events: Seq<Event>,
    labels: spec_fn(usize) -> String,
    p: Profiler,
    timers: Seq<DropTimer>,
    now: u64,
    moved: Profiler,
)
    requires
        tracks(p, timers, replay(start, events, labels)),
        p.wf(),
        timers.len() > 0,
        timers.last().wf(),
        timers.last().cpu_start <= now,
        moved.anchors@ == closed_anchors(p.anchors@, timers.last(), (now - timers.last().cpu_start) as u64),
        moved.current_anchor == timers.last().parent_index,
    ensures
        tracks(moved, timers.drop_last(), replay(start, events.push(Event::Exit(now)), labels)),
{
    let ev = events.push(Event::Exit(now));
    assert(ev.drop_last() =~= events);
    let m = replay(start, events, labels);
    let m2 = replay(start, ev, labels);
    let t = timers.last();
    let k = timers.len() - 1;
    assert(t == timers[k]);
    assert(same_timer(timers[k], m.timers[k]));
    assert(m.timers.last() == m.timers[k]);
    let mt = m.timers.last();
    let e = (now - t.cpu_start) as u64;
    assert(same_anchor(p.anchors@[t.parent_index as int], m.anchors[t.parent_index as int]));
    assert(same_anchor(p.anchors@[t.anchor_index as int], m.anchors[t.anchor_index as int]));
    let a = closed_anchors(p.anchors@, t, e);
    let b = closed_anchors(m.anchors, mt, e);
    assert forall|i: int| 0 <= i < b.len() implies same_anchor(#[trigger] a[i], b[i]) by {
        assert(same_anchor(p.anchors@[i], m.anchors[i]));
    }
    let td = timers.drop_last();
    assert forall|j: int| 0 <= j < td.len() implies same_timer(#[trigger] td[j], m2.timers[j]) by {
        assert(td[j] == timers[j]);
        assert(same_timer(timers[j], m.timers[j]));
    }
}

/// The exclusive cycles of every slot of the table, the root's included.
pub open spec fn table_exclusive(anchors: Seq<Anchor>) -> int {
    anchors[0].tsc_elapsed_exclusive + exclusive_sum(anchors, anchors.len() as int)
}

/// Each release conserves time: what the parent gives back equals what the
/// region takes, also when the region is its own parent, so the exclusive
/// cycles of the whole table keep their total (modulo the counter's range)
/// across a release as `DropTimer::stop` performs it.
pub proof fn law_release_keeps_exclusive_total(anchors: Seq<Anchor>, t: DropTimer, elapsed: u64)
    requires
        anchors.len() == MAX_ANCHORS,
        t.wf(),
    ensures
        wrap(table_exclusive(closed_anchors(anchors, t, elapsed))) == wrap(table_exclusive(anchors)),
{
    let n = MAX_ANCHORS as int;
    let e = elapsed as int;
    let pi = t.parent_index as int;
    let ai = t.anchor_index as int;
    let pa = anchors[pi];
    let a1 = anchors.update(pi, Anchor { tsc_elapsed_exclusive: wrap(pa.tsc_elapsed_exclusive - e), ..pa });
    let sa = a1[ai];
    let a2 = a1.update(
        ai,
        Anchor {
            hit_count: wrap(sa.hit_count + 1),
            label: if sa.label@.len() == 0 { t.label } else { sa.label },
            tsc_elapsed_inclusive: wrap(e + t.elapsed_before),
            tsc_elapsed_exclusive: wrap(sa.tsc_elapsed_exclusive + e),
        },
    );
    assert(closed_anchors(anchors, t, elapsed) == a2);
    lemma_exclusive_sum_update(anchors, pi, a1[pi], n);
    lemma_exclusive_sum_update(a1, ai, a2[ai], n);
    lemma_wrap(pa.tsc_elapsed_exclusive - e);
    lemma_wrap(sa.tsc_elapsed_exclusive + e);
    let dp = wrap(pa.tsc_elapsed_exclusive - e) - pa.tsc_elapsed_exclusive;
    let da = wrap(sa.tsc_elapsed_exclusive + e) - sa.tsc_elapsed_exclusive;
    // The table's total moves by what the parent's slot and the region's slot
    // moved, which cancels.
    assert(table_exclusive(a2) == table_exclusive(anchors) + dp + da);
    lemma_congruent_add(dp, -e, da, e);
    lemma_congruent_add(table_exclusive(anchors), table_exclusive(anchors), dp + da, 0);
    lemma_wrap(table_exclusive(a2));
    lemma_wrap(table_exclusive(anchors));
    lemma_congruent_trans(wrap(table_exclusive(a2)) as int, table_exclusive(a2), table_exclusive(anchors));
    lemma_congruent_add(table_exclusive(anchors), wrap(table_exclusive(anchors)) as int, 0, 0);
    lemma_congruent_trans(
        wrap(table_exclusive(a2)) as int,
        table_exclusive(anchors),
        wrap(table_exclusive(anchors)) as int,
    );
    lemma_congruent_eq(wrap(table_exclusive(a2)) as int, wrap(table_exclusive(anchors)) as int);
}

proof fn lemma_root_slot(start: Seq<Anchor>, events: Seq<Event>, t0: u64, labels: spec_fn(usize) -> String)
    requires
        start.len() == MAX_ANCHORS,
        all_blank(start),
        valid_events(events, t0),
    ensures
        congruent(
            replay(start, events, labels).anchors[0].tsc_elapsed_exclusive as int,
            -top_level_time(events),
        ),
    decreases events.len(),
{
    if events.len() == 0 {
        assert(start[0].is_blank());
    } else {
        let prev = events.drop_last();
        lemma_root_slot(start, prev, t0, labels);
        lemma_shaped(start, prev, t0, labels);
        let m = replay(start, prev, labels);
        let o = opens(prev);
        match events.last() {
            Event::Enter(_, _) => {},
            Event::Exit(t) => {
                let k = o.len() - 1;
                let timer = m.timers.last();
                assert(timer == m.timers[k]);
                if k > 0 {
                    assert(m.timers[k - 1].anchor_index == o[k - 1].0);
                }
                assert(o.last() == o[k]);
                let e = (t - timer.cpu_start) as u64;
                let r0 = m.anchors[0].tsc_elapsed_exclusive as int;
                let after = replay(start, events, labels).anchors[0].tsc_elapsed_exclusive as int;
                if k == 0 {
                    // A top-level region gives its cycles back to the root.
                    assert(after == wrap(r0 - e) as int);
                    lemma_wrap(r0 - e);
                    lemma_congruent_add(r0, -top_level_time(prev), e as int, e as int);
                    lemma_congruent_trans(after, r0 - e, -top_level_time(events));
                } else {
                    assert(after == r0);
                }
            },
        }
    }
}

proof fn lemma_times_nonnegative(start: Seq<Anchor>, events: Seq<Event>, t0: u64, labels: spec_fn(usize) -> String)
    requires
        start.len() == MAX_ANCHORS,
        valid_events(events, t0),
    ensures
        idle_time(events, t0) >= 0,
        top_level_time(events) >= 0,
    decreases events.len(),
{
    if events.len() > 0 {
        let prev = events.drop_last();
        lemma_times_nonnegative(start, prev, t0, labels);
        lemma_shaped(start, prev, t0, labels);
        let o = opens(prev);
        let m = replay(start, prev, labels);
        if o.len() > 0 {
            assert(m.timers[o.len() - 1].cpu_start == o[o.len() - 1].1);
            assert(o.last() == o[o.len() - 1]);
        }
    }
}

/// Unattributed root time: for well-nested regions in a session that began
/// at cycle `t0` with a blank table and ends at cycle `t1` with no region
/// open, the root slot holds minus the cycles spent in top-level regions, so
/// the session's length plus the root slot's exclusive cycles, in the
/// counter's arithmetic, is the time during which no region was open.
pub proof fn law_root_slot_is_idle_time(
    start: Seq<Anchor>,
    events: Seq<Event>,
    t0: u64,
    t1: u64,
    labels: spec_fn(usize) -> String,
)
    requires
        start.len() == MAX_ANCHORS,
        all_blank(start),
        valid_events(events, t0),
        opens(events).len() == 0,
        last_time(events, t0) <= t1,
    ensures
        ((t1 - t0) as u64).wrapping_add(replay(start, events, labels).anchors[0].tsc_elapsed_exclusive)
            == idle_time(events, t0) + (t1 - last_time(events, t0)),
{
    lemma_root_slot(start, events, t0, labels);
    lemma_conservation(start, events, t0, labels);
    lemma_shaped(start, events, t0, labels);
    lemma_times_nonnegative(start, events, t0, labels);
    let total = (t1 - t0) as int;
    let r0 = replay(start, events, labels).anchors[0].tsc_elapsed_exclusive as int;
    let idle = idle_time(events, t0) + (t1 - last_time(events, t0));
    assert(idle == total - top_level_time(events));
    lemma_congruent_add(total, total, r0, -top_level_time(events));
    lemma_wrap(total + r0);
    lemma_congruent_trans(wrap(total + r0) as int, total + r0, idle);
    lemma_congruent_eq(wrap(total + r0) as int, idle);
}

} // verus!
