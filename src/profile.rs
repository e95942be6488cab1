use vstd::prelude::*;

use crate::anchor::{wrap, Anchor, ProfileError, MAX_ANCHORS};

verus! {

/// Whether every slot of `anchors` is blank.
pub open spec fn all_blank(anchors: Seq<Anchor>) -> bool {
    forall|i: int| 0 <= i < anchors.len() ==> (#[trigger] anchors[i]).is_blank()
}

/// The state of one profiling session: its bounding cycle stamps, the anchor
/// table, and the id of the innermost open region (0 when none is open).
pub struct Profiler {
    pub tsc_start: u64,
    pub tsc_end: u64,
    pub anchors: Vec<Anchor>,
    pub current_anchor: usize,
}

impl Profiler {
    /// The table has its full capacity and the active id names a slot of it.
    pub open spec fn wf(&self) -> bool {
        &&& self.anchors@.len() == MAX_ANCHORS
        &&& self.current_anchor < MAX_ANCHORS
    }

    /// The state right after a session began at cycle `start`: a blank
    /// table, no active region and the start stamp. The end stamp is not
    /// part of it.
    pub open spec fn is_fresh(&self, start: u64) -> bool {
        &&& self.wf()
        &&& all_blank(self.anchors@)
        &&& self.current_anchor == 0
        &&& self.tsc_start == start
    }

    /// A profiler with a blank table and no session stamps.
    pub fn new() -> (r: Profiler)
        ensures
            r.is_fresh(0),
            r.tsc_end == 0,
    {
        let mut anchors: Vec<Anchor> = Vec::with_capacity(MAX_ANCHORS);
        let mut i: usize = 0;
        while i < MAX_ANCHORS
            invariant
                i <= MAX_ANCHORS,
                anchors@.len() == i,
                all_blank(anchors@),
            decreases MAX_ANCHORS - i,
        {
            anchors.push(Anchor::blank());
            i = i + 1;
        }
        Profiler { tsc_start: 0, tsc_end: 0, anchors, current_anchor: 0 }
    }

    /// Starts a new session at cycle `now`: every anchor is reset to blank
    /// and no region is active; the end stamp is left as it was.
    pub fn begin(&mut self, now: u64)
        requires
            old(self).wf(),
        ensures
            final(self).is_fresh(now),
            final(self).tsc_end == old(self).tsc_end,
    {
        let mut i: usize = 0;
        while i < MAX_ANCHORS
            invariant
                i <= MAX_ANCHORS,
                self.anchors@.len() == MAX_ANCHORS,
                self.tsc_end == old(self).tsc_end,
                forall|j: int| 0 <= j < i ==> (#[trigger] self.anchors@[j]).is_blank(),
            decreases MAX_ANCHORS - i,
        {
            self.anchors.set(i, Anchor::blank());
            i = i + 1;
        }
        self.current_anchor = 0;
        self.tsc_start = now;
    }
}

/// The token of one open region: what was known at entry and is needed at
/// exit.
pub struct DropTimer {
    pub label: String,
    pub cpu_start: u64,
    pub anchor_index: usize,
    pub parent_index: usize,
    pub elapsed_before: u64,
}

/// Whether region `id` may be entered, and if not, why: 0 is reserved for
/// the root and ids must stay below the table's capacity.
pub open spec fn open_result(id: usize) -> Result<(), ProfileError> {
    if id == 0 {
        Err(ProfileError::InvalidId)
    } else if id >= MAX_ANCHORS {
        Err(ProfileError::OutOfRange)
    } else {
        Ok(())
    }
}

/// The token handed out when region `id` is entered on `p` at cycle `now`.
pub open spec fn opened_timer(p: Profiler, id: usize, label: Seq<char>, now: u64, t: DropTimer) -> bool {
    &&& t.label@ == label
    &&& t.cpu_start == now
    &&& t.anchor_index == id
    &&& t.parent_index == p.current_anchor
    &&& t.elapsed_before == p.anchors@[id as int].tsc_elapsed_inclusive
}

/// Whether closing `t` would clash with the label already bound to its id.
pub open spec fn label_clash(anchors: Seq<Anchor>, t: DropTimer) -> bool {
    let bound = anchors[t.anchor_index as int].label@;
    bound.len() != 0 && bound != t.label@
}

/// The anchor table after the region of `t` is closed with `elapsed` cycles:
/// the parent gives back `elapsed` from its exclusive share, the region takes
/// it, its inclusive total becomes `elapsed` on top of what it was at entry,
/// its hit count grows by one, and its label is bound if it was not yet.
/// Counts wrap around at the counter's width.
pub open spec fn closed_anchors(anchors: Seq<Anchor>, t: DropTimer, elapsed: u64) -> Seq<Anchor> {
    let p = anchors[t.parent_index as int];
    let a1 = anchors.update(
        t.parent_index as int,
        Anchor { tsc_elapsed_exclusive: wrap(p.tsc_elapsed_exclusive - elapsed), ..p },
    );
    let s = a1[t.anchor_index as int];
    a1.update(
        t.anchor_index as int,
        Anchor {
            hit_count: wrap(s.hit_count + 1),
            label: if s.label@.len() == 0 { t.label } else { s.label },
            tsc_elapsed_inclusive: wrap(elapsed + t.elapsed_before),
            tsc_elapsed_exclusive: wrap(s.tsc_elapsed_exclusive + elapsed),
        },
    )
}

impl DropTimer {
    /// The token names a region slot and a parent slot of the table.
    pub open spec fn wf(&self) -> bool {
        &&& 0 < self.anchor_index < MAX_ANCHORS
        &&& self.parent_index < MAX_ANCHORS
    }

    /// Enters region `id` with `label` at cycle `now`. The active region so
    /// far becomes its parent, and `id` becomes the active region.
    pub fn start(profiler: &mut Profiler, id: usize, label: &str, now: u64) -> (r: Result<
        DropTimer,
        ProfileError,
    >)
        requires
            old(profiler).wf(),
        ensures
            final(profiler).wf(),
            match r {
                Ok(t) => {
                    &&& open_result(id) is Ok
                    &&& t.wf()
                    &&& opened_timer(*old(profiler), id, label@, now, t)
                    &&& *final(profiler) == (Profiler { current_anchor: id, ..*old(profiler) })
                },
                Err(e) => {
                    &&& open_result(id) == Err::<(), ProfileError>(e)
                    &&& *final(profiler) == *old(profiler)
                },
            },
    {
        if id == 0 {
            return Err(ProfileError::InvalidId);
        }
        if id >= MAX_ANCHORS {
            return Err(ProfileError::OutOfRange);
        }
        let parent_index = profiler.current_anchor;
        profiler.current_anchor = id;
        let elapsed_before = profiler.anchors[id].tsc_elapsed_inclusive;
        Ok(DropTimer {
            label: label.to_owned(),
            cpu_start: now,
            anchor_index: id,
            parent_index,
            elapsed_before,
        })
    }

    /// Leaves the region of this token at cycle `now` and attributes the
    /// cycles elapsed since its entry; the parent becomes the active region
    /// again. Fails, leaving the profiler untouched, when the id is already
    /// bound to another label.
    pub fn stop(self, profiler: &mut Profiler, now: u64) -> (r: Result<(), ProfileError>)
        requires
            old(profiler).wf(),
            self.wf(),
            self.cpu_start <= now,
        ensures
            final(profiler).wf(),
            r is Err <==> label_clash(old(profiler).anchors@, self),
            r is Err ==> r == Err::<(), ProfileError>(ProfileError::LabelMismatch) && *final(profiler) == *old(profiler),
            r is Ok ==> {
                &&& final(profiler).anchors@ == closed_anchors(old(profiler).anchors@, self, (now - self.cpu_start) as u64)
                &&& final(profiler).current_anchor == self.parent_index
                &&& final(profiler).tsc_start == old(profiler).tsc_start
                &&& final(profiler).tsc_end == old(profiler).tsc_end
            },
    {
        let id = self.anchor_index;
        let parent = self.parent_index;
        let unbound = profiler.anchors[id].label.as_str().is_empty();
        if !unbound && profiler.anchors[id].label != self.label {
            return Err(ProfileError::LabelMismatch);
        }
        let elapsed = now - self.cpu_start;
        profiler.current_anchor = parent;
        let parent_exclusive = profiler.anchors[parent].tsc_elapsed_exclusive;
        profiler.anchors[parent].tsc_elapsed_exclusive = parent_exclusive.wrapping_sub(elapsed);
        let own = &mut profiler.anchors[id];
        own.tsc_elapsed_exclusive = own.tsc_elapsed_exclusive.wrapping_add(elapsed);
        own.tsc_elapsed_inclusive = elapsed.wrapping_add(self.elapsed_before);
        own.hit_count = own.hit_count.wrapping_add(1);
        if own.label.as_str().is_empty() {
            own.label = self.label;
        }
        Ok(())
    }
}

/// One row of the session report.
pub struct ReportLine {
    pub hit_count: u64,
    pub label: String,
    pub exclusive: u64,
    /// The inclusive cycles, given only where they differ from the exclusive
    /// ones (a region without nested regions has the two equal).
    pub inclusive: Option<u64>,
}

/// The report row of anchor `a`.
pub open spec fn line_of(a: Anchor) -> ReportLine {
    ReportLine {
        hit_count: a.hit_count,
        label: a.label,
        exclusive: a.tsc_elapsed_exclusive,
        inclusive: if a.tsc_elapsed_exclusive != a.tsc_elapsed_inclusive {
            Some(a.tsc_elapsed_inclusive)
        } else {
            None
        },
    }
}

/// The rows of the anchors from slot `i` on that were hit at least once, in
/// table order.
pub open spec fn report_from(anchors: Seq<Anchor>, i: int) -> Seq<ReportLine>
    decreases anchors.len() - i,
{
    if i < 0 || i >= anchors.len() {
        Seq::empty()
    } else if anchors[i].hit_count > 0 {
        seq![line_of(anchors[i])] + report_from(anchors, i + 1)
    } else {
        report_from(anchors, i + 1)
    }
}

impl Profiler {
    /// Ends the session at cycle `now` and returns its length in cycles.
    pub fn stop(&mut self, now: u64) -> (total: u64)
        requires
            old(self).wf(),
            old(self).tsc_start <= now,
        ensures
            total == now - old(self).tsc_start,
            *final(self) == (Profiler { tsc_end: now, ..*old(self) }),
    {
        self.tsc_end = now;
        now - self.tsc_start
    }

    /// The report rows: every region slot (the root slot 0 excluded) that
    /// was hit at least once, in table order.
    pub fn report(&self) -> (r: Vec<ReportLine>)
        requires
            self.wf(),
        ensures
            r@ == report_from(self.anchors@, 1),
    {
        let mut r: Vec<ReportLine> = Vec::new();
        let mut i: usize = 1;
        while i < MAX_ANCHORS
            invariant
                1 <= i <= MAX_ANCHORS,
                self.wf(),
                r@ + report_from(self.anchors@, i as int) == report_from(self.anchors@, 1),
            decreases MAX_ANCHORS - i,
        {
            let a = &self.anchors[i];
            if a.hit_count > 0 {
                let inclusive = if a.tsc_elapsed_exclusive != a.tsc_elapsed_inclusive {
                    Some(a.tsc_elapsed_inclusive)
                } else {
                    None
                };
                let line = ReportLine {
                    hit_count: a.hit_count,
                    label: a.label.clone(),
                    exclusive: a.tsc_elapsed_exclusive,
                    inclusive,
                };
                proof {
                    assert(line == line_of(self.anchors@[i as int]));
                }
                r.push(line);
                assert(r@ + report_from(self.anchors@, i + 1) =~= (r@.drop_last()
                    + report_from(self.anchors@, i as int)));
            }
            i = i + 1;
        }
        assert(report_from(self.anchors@, MAX_ANCHORS as int) == Seq::<ReportLine>::empty());
        assert(r@ + Seq::<ReportLine>::empty() =~= r@);
        r
    }
}

/// Begins a session on `profiler` at cycle `now`.
pub fn begin_profile(profiler: &mut Profiler, now: u64)
    requires
        old(profiler).wf(),
    ensures
        final(profiler).is_fresh(now),
        final(profiler).tsc_end == old(profiler).tsc_end,
{
    profiler.begin(now);
}

/// Enters region `id` with `label` at cycle `now`; the returned token is
/// handed back to `DropTimer::stop` when the region is left.
pub fn measure_block(profiler: &mut Profiler, id: usize, label: &str, now: u64) -> (r: Result<
    DropTimer,
    ProfileError,
>)
    requires
        old(profiler).wf(),
    ensures
        final(profiler).wf(),
        match r {
            Ok(t) => {
                &&& open_result(id) is Ok
                &&& t.wf()
                &&& opened_timer(*old(profiler), id, label@, now, t)
                &&& *final(profiler) == (Profiler { current_anchor: id, ..*old(profiler) })
            },
            Err(e) => {
                &&& open_result(id) == Err::<(), ProfileError>(e)
                &&& *final(profiler) == *old(profiler)
            },
        },
{
    DropTimer::start(profiler, id, label, now)
}

} // verus!
