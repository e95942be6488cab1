use vstd::prelude::*;

verus! {

/// Number of slots in the anchor table; region ids must stay below it.
pub const MAX_ANCHORS: usize = 2048;

/// Two to the sixty-fourth: cycle counts are kept modulo this.
pub open spec fn counter_range() -> int {
    0x1_0000_0000_0000_0000
}

/// The value of `x` reduced to the width of a cycle counter.
pub open spec fn wrap(x: int) -> u64 {
    (x % counter_range()) as u64
}

/// Ways in which the instrumentation API can be misused.
#[derive(Debug, Clone, Copy, PartialEq, Eq, Structural)]
pub enum ProfileError {
    /// The region id is not below the table's capacity.
    OutOfRange,
    /// The id 0 is reserved for the root and cannot name a region.
    InvalidId,
    /// The id was already bound to another label.
    LabelMismatch,
}

/// Accumulated statistics of one timed region.
#[derive(Debug)]
pub struct Anchor {
    pub hit_count: u64,
    pub label: String,
    pub tsc_elapsed_inclusive: u64,
    pub tsc_elapsed_exclusive: u64,
}

impl Anchor {
    /// Whether this slot has never been touched.
    pub open spec fn is_blank(&self) -> bool {
        &&& self.hit_count == 0
        &&& self.label@ == Seq::<char>::empty()
        &&& self.tsc_elapsed_inclusive == 0
        &&& self.tsc_elapsed_exclusive == 0
    }

    /// An unused slot: no hits, no cycles and the empty label.
    pub fn blank() -> (r: Self)
        ensures
            r.is_blank(),
    {
        Anchor {
            hit_count: 0,
            label: String::new(),
            tsc_elapsed_inclusive: 0,
            tsc_elapsed_exclusive: 0,
        }
    }
}

} // verus!
