//! The retention boundaries of one run.

use vstd::prelude::*;
use crate::timestamp::{seconds_before, Timestamp, MIN_SECS, SECS_PER_DAY, SECS_PER_WEEK};

verus! {

/// Number of retention boundaries.
pub const BOUNDARY_COUNT: usize = 6;

/// How far each boundary lies before "now", in seconds: nothing, one day,
/// one week, four weeks, 52 weeks and 104 weeks.
pub open spec fn retention_offsets() -> Seq<int> {
    seq![
        0int,
        SECS_PER_DAY as int,
        SECS_PER_WEEK as int,
        4 * SECS_PER_WEEK,
        52 * SECS_PER_WEEK,
        104 * SECS_PER_WEEK,
    ]
}

/// The boundaries that belong to `now`, most recent first.
pub open spec fn boundaries_of(now: Timestamp) -> Seq<Timestamp> {
    Seq::new(BOUNDARY_COUNT as nat, |k: int| now.earlier_by(retention_offsets()[k]))
}

/// `now` is an instant from which all six boundaries can be reached.
pub open spec fn supports_boundaries(now: Timestamp) -> bool {
    now.representable() && MIN_SECS + 104 * SECS_PER_WEEK <= now.secs
}

/// The six boundaries of one run, most recent first; fixed once from "now".
#[derive(Debug, PartialEq, Eq)]
pub struct RetentionBoundaries {
    marks: Vec<Timestamp>,
}

impl View for RetentionBoundaries {
    type V = Seq<Timestamp>;

    closed spec fn view(&self) -> Seq<Timestamp> {
        self.marks@
    }
}

impl RetentionBoundaries {
    #[verifier::type_invariant]
    spec fn well_formed(self) -> bool {
        supports_boundaries(self.marks@[0]) && self.marks@ == boundaries_of(self.marks@[0])
    }

    /// The boundaries for a run at `now`, or `None` where `now` is not an
    /// instant that supports them.
    pub fn from_now(now: Timestamp) -> (r: Option<RetentionBoundaries>)
        ensures
            r is Some <==> supports_boundaries(now),
            r matches Some(b) ==> b@ == boundaries_of(now),
    {
        if !(now.nanos < 1_000_000_000) {
            return None;
        }
        let b0 = seconds_before(now, 0)?;
        let b1 = seconds_before(now, SECS_PER_DAY)?;
        let b2 = seconds_before(now, SECS_PER_WEEK)?;
        let b3 = seconds_before(now, 4 * SECS_PER_WEEK)?;
        let b4 = seconds_before(now, 52 * SECS_PER_WEEK)?;
        let b5 = seconds_before(now, 104 * SECS_PER_WEEK)?;
        let mut marks: Vec<Timestamp> = Vec::new();
        marks.push(b0);
        marks.push(b1);
        marks.push(b2);
        marks.push(b3);
        marks.push(b4);
        marks.push(b5);
        assert(marks@ =~= boundaries_of(now));
        Some(RetentionBoundaries { marks })
    }

    /// The boundaries as a list, most recent first.
    pub fn marks(&self) -> (r: &Vec<Timestamp>)
        ensures
            r@ == self@,
            r@.len() == BOUNDARY_COUNT,
    {
        proof {
            use_type_invariant(self);
        }
        &self.marks
    }
}

/// Each boundary lies strictly before the one in front of it.
pub proof fn lemma_boundaries_strictly_decreasing(now: Timestamp, i: int, j: int)
    requires
        supports_boundaries(now),
        0 <= i < j < BOUNDARY_COUNT,
    ensures
        boundaries_of(now)[j].precedes(boundaries_of(now)[i]),
{
}

} // verus!
