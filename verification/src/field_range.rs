//! One descriptor of a field selection and the bounds it resolves to.

use vstd::prelude::*;

verus! {

/// The field numbers from `lo` to `hi`, both included, in increasing order.
/// Empty when `hi < lo`.
pub open spec fn span(lo: u32, hi: u32) -> Seq<u32> {
    Seq::new(
        if lo <= hi {
            (hi - lo + 1) as nat
        } else {
            0
        },
        |k: int| (lo + k) as u32,
    )
}

/// The smallest field number at or after `start` that names a field: field
/// numbers count from 1, so a start of 0 stands for 1.
pub open spec fn first_field(start: u32) -> u32 {
    if start == 0 {
        1
    } else {
        start
    }
}

/// A single entry of a field selection. Field numbers count from 1.
#[derive(Debug, Clone, Copy, PartialEq, Eq)]
pub enum FieldRange {
    /// Exactly one field.
    Value(u32),
    /// A field and every field after it, up to the end of the line.
    Range1(u32),
    /// A first and a last field, both included.
    Range2((u32, u32)),
}

impl FieldRange {
    /// The first field number the descriptor asks for.
    pub open spec fn start(self) -> u32 {
        match self {
            FieldRange::Value(n) => n,
            FieldRange::Range1(start) => start,
            FieldRange::Range2(bounds) => bounds.0,
        }
    }

    /// The last field number the descriptor reaches on a line of `max`
    /// fields, before looking at whether the line is long enough.
    pub open spec fn stop(self, max: u32) -> u32 {
        match self {
            FieldRange::Value(n) => n,
            FieldRange::Range1(_) => max,
            FieldRange::Range2(bounds) => if bounds.1 <= max { bounds.1 } else { max },
        }
    }

    /// The inclusive bounds selected on a line of `max` fields. A descriptor
    /// that starts beyond the line selects nothing, written as `(0, 0)`.
    pub open spec fn bounds(self, max: u32) -> (u32, u32) {
        if self.start() <= max {
            (self.start(), self.stop(max))
        } else {
            (0, 0)
        }
    }

    /// The field numbers the descriptor selects on a line of `max` fields, in
    /// increasing order. Nothing beyond the line is selected, and neither is
    /// field 0, which no line has.
    pub open spec fn selected(self, max: u32) -> Seq<u32> {
        match self {
            FieldRange::Value(n) => if 1 <= n <= max {
                seq![n]
            } else {
                Seq::empty()
            },
            FieldRange::Range1(start) => if start <= max {
                span(first_field(start), max)
            } else {
                Seq::empty()
            },
            FieldRange::Range2(bounds) => if bounds.0 <= max {
                span(first_field(bounds.0), if bounds.1 <= max { bounds.1 } else { max })
            } else {
                Seq::empty()
            },
        }
    }

    /// What a descriptor selects is the span between its clamped bounds, with
    /// field 0 left out.
    pub proof fn lemma_selected_from_bounds(self, max: u32)
        ensures
            self.selected(max) == span(first_field(self.bounds(max).0), self.bounds(max).1),
            self.bounds(max).1 <= max,
    {
        assert(self.selected(max) =~= span(first_field(self.bounds(max).0), self.bounds(max).1));
    }

    /// Every selected field number names a field of the line.
    pub proof fn lemma_selected_in_range(self, max: u32)
        ensures
            forall|k: int|
                0 <= k < self.selected(max).len() ==> 1 <= #[trigger] self.selected(max)[k] <= max,
    {
    }

    /// Clamps the descriptor to a line of `max` fields.
    pub fn get_field_range<'a>(&'a self, max: &'a u32) -> (range: (&'a u32, &'a u32))
        ensures
            (*range.0, *range.1) == self.bounds(*max),
    {
        match self {
            FieldRange::Value(start) => {
                if *start <= *max {
                    (start, start)
                } else {
                    (&0, &0)
                }
            },
            FieldRange::Range1(start) => {
                if *start <= *max {
                    (start, max)
                } else {
                    (&0, &0)
                }
            },
            FieldRange::Range2((start, stop)) => {
                if *start <= *max {
                    if *stop <= *max {
                        (start, stop)
                    } else {
                        (start, max)
                    }
                } else {
                    (&0, &0)
                }
            },
        }
    }
}

} // verus!
