//! A whole field selection and its resolution against a line's field count.

use vstd::prelude::*;
use crate::field_range::{span, FieldRange};

verus! {

/// The field numbers that `specs` selects on a line of `max` fields: what
/// each descriptor selects, one after the other in the order of `specs`.
/// Nothing is sorted and nothing is dropped as a duplicate.
pub open spec fn resolve(specs: Seq<FieldRange>, max: u32) -> Seq<u32> {
    specs.map_values(|r: FieldRange| r.selected(max)).flatten()
}

/// The position in a split line of the field numbered `field`.
pub open spec fn index_of(field: u32) -> u32 {
    (field - 1) as u32
}

/// Resolving a selection extended by one descriptor appends what that
/// descriptor selects.
pub proof fn lemma_resolve_push(specs: Seq<FieldRange>, last: FieldRange, max: u32)
    ensures
        resolve(specs.push(last), max) == resolve(specs, max) + last.selected(max),
{
    let each = |r: FieldRange| r.selected(max);
    assert(specs.push(last).map_values(each) =~= specs.map_values(each).push(each(last)));
    specs.map_values(each).lemma_flatten_push(each(last));
}

/// Resolution keeps the order of the selection: resolving two selections
/// written one after the other gives the first one's fields followed by the
/// second one's.
pub proof fn lemma_resolve_concat(first: Seq<FieldRange>, second: Seq<FieldRange>, max: u32)
    ensures
        resolve(first + second, max) == resolve(first, max) + resolve(second, max),
{
    let each = |r: FieldRange| r.selected(max);
    assert((first + second).map_values(each) =~= first.map_values(each) + second.map_values(each));
    vstd::seq_lib::lemma_flatten_concat(first.map_values(each), second.map_values(each));
}

/// Every resolved field number lies between 1 and the line's field count.
pub proof fn lemma_resolve_in_range(specs: Seq<FieldRange>, max: u32)
    ensures
        forall|k: int|
            0 <= k < resolve(specs, max).len() ==> 1 <= #[trigger] resolve(specs, max)[k] <= max,
    decreases specs.len(),
{
    if specs.len() == 0 {
        assert(specs.map_values(|r: FieldRange| r.selected(max)) =~= Seq::empty());
    } else {
        let init = specs.drop_last();
        let last = specs.last();
        assert(specs =~= init.push(last));
        lemma_resolve_push(init, last, max);
        lemma_resolve_in_range(init, max);
        last.lemma_selected_in_range(max);
    }
}

/// A field selection: descriptors in the order in which they were written.
#[derive(Debug)]
pub struct FieldList {
    pub fields: Vec<FieldRange>,
}

impl View for FieldList {
    type V = Seq<FieldRange>;

    open spec fn view(&self) -> Seq<FieldRange> {
        self.fields@
    }
}

impl FieldList {
    /// The 1-based numbers of the fields to output from a line of `max`
    /// fields, in the order of the selection.
    pub fn get_fields<'a>(&'a self, max: &'a u32) -> (values: Vec<u32>)
        ensures
            values@ == resolve(self@, *max),
            forall|k: int| 0 <= k < values@.len() ==> 1 <= #[trigger] values@[k] <= *max,
    {
        let mut values: Vec<u32> = Vec::new();
        let mut i: usize = 0;
        assert(self@.take(0).map_values(|r: FieldRange| r.selected(*max)) =~= Seq::empty());
        while i < self.fields.len()
            invariant
                i <= self.fields.len(),
                values@ == resolve(self@.take(i as int), *max),
            decreases self.fields.len() - i,
        {
            let (start, stop) = self.fields[i].get_field_range(max);
            let lo: u32 = if *start == 0 {
                1
            } else {
                *start
            };
            let hi: u32 = *stop;
            let ghost before = values@;
            let mut next: u64 = lo as u64;
            while next <= hi as u64
                invariant
                    1 <= lo <= next,
                    next == lo || next <= hi + 1,
                    values@ == before + Seq::new((next - lo) as nat, |k: int| (lo + k) as u32),
                decreases hi + 1 - next,
            {
                values.push(next as u32);
                next = next + 1;
                assert(values@ =~= before + Seq::new((next - lo) as nat, |k: int| (lo + k) as u32));
            }
            proof {
                let field = self@[i as int];
                field.lemma_selected_from_bounds(*max);
                assert(Seq::new((next - lo) as nat, |k: int| (lo + k) as u32) =~= span(lo, hi));
                assert(self@.take(i + 1) =~= self@.take(i as int).push(field));
                lemma_resolve_push(self@.take(i as int), field, *max);
            }
            i = i + 1;
        }
        proof {
            assert(self@.take(i as int) =~= self@);
            lemma_resolve_in_range(self@, *max);
        }
        values
    }

    /// The 0-based positions, in a line split into `length` fields, of the
    /// fields to output: each selected field number less one.
    pub fn get_indexes(&self, length: &u32) -> (indexes: Vec<u32>)
        ensures
            indexes@ == resolve(self@, *length).map_values(|f: u32| index_of(f)),
            forall|k: int| 0 <= k < indexes@.len() ==> #[trigger] indexes@[k] < *length,
    {
        let fields = self.get_fields(length);
        let mut indexes: Vec<u32> = Vec::new();
        let mut i: usize = 0;
        while i < fields.len()
            invariant
                i <= fields.len(),
                forall|k: int| 0 <= k < fields@.len() ==> 1 <= #[trigger] fields@[k] <= *length,
                indexes@ == fields@.take(i as int).map_values(|f: u32| index_of(f)),
            decreases fields.len() - i,
        {
            indexes.push(fields[i] - 1);
            i = i + 1;
            assert(indexes@ =~= fields@.take(i as int).map_values(|f: u32| index_of(f)));
        }
        assert(fields@.take(i as int) =~= fields@);
        indexes
    }
}

} // verus!
