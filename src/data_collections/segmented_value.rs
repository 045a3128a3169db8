use std::collections::btree_map::Iter;
use std::collections::BTreeMap;
use vstd::prelude::*;
use vstd::std_specs::btree::increasing_seq;
use vstd::std_specs::iter::IteratorSpec;

use crate::scales::ScaleNumber;

verus! {

broadcast use vstd::std_specs::btree::group_btree_axioms;

/// A total split into segments, each keyed by its index.
#[derive(Debug, Default)]
pub struct SegmentedValue<VAL> {
    segments: BTreeMap<usize, VAL>,
    magnitude: VAL,
}

/// A `SegmentedValue` in integers: the value of each segment, and the total.
pub struct SegmentedValueModel {
    pub segments: Map<usize, int>,
    pub height: int,
}

impl SegmentedValueModel {
    /// The value of segment `i`, zero where there is none.
    pub open spec fn segment(self, i: usize) -> int {
        if self.segments.contains_key(i) {
            self.segments[i]
        } else {
            0
        }
    }
}

impl<VAL: ScaleNumber> View for SegmentedValue<VAL> {
    type V = SegmentedValueModel;

    closed spec fn view(&self) -> SegmentedValueModel {
        SegmentedValueModel {
            segments: self.segments@.map_values(|v: VAL| v.as_int()),
            height: self.magnitude.as_int(),
        }
    }
}

impl<VAL: ScaleNumber> SegmentedValue<VAL> {
    /// Adds `value` to segment `segment_index` and to the total. Both sums must
    /// stay within the value type.
    pub fn add(&mut self, segment_index: usize, value: VAL)
        requires
            VAL::type_min() <= old(self)@.height + value.as_int() <= VAL::type_max(),
            VAL::type_min() <= old(self)@.segment(segment_index) + value.as_int()
                <= VAL::type_max(),
        ensures
            final(self)@.height == old(self)@.height + value.as_int(),
            final(self)@.segments == old(self)@.segments.insert(
                segment_index,
                old(self)@.segment(segment_index) + value.as_int(),
            ),
    {
        proof {
            VAL::lemma_bounds();
        }
        let total = self.magnitude.to_wide() + value.to_wide();
        self.magnitude = VAL::from_wide(total);
        let current = match self.segments.get(&segment_index) {
            Some(v) => v.to_wide(),
            None => 0,
        };
        self.segments.insert(segment_index, VAL::from_wide(current + value.to_wide()));
        proof {
            assert(final(self)@.segments =~= old(self)@.segments.insert(
                segment_index,
                old(self)@.segment(segment_index) + value.as_int(),
            ));
        }
    }

    /// The value of segment `segment_index`, if anything was added to it.
    pub fn value_of_segment(&self, segment_index: usize) -> (r: Option<VAL>)
        ensures
            r is Some <==> self@.segments.contains_key(segment_index),
            r is Some ==> r.unwrap().as_int() == self@.segments[segment_index],
    {
        match self.segments.get(&segment_index) {
            Some(v) => Some(*v),
            None => None,
        }
    }

    /// Whether no segment has a value.
    pub fn is_empty(&self) -> (r: bool)
        ensures
            r == (self@.segments.len() == 0),
    {
        proof {
            assert(self@.segments.dom() =~= self.segments@.dom());
        }
        self.segments.is_empty()
    }

    /// The number of segments with a value.
    pub fn len(&self) -> (r: usize)
        ensures
            r == self@.segments.len(),
    {
        proof {
            assert(self@.segments.dom() =~= self.segments@.dom());
        }
        self.segments.len()
    }

    /// The total of all that was added.
    pub fn height(&self) -> (r: VAL)
        ensures
            r.as_int() == self@.height,
    {
        self.magnitude
    }

    /// The segments in increasing order of their index.
    pub fn values(&self) -> (r: Iter<'_, usize, VAL>)
        ensures
            r.remaining().len() == self@.segments.len(),
            increasing_seq(r.remaining().map_values(|kv: (&usize, &VAL)| *kv.0)),
            forall|i: int|
                0 <= i < r.remaining().len() ==> self@.segments.contains_key(
                    *r.remaining()[i].0,
                ) && self@.segments[*r.remaining()[i].0] == (*r.remaining()[i].1).as_int(),
    {
        proof {
            assert(self@.segments.dom() =~= self.segments@.dom());
        }
        self.segments.iter()
    }
}

} // verus!
