use core::ops::Range;
use vstd::prelude::*;

use crate::scales::ScaleNumber;

verus! {

/// One element of a `ScaledSteps` enumeration: a domain value and its coordinate.
#[derive(Debug, PartialEq)]
pub struct ScaledStep<'ss, DOMAIN> {
    pub value: &'ss DOMAIN,
    pub dimension: usize,
}

/// Evenly spaced domain values over a fixed dimension, computed once.
/// Value `i` sits at coordinate `dimension_start + i * dimension_step`.
pub struct ScaledSteps<DOMAIN = u16> {
    dimension: usize,
    values: Vec<DOMAIN>,
    dimension_step: usize,
    dimension_start: usize,
}

/// The cursor over the elements of a `ScaledSteps`.
pub struct ScaledStepsIter<'ssi, DOMAIN> {
    dimension_start: usize,
    dimension_step: usize,
    values: &'ssi Vec<DOMAIN>,
    index: usize,
}

/// A `ScaledSteps` in mathematical terms.
pub struct ScaledStepsModel<DOMAIN> {
    pub dimension: nat,
    pub values: Seq<DOMAIN>,
    pub dimension_step: nat,
    pub dimension_start: nat,
}

/// A `ScaledStepsIter` in mathematical terms; `index` is the element that comes next.
pub struct ScaledStepsIterModel<DOMAIN> {
    pub values: Seq<DOMAIN>,
    pub dimension_step: nat,
    pub dimension_start: nat,
    pub index: nat,
}

impl<DOMAIN> ScaledStepsIterModel<DOMAIN> {
    /// The coordinate of element `i`.
    pub open spec fn coordinate(self, i: int) -> int {
        self.dimension_start + i * self.dimension_step
    }
}

impl<DOMAIN> View for ScaledSteps<DOMAIN> {
    type V = ScaledStepsModel<DOMAIN>;

    closed spec fn view(&self) -> ScaledStepsModel<DOMAIN> {
        ScaledStepsModel {
            dimension: self.dimension as nat,
            values: self.values@,
            dimension_step: self.dimension_step as nat,
            dimension_start: self.dimension_start as nat,
        }
    }
}

impl<'ssi, DOMAIN> View for ScaledStepsIter<'ssi, DOMAIN> {
    type V = ScaledStepsIterModel<DOMAIN>;

    closed spec fn view(&self) -> ScaledStepsIterModel<DOMAIN> {
        ScaledStepsIterModel {
            values: self.values@,
            dimension_step: self.dimension_step as nat,
            dimension_start: self.dimension_start as nat,
            index: self.index as nat,
        }
    }
}

/// The domain step of a discrete range of `distance > 0` values over
/// `dimension > 0` coordinates, in absolute value: one value per step where
/// the coordinates outnumber the values, else the quotient rounded up.
pub open spec fn discrete_stride(distance: int, dimension: int) -> int {
    if dimension > distance {
        1
    } else {
        distance / dimension + if distance % dimension != 0 {
            1int
        } else {
            0
        }
    }
}

/// The coordinate step of a discrete range: several coordinates per value
/// where the coordinates outnumber the values, else one.
pub open spec fn discrete_dimension_step(distance: int, dimension: int) -> int {
    if dimension > distance {
        dimension / distance
    } else {
        1
    }
}

/// How many values a discrete range emits: `distance / stride`, one more
/// where that leaves a remainder.
pub open spec fn discrete_count(distance: int, dimension: int) -> int {
    let stride = discrete_stride(distance, dimension);
    distance / stride + if distance % stride != 0 {
        1int
    } else {
        0
    }
}

/// Value `i` of the discrete range from `start` towards `end`.
pub open spec fn discrete_value(start: int, end: int, dimension: int, i: int) -> int {
    let stride = discrete_stride(abs_diff(start, end), dimension);
    if start > end {
        start - i * stride
    } else {
        start + i * stride
    }
}

pub open spec fn abs_diff(a: int, b: int) -> int {
    if a < b {
        b - a
    } else {
        a - b
    }
}

proof fn lemma_ordered_fits(dimension: int, count: int)
    requires
        dimension >= 0,
        count >= 0,
    ensures
        dimension / (count + 1) + count * (dimension / (count + 1)) <= dimension,
{
    let q = dimension / (count + 1);
    assert(q * (count + 1) <= dimension) by (nonlinear_arith)
        requires
            q == dimension / (count + 1),
            dimension >= 0,
            count >= 0,
    ;
    assert(q + count * q == q * (count + 1)) by (nonlinear_arith);
}

proof fn lemma_discrete_fits(distance: int, dimension: int)
    requires
        distance > 0,
        dimension > 0,
    ensures
        1 <= discrete_stride(distance, dimension) <= distance,
        1 <= discrete_count(distance, dimension),
        discrete_count(distance, dimension) * discrete_dimension_step(distance, dimension)
            <= dimension,
        (discrete_count(distance, dimension) - 1) * discrete_stride(distance, dimension)
            < distance,
{
    let stride = discrete_stride(distance, dimension);
    let count = discrete_count(distance, dimension);
    if dimension > distance {
        let q = dimension / distance;
        assert(distance * q <= dimension) by (nonlinear_arith)
            requires
                q == dimension / distance,
                distance > 0,
                dimension >= 0,
        ;
        assert(count == distance);
    } else {
        assert(stride >= 1) by (nonlinear_arith)
            requires
                stride == distance / dimension + if distance % dimension != 0 {
                    1int
                } else {
                    0
                },
                distance >= dimension > 0,
        ;
        assert(stride <= distance) by (nonlinear_arith)
            requires
                stride == distance / dimension + if distance % dimension != 0 {
                    1int
                } else {
                    0
                },
                distance >= dimension > 0,
        ;
        assert(stride * dimension >= distance) by (nonlinear_arith)
            requires
                stride == distance / dimension + if distance % dimension != 0 {
                    1int
                } else {
                    0
                },
                distance >= dimension > 0,
        ;
        assert(count <= dimension) by (nonlinear_arith)
            requires
                count == distance / stride + if distance % stride != 0 {
                    1int
                } else {
                    0
                },
                stride * dimension >= distance,
                stride >= 1,
                distance > 0,
                dimension > 0,
        ;
    }
    assert(1 <= count) by (nonlinear_arith)
        requires
            count == distance / stride + if distance % stride != 0 {
                1int
            } else {
                0
            },
            stride >= 1,
            distance > 0,
    ;
    assert((count - 1) * stride < distance) by (nonlinear_arith)
        requires
            count == distance / stride + if distance % stride != 0 {
                1int
            } else {
                0
            },
            stride >= 1,
            distance > 0,
    ;
}

/// Every value of a discrete range lies between its start (included) and its
/// end (left out): the rounded-up domain step never carries a value past the end.
pub proof fn lemma_discrete_values_stop_before_end(start: int, end: int, dimension: int, i: int)
    requires
        dimension > 0,
        start != end,
        0 <= i < discrete_count(abs_diff(start, end), dimension),
    ensures
        start < end ==> start <= discrete_value(start, end, dimension, i) < end,
        start > end ==> end < discrete_value(start, end, dimension, i) <= start,
{
    let distance = abs_diff(start, end);
    let stride = discrete_stride(distance, dimension);
    lemma_discrete_fits(distance, dimension);
    assert(0 <= i * stride <= (discrete_count(distance, dimension) - 1) * stride) by (nonlinear_arith)
        requires
            0 <= i <= discrete_count(distance, dimension) - 1,
            stride >= 1,
    ;
}

impl<DOMAIN> ScaledSteps<DOMAIN> {
    #[verifier::type_invariant]
    spec fn fits(self) -> bool {
        self.dimension_start + self.values.len() * self.dimension_step <= self.dimension
    }

    /// No values yet, over `dimension` coordinates.
    pub fn new(dimension: usize) -> (r: Self)
        ensures
            r@ == (ScaledStepsModel::<DOMAIN> {
                dimension: dimension as nat,
                values: Seq::empty(),
                dimension_step: 1,
                dimension_start: 0,
            }),
    {
        ScaledSteps { dimension, values: Vec::new(), dimension_step: 1, dimension_start: 0 }
    }

    /// The elements, in order: value `i` with coordinate
    /// `dimension_start + i * dimension_step`.
    pub fn iter<'ssi>(&'ssi self) -> (r: ScaledStepsIter<'ssi, DOMAIN>)
        ensures
            r@ == (ScaledStepsIterModel {
                values: self@.values,
                dimension_step: self@.dimension_step,
                dimension_start: self@.dimension_start,
                index: 0,
            }),
            self@.dimension_start + self@.values.len() * self@.dimension_step
                <= self@.dimension,
    {
        proof {
            use_type_invariant(self);
        }
        ScaledStepsIter {
            dimension_start: self.dimension_start,
            dimension_step: self.dimension_step,
            values: &self.values,
            index: 0,
        }
    }

    /// The number of coordinates.
    pub fn dimension(&self) -> (r: usize)
        ensures
            r == self@.dimension,
    {
        self.dimension
    }

    /// Takes `values` as they are, one coordinate apart from coordinate 0.
    /// Domains whose steps are computed elsewhere (a floating-point range)
    /// come in this way.
    pub fn unit_steps(self, values: Vec<DOMAIN>) -> (r: Self)
        requires
            values@.len() <= self@.dimension,
        ensures
            r@ == (ScaledStepsModel {
                dimension: self@.dimension,
                values: values@,
                dimension_step: 1,
                dimension_start: 0,
            }),
    {
        ScaledSteps { dimension: self.dimension, values, dimension_step: 1, dimension_start: 0 }
    }

    /// Labels in order, as many as fit: at most `dimension - 1` of them, centred
    /// with equal margins, the first at `dimension / (count + 1)`.
    pub fn ordered(self, steps: Vec<DOMAIN>) -> (r: Self)
        ensures
            r@.dimension == self@.dimension,
            r@.values == steps@.subrange(
                0,
                if steps@.len() < self@.dimension - 1 {
                    steps@.len() as int
                } else if self@.dimension == 0 {
                    0
                } else {
                    self@.dimension - 1
                },
            ),
            r@.dimension_step == self@.dimension / (r@.values.len() + 1),
            r@.dimension_start == r@.dimension_step,
    {
        let dimension = self.dimension;
        let max_index = if dimension == 0 {
            0
        } else {
            dimension - 1
        };
        let mut values = steps;
        values.truncate(max_index);
        let dimension_step = dimension / (values.len() + 1);
        proof {
            lemma_ordered_fits(dimension as int, values.len() as int);
        }
        ScaledSteps { dimension, values, dimension_step, dimension_start: dimension_step }
    }
}

impl<N: ScaleNumber> ScaledSteps<N> {
    /// Integer values from `r.start` towards `r.end` (`r.end` itself left out;
    /// either direction), spread over the dimension. Where the coordinates
    /// outnumber the values, each value is one more (or less) than the last
    /// and several coordinates lie between them; else one coordinate per
    /// value and the domain step rounded up, so that no value passes `r.end`.
    /// An empty range, or a zero dimension, gives no values.
    pub fn discrete_range(self, r: Range<N>) -> (result: Self)
        ensures
            result@.dimension == self@.dimension,
            result@.dimension_start == 0,
            ({
                let (a, b, d) = (r.start.as_int(), r.end.as_int(), self@.dimension as int);
                if d == 0 || a == b {
                    result@.values.len() == 0 && result@.dimension_step == 1
                } else {
                    &&& result@.dimension_step == discrete_dimension_step(abs_diff(a, b), d)
                    &&& result@.values.len() == discrete_count(abs_diff(a, b), d)
                    &&& forall|i: int|
                        0 <= i < result@.values.len() ==> #[trigger] result@.values[i].as_int()
                            == discrete_value(a, b, d, i)
                }
            }),
    {
        proof {
            N::lemma_bounds();
        }
        let dimension = self.dimension;
        let first = r.start.to_wide();
        let last = r.end.to_wide();
        if dimension == 0 || first == last {
            return ScaledSteps { dimension, values: Vec::new(), dimension_step: 1, dimension_start: 0 };
        }
        let descending = first > last;
        let distance: i128 = if descending {
            first - last
        } else {
            last - first
        };
        let d = dimension as i128;
        let (dimension_step, stride): (i128, i128) = if d > distance {
            (d / distance, 1)
        } else {
            (1, distance / d + if distance % d != 0 {
                1
            } else {
                0
            })
        };
        proof {
            lemma_discrete_fits(distance as int, d as int);
            assert(stride == discrete_stride(distance as int, d as int));
        }
        let count: i128 = distance / stride + if distance % stride != 0 {
            1
        } else {
            0
        };
        proof {
            assert(dimension_step >= 1) by (nonlinear_arith)
                requires
                    dimension_step == discrete_dimension_step(distance as int, d as int),
                    distance > 0,
                    d > 0,
            ;
            assert(count <= d) by (nonlinear_arith)
                requires
                    count * dimension_step <= d,
                    dimension_step >= 1,
                    count >= 1,
            ;
        }
        let mut values: Vec<N> = Vec::new();
        let mut current: i128 = first;
        let mut i: i128 = 0;
        while i < count
            invariant
                0 <= i <= count,
                count <= d,
                stride == discrete_stride(distance as int, d as int),
                (count - 1) * stride < distance,
                1 <= stride <= distance,
                distance <= 0x2_0000_0000_0000_0000,
                distance == abs_diff(first as int, last as int),
                descending == (first > last),
                current == if descending {
                    first - i * stride
                } else {
                    first + i * stride
                },
                N::type_min() <= first <= N::type_max(),
                N::type_min() <= last <= N::type_max(),
                values@.len() == i,
                forall|j: int|
                    0 <= j < i ==> #[trigger] values@[j].as_int() == discrete_value(
                        first as int,
                        last as int,
                        d as int,
                        j,
                    ),
                forall|v: int|
                    N::type_min() <= v <= N::type_max() ==> #[trigger] N::of_int(v).as_int() == v,
            decreases count - i,
        {
            proof {
                N::lemma_bounds();
                assert(i * stride <= (count - 1) * stride) by (nonlinear_arith)
                    requires
                        i <= count - 1,
                        stride >= 1,
                ;
            }
            values.push(N::from_wide(current));
            proof {
                assert((i + 1) * stride == i * stride + stride) by (nonlinear_arith);
            }
            current = if descending {
                current - stride
            } else {
                current + stride
            };
            i = i + 1;
        }
        ScaledSteps {
            dimension,
            values,
            dimension_step: dimension_step as usize,
            dimension_start: 0,
        }
    }
}

impl<'ssi, DOMAIN> ScaledStepsIter<'ssi, DOMAIN> {
    #[verifier::type_invariant]
    spec fn fits(self) -> bool {
        &&& self.index <= self.values.len()
        &&& self.dimension_start + self.values.len() * self.dimension_step <= usize::MAX
    }

    /// The next element, or `None` after the last.
    pub fn next(&mut self) -> (r: Option<ScaledStep<'ssi, DOMAIN>>)
        ensures
            old(self)@.index < old(self)@.values.len() ==> {
                &&& r is Some
                &&& *r.unwrap().value == old(self)@.values[old(self)@.index as int]
                &&& r.unwrap().dimension == old(self)@.coordinate(old(self)@.index as int)
                &&& final(self)@ == (ScaledStepsIterModel {
                    index: old(self)@.index + 1,
                    ..old(self)@
                })
            },
            old(self)@.index >= old(self)@.values.len() ==> r is None && final(self)@ == old(
                self,
            )@,
    {
        proof {
            use_type_invariant(&*self);
        }
        if self.index < self.values.len() {
            let i = self.index;
            proof {
                assert(self.dimension_start + i * self.dimension_step <= self.dimension_start
                    + self.values.len() * self.dimension_step) by (nonlinear_arith)
                    requires
                        i < self.values.len(),
                ;
            }
            let step = ScaledStep {
                value: &self.values[i],
                dimension: self.dimension_start + i * self.dimension_step,
            };
            self.index = i + 1;
            Some(step)
        } else {
            None
        }
    }
}

} // verus!
