use vstd::prelude::*;

use super::api::{append_decimal, decimal, DomainScale, Result, ScaleError};
use super::number::{clamp, ScaleNumber};

verus! {

/// `a / b` rounded to the nearest integer, a half rounded up (for `a >= 0`, `b > 0`).
pub open spec fn round_div(a: int, b: int) -> int {
    (2 * a + b) / (2 * b)
}

/// `a / b` rounded toward zero (for `b > 0`).
pub open spec fn trunc_div(a: int, b: int) -> int {
    if a >= 0 {
        a / b
    } else {
        -((-a) / b)
    }
}

pub open spec fn abs(v: int) -> int {
    if v < 0 {
        -v
    } else {
        v
    }
}

/// A `Linear` scale in integers: the first domain value, the number of
/// coordinates and the domain's bounds.
pub struct LinearModel {
    pub start: int,
    pub dimension: nat,
    pub min: int,
    pub max: int,
}

impl LinearModel {
    /// What every scale satisfies.
    pub open spec fn wf(self) -> bool {
        &&& self.dimension >= 5
        &&& self.min <= self.max
        &&& (self.start == self.min || self.start == self.max)
    }

    /// `max - min`.
    pub open spec fn range(self) -> int {
        self.max - self.min
    }

    /// The domain value grows with the coordinate; a reversed scale starts at its maximum.
    pub open spec fn ascending(self) -> bool {
        self.start == self.min
    }

    /// `start` moved by `m` in the direction of the scale.
    pub open spec fn moved(self, m: int) -> int {
        if self.ascending() {
            self.start + m
        } else {
            self.start - m
        }
    }

    /// The coordinate of domain value `v`: its distance from `start`, scaled by
    /// `(dimension - 1) / range` and rounded; `None` outside `[min, max]`.
    pub open spec fn coordinate_of(self, v: int) -> Option<int> {
        if self.min <= v <= self.max {
            if self.range() == 0 {
                Some(0)
            } else {
                Some(round_div(abs(v - self.start) * (self.dimension - 1), self.range()))
            }
        } else {
            None
        }
    }

    /// The domain value at coordinate `c`: `start + ratio * c`, rounded, where
    /// `ratio = ±range / (dimension - 1)`.
    pub open spec fn domain_at(self, c: int) -> int {
        self.moved(round_div(self.range() * c, self.dimension - 1))
    }

    /// `domain_at(c)` for a coordinate below the dimension, else `None`.
    pub open spec fn domain_of(self, c: int) -> Option<int> {
        if 0 <= c < self.dimension {
            Some(self.domain_at(c))
        } else {
            None
        }
    }

    /// The walk over every coordinate.
    pub open spec fn native_walk(self) -> WalkModel {
        WalkModel {
            start: self.start,
            ascending: self.ascending(),
            range: self.range() as nat,
            dimension: self.dimension,
            stride: None,
            index: 0,
        }
    }

    /// The walk in domain steps of `|step|`.
    pub open spec fn interval_walk(self, step: int) -> WalkModel {
        WalkModel {
            start: self.start,
            ascending: self.ascending(),
            range: self.range() as nat,
            dimension: self.dimension,
            stride: Some(abs(step) as nat),
            index: 0,
        }
    }
}

/// A `DomainIter` in integers. Element `k` is `(value(k), coordinate(k))`;
/// the walk goes on while the coordinate is below the dimension.
pub struct WalkModel {
    pub start: int,
    pub ascending: bool,
    pub range: nat,
    pub dimension: nat,
    /// `None`: one element per coordinate. `Some(s)`: the domain advances by `s` per element.
    pub stride: Option<nat>,
    /// The element that comes next.
    pub index: nat,
}

impl WalkModel {
    pub open spec fn moved(self, m: int) -> int {
        if self.ascending {
            self.start + m
        } else {
            self.start - m
        }
    }

    /// The domain value of element `k`: `start + k * ratio` truncated toward
    /// zero, as a cast from floating point does, or `start` moved by `k` strides.
    pub open spec fn value(self, k: nat) -> int {
        match self.stride {
            None => trunc_div(
                self.moved_scaled(self.start * (self.dimension - 1), (self.range * k) as int),
                self.dimension - 1,
            ),
            Some(s) => self.moved((k * s) as int),
        }
    }

    pub open spec fn moved_scaled(self, origin: int, m: int) -> int {
        if self.ascending {
            origin + m
        } else {
            origin - m
        }
    }

    /// The coordinate of element `k`; in steps over an empty range every element
    /// after the first lies beyond the dimension.
    pub open spec fn coordinate(self, k: nat) -> int {
        match self.stride {
            None => k as int,
            Some(s) => if k == 0 {
                0
            } else if self.range == 0 {
                self.dimension as int
            } else {
                round_div((k * s) * (self.dimension - 1), self.range as int)
            },
        }
    }

    pub open spec fn emits(self, k: nat) -> bool {
        self.coordinate(k) < self.dimension
    }

    /// The walk after one element. With a zero stride every element is the same,
    /// and the walk stays where it is.
    pub open spec fn advanced(self) -> WalkModel {
        WalkModel {
            index: if self.stride == Some(0nat) {
                self.index
            } else {
                self.index + 1
            },
            ..self
        }
    }
}

/// Enumeration of a scale: an ordered, lazily produced sequence of
/// `(domain value, coordinate)` pairs.
pub trait IterableScale<DT: ScaleNumber> {
    spec fn iter_model(&self) -> WalkModel;

    spec fn intervals_model(&self, step: DT) -> WalkModel;

    /// One element per coordinate, from `0` to `dimension - 1`.
    fn iter(&self) -> (r: DomainIter<DT>)
        ensures
            r@ == self.iter_model(),
    ;

    /// Elements `step` apart in the domain, at the coordinates nearest to them.
    fn intervals(&self, step: DT) -> (r: DomainIter<DT>)
        ensures
            r@ == self.intervals_model(step),
    ;
}

/// A continuous mapping between `[min, max]` of an integer domain and the
/// coordinates `0..dimension`. Computed exactly in `i128`.
#[derive(Debug)]
pub struct Linear<DT: ScaleNumber> {
    start: DT,
    dimension: usize,
    min: DT,
    max: DT,
    domain_range: u64,
}

/// The cursor that produces the elements of `iter` and `intervals`.
#[derive(Debug)]
pub struct DomainIter<DT: ScaleNumber> {
    start: DT,
    ascending: bool,
    domain_range: u64,
    dimension_end: usize,
    stride: Option<u64>,
    index: u64,
}

impl<DT: ScaleNumber> View for Linear<DT> {
    type V = LinearModel;

    closed spec fn view(&self) -> LinearModel {
        LinearModel {
            start: self.start.as_int(),
            dimension: self.dimension as nat,
            min: self.min.as_int(),
            max: self.max.as_int(),
        }
    }
}

impl<DT: ScaleNumber> View for DomainIter<DT> {
    type V = WalkModel;

    closed spec fn view(&self) -> WalkModel {
        WalkModel {
            start: self.start.as_int(),
            ascending: self.ascending,
            range: self.domain_range as nat,
            dimension: self.dimension_end as nat,
            stride: match self.stride {
                None => None,
                Some(s) => Some(s as nat),
            },
            index: self.index as nat,
        }
    }
}

proof fn lemma_round_div_below(a: int, b: int, n: int)
    requires
        0 <= a <= b * n,
        b > 0,
        n >= 0,
    ensures
        0 <= round_div(a, b) <= n,
{
    assert(2 * a + b < 2 * b * (n + 1)) by (nonlinear_arith)
        requires
            0 <= a <= b * n,
            b > 0,
    ;
    assert((2 * a + b) / (2 * b) < n + 1) by (nonlinear_arith)
        requires
            2 * a + b < 2 * b * (n + 1),
            b > 0,
            a >= 0,
    ;
    assert(0 <= (2 * a + b) / (2 * b)) by (nonlinear_arith)
        requires
            a >= 0,
            b > 0,
    ;
}

proof fn lemma_product_bound(a: int, b: int, x: int, y: int)
    requires
        0 <= a <= x,
        0 <= b <= y,
    ensures
        0 <= a * b <= x * y,
{
    assert(0 <= a * b <= x * y) by (nonlinear_arith)
        requires
            0 <= a <= x,
            0 <= b <= y,
    ;
}


proof fn lemma_far_step_beyond(a: int, r: int, span: int)
    requires
        a >= 2 * r,
        r > 0,
        span >= 1,
    ensures
        round_div(a * span, r) >= span + 1,
{
    assert(2 * (a * span) + r >= 2 * r * (span + 1)) by (nonlinear_arith)
        requires
            a >= 2 * r,
            r > 0,
            span >= 1,
    ;
    assert((2 * (a * span) + r) / (2 * r) >= span + 1) by (nonlinear_arith)
        requires
            2 * (a * span) + r >= 2 * r * (span + 1),
            r > 0,
    ;
}

impl<DT: ScaleNumber> DomainIter<DT> {
    #[verifier::type_invariant]
    spec fn well_formed(self) -> bool {
        &&& self.dimension_end >= 5
        &&& DT::spec_safe_min() <= self.start.as_int() <= DT::spec_safe_max()
        &&& self.domain_range <= DT::spec_safe_max()
        &&& match self.stride {
            None => self.index <= self.dimension_end,
            Some(s) => if s == 0 {
                self.index == 0
            } else if self.domain_range == 0 {
                self.index <= 1
            } else {
                self.index <= 2 * self.domain_range
            },
        }
    }

    /// The next `(domain value, coordinate)` pair, or `None` once the coordinate
    /// reaches the dimension. A domain value beyond the type's range saturates.
    pub fn next(&mut self) -> (r: Option<(DT, usize)>)
        ensures
            old(self)@.emits(old(self)@.index) ==> {
                &&& r == Some(
                    (
                        DT::of_int(
                            clamp(
                                old(self)@.value(old(self)@.index),
                                DT::type_min(),
                                DT::type_max(),
                            ),
                        ),
                        old(self)@.coordinate(old(self)@.index) as usize,
                    ),
                )
                &&& final(self)@ == old(self)@.advanced()
            },
            !old(self)@.emits(old(self)@.index) ==> r is None && final(self)@ == old(self)@,
    {
        proof {
            use_type_invariant(&*self);
            DT::lemma_bounds();
        }
        let k = self.index;
        let dimension = self.dimension_end as u128;
        let span = dimension - 1;
        let range = self.domain_range as u128;
        let s = self.start.to_wide();
        match self.stride {
            None => {
                if (k as u128) < dimension {
                    proof {
                        lemma_product_bound(range as int, k as int, range as int, span as int);
                        lemma_product_bound(
                            range as int,
                            span as int,
                            0x20_0000_0000_0000,
                            0xffff_ffff_ffff_ffff,
                        );
                    }
                    let advance = (range * (k as u128)) as i128;
                    let s_abs: u128 = if s < 0 {
                        (-s) as u128
                    } else {
                        s as u128
                    };
                    proof {
                        lemma_product_bound(
                            s_abs as int,
                            span as int,
                            0x20_0000_0000_0000,
                            0xffff_ffff_ffff_ffff,
                        );
                    }
                    let scaled_start = if s < 0 {
                        -((s_abs * span) as i128)
                    } else {
                        (s_abs * span) as i128
                    };
                    proof {
                        assert(scaled_start == s * span) by (nonlinear_arith)
                            requires
                                s_abs == if s < 0 {
                                    -s
                                } else {
                                    s as int
                                },
                                scaled_start == if s < 0 {
                                    -(s_abs * span)
                                } else {
                                    s_abs * span
                                },
                        ;
                    }
                    let numerator = if self.ascending {
                        scaled_start + advance
                    } else {
                        scaled_start - advance
                    };
                    let v = if numerator >= 0 {
                        (numerator as u128 / span) as i128
                    } else {
                        -(((-numerator) as u128 / span) as i128)
                    };
                    proof {
                        assert(numerator == old(self)@.moved_scaled(s * span, range * k));
                        assert(v == old(self)@.value(k as nat));
                    }
                    self.index = k + 1;
                    Some((DT::from_wide(v), k as usize))
                } else {
                    None
                }
            },
            Some(stride) => {
                if k == 0 {
                    if stride != 0 {
                        self.index = 1;
                    }
                    Some((DT::from_wide(s), 0))
                } else if range == 0 {
                    None
                } else {
                    proof {
                        lemma_product_bound(
                            k as int,
                            stride as int,
                            0x40_0000_0000_0000,
                            0xffff_ffff_ffff_ffff,
                        );
                    }
                    let a = (k as u128) * (stride as u128);
                    if a >= 2 * range {
                        proof {
                            lemma_far_step_beyond(a as int, range as int, span as int);
                        }
                        None
                    } else {
                        proof {
                            lemma_product_bound(
                                a as int,
                                span as int,
                                0x40_0000_0000_0000,
                                0xffff_ffff_ffff_ffff,
                            );
                        }
                        let c = (2 * (a * span) + range) / (2 * range);
                        if c < dimension {
                            let v = if self.ascending {
                                s + a as i128
                            } else {
                                s - a as i128
                            };
                            proof {
                                assert(k < 2 * range) by (nonlinear_arith)
                                    requires
                                        a == k * stride,
                                        stride >= 1,
                                        a < 2 * range,
                                ;
                            }
                            self.index = k + 1;
                            Some((DT::from_wide(v), c as usize))
                        } else {
                            None
                        }
                    }
                }
            },
        }
    }
}

impl<DT: ScaleNumber> Linear<DT> {
    #[verifier::type_invariant]
    spec fn well_formed(self) -> bool {
        &&& self.dimension >= 5
        &&& DT::spec_safe_min() <= self.min.as_int() <= self.max.as_int() <= DT::spec_safe_max()
        &&& self.domain_range == self.max.as_int() - self.min.as_int()
        &&& self.domain_range <= DT::spec_safe_max()
        &&& (self.start.as_int() == self.min.as_int() || self.start.as_int()
            == self.max.as_int())
    }

    /// The bounds of the domain from `start` to `end`, smaller first.
    pub open spec fn bounds(start: DT, end: DT) -> (int, int) {
        if start.as_int() < end.as_int() {
            (start.as_int(), end.as_int())
        } else {
            (end.as_int(), start.as_int())
        }
    }

    /// The domain `[lo, hi]` lies in the type's safe range, and so does its length.
    pub open spec fn domain_fits(lo: int, hi: int) -> bool {
        &&& DT::spec_safe_min() <= lo
        &&& hi <= DT::spec_safe_max()
        &&& hi - lo <= DT::spec_safe_max()
    }

    /// The explanation carried by `OutOfRange` for the domain `[lo, hi]`.
    pub open spec fn out_of_range_text(lo: int, hi: int) -> Seq<char> {
        if lo < DT::spec_safe_min() {
            "minimum value "@ + decimal(lo) + " is out of range; must be larger than "@ + decimal(
                DT::spec_safe_min(),
            )
        } else if hi > DT::spec_safe_max() {
            "maximum value "@ + decimal(hi) + " is out of range; must be less than "@ + decimal(
                DT::spec_safe_max(),
            )
        } else {
            "Difference between "@ + decimal(lo) + " and "@ + decimal(hi)
                + " is out of range; must be less than "@ + decimal(DT::spec_safe_max())
        }
    }

    /// A scale from `start` to `end` over `dimension` coordinates. A reversed
    /// domain (`end < start`) maps `start` to coordinate 0 all the same.
    pub fn try_new(start: DT, end: DT, dimension: usize) -> (r: Result<Self>)
        ensures
            dimension < 5 ==> r == Err::<Self, ScaleError>(ScaleError::DimensionTooSmall),
            dimension >= 5 ==> match r {
                Ok(scale) => {
                    &&& Self::domain_fits(Self::bounds(start, end).0, Self::bounds(start, end).1)
                    &&& scale@ == (LinearModel {
                        start: start.as_int(),
                        dimension: dimension as nat,
                        min: Self::bounds(start, end).0,
                        max: Self::bounds(start, end).1,
                    })
                    &&& scale@.wf()
                },
                Err(e) => {
                    &&& !Self::domain_fits(Self::bounds(start, end).0, Self::bounds(start, end).1)
                    &&& match e {
                        ScaleError::OutOfRange { explain } => explain@ == Self::out_of_range_text(
                            Self::bounds(start, end).0,
                            Self::bounds(start, end).1,
                        ),
                        _ => false,
                    }
                },
            },
    {
        proof {
            DT::lemma_bounds();
        }
        if dimension < 5 {
            return Err(ScaleError::DimensionTooSmall);
        }
        let (min, max) = if start.to_wide() < end.to_wide() {
            (start, end)
        } else {
            (end, start)
        };
        let lo = min.to_wide();
        let hi = max.to_wide();
        let safe_min = DT::safe_min().to_wide();
        let safe_max = DT::safe_max().to_wide();
        if lo < safe_min {
            let mut explain = String::from_str("minimum value ");
            append_decimal(&mut explain, lo);
            explain.append(" is out of range; must be larger than ");
            append_decimal(&mut explain, safe_min);
            return Err(ScaleError::OutOfRange { explain });
        }
        if hi > safe_max {
            let mut explain = String::from_str("maximum value ");
            append_decimal(&mut explain, hi);
            explain.append(" is out of range; must be less than ");
            append_decimal(&mut explain, safe_max);
            return Err(ScaleError::OutOfRange { explain });
        }
        if hi - lo > safe_max {
            let mut explain = String::from_str("Difference between ");
            append_decimal(&mut explain, lo);
            explain.append(" and ");
            append_decimal(&mut explain, hi);
            explain.append(" is out of range; must be less than ");
            append_decimal(&mut explain, safe_max);
            return Err(ScaleError::OutOfRange { explain });
        }
        Ok(Linear { start, dimension, min, max, domain_range: (hi - lo) as u64 })
    }

    fn create_iter(&self, stride: Option<u64>) -> (r: DomainIter<DT>)
        ensures
            r@ == (WalkModel {
                start: self@.start,
                ascending: self@.ascending(),
                range: self@.range() as nat,
                dimension: self@.dimension,
                stride: match stride {
                    None => None,
                    Some(s) => Some(s as nat),
                },
                index: 0,
            }),
    {
        proof {
            use_type_invariant(self);
            DT::lemma_bounds();
        }
        DomainIter {
            start: self.start,
            ascending: self.start.to_wide() == self.min.to_wide(),
            domain_range: self.domain_range,
            dimension_end: self.dimension,
            stride,
            index: 0,
        }
    }
}

impl<DT: ScaleNumber> DomainScale<DT> for Linear<DT> {
    open spec fn spec_domain_to_coordinate(&self, value: DT) -> Option<usize> {
        match self@.coordinate_of(value.as_int()) {
            Some(c) => Some(c as usize),
            None => None,
        }
    }

    open spec fn spec_coordinate_to_domain(&self, coordinate: usize) -> Option<DT> {
        match self@.domain_of(coordinate as int) {
            Some(v) => Some(DT::of_int(v)),
            None => None,
        }
    }

    fn domain_to_coordinate(&self, value: DT) -> (r: Option<usize>) {
        proof {
            use_type_invariant(self);
            DT::lemma_bounds();
        }
        let v = value.to_wide();
        if self.min.to_wide() <= v && v <= self.max.to_wide() {
            if self.domain_range == 0 {
                return Some(0);
            }
            let s = self.start.to_wide();
            let diff: u128 = if v < s {
                (s - v) as u128
            } else {
                (v - s) as u128
            };
            let span = (self.dimension - 1) as u128;
            let range = self.domain_range as u128;
            proof {
                assert(diff <= range);
                lemma_product_bound(diff as int, span as int, range as int, span as int);
                lemma_product_bound(range as int, span as int, 0x20_0000_0000_0000, 0xffff_ffff_ffff_ffff);
                lemma_product_bound(diff as int, span as int, range as int, span as int);
                lemma_round_div_below(diff * span, range as int, span as int);
            }
            let c = (2 * (diff * span) + range) / (2 * range);
            Some(c as usize)
        } else {
            None
        }
    }

    fn coordinate_to_domain(&self, coordinate: usize) -> (r: Option<DT>) {
        proof {
            use_type_invariant(self);
            DT::lemma_bounds();
        }
        if coordinate < self.dimension {
            let span = (self.dimension - 1) as u128;
            let range = self.domain_range as u128;
            let c = coordinate as u128;
            proof {
                lemma_product_bound(range as int, c as int, range as int, span as int);
                lemma_product_bound(range as int, span as int, 0x20_0000_0000_0000, 0xffff_ffff_ffff_ffff);
                lemma_round_div_below(range * c, span as int, range as int);
            }
            let m = ((2 * (range * c) + span) / (2 * span)) as i128;
            let s = self.start.to_wide();
            let v = if s == self.min.to_wide() {
                s + m
            } else {
                s - m
            };
            Some(DT::from_wide(v))
        } else {
            None
        }
    }
}

impl<DT: ScaleNumber> IterableScale<DT> for Linear<DT> {
    open spec fn iter_model(&self) -> WalkModel {
        self@.native_walk()
    }

    open spec fn intervals_model(&self, step: DT) -> WalkModel {
        self@.interval_walk(step.as_int())
    }

    fn iter(&self) -> (r: DomainIter<DT>) {
        self.create_iter(None)
    }

    fn intervals(&self, step: DT) -> (r: DomainIter<DT>) {
        proof {
            DT::lemma_bounds();
        }
        let w = step.to_wide();
        let stride: u64 = if w < 0 {
            (-w) as u64
        } else {
            w as u64
        };
        self.create_iter(Some(stride))
    }
}

} // verus!
