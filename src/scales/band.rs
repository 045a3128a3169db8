use vstd::arithmetic::div_mod::{lemma_fundamental_div_mod, lemma_fundamental_div_mod_converse};
use vstd::prelude::*;

use super::linear::round_div;

verus! {

/// Paddings and alignment are fractions in thousandths.
pub const THOUSAND: u32 = 1000;

pub const DEFAULT_PADDING_INNER: u32 = 100;

pub const DEFAULT_PADDING_OUTER: u32 = 50;

pub const DEFAULT_ALIGN: u32 = 500;

/// The dimension needed so that `n` bands with inner padding `padding_inner`
/// (in thousandths) do not collapse: `round((n - 1) / padding_inner)`, at
/// least `dimension`, at most `usize::MAX`. A zero padding asks for all
/// there is once there are two bands.
pub open spec fn enlarged_dimension(n: int, dimension: int, padding_inner: int) -> int {
    let needed = if n <= 1 {
        0
    } else if padding_inner == 0 {
        usize::MAX as int
    } else {
        round_div((n - 1) * 1000, padding_inner)
    };
    let capped = if needed > usize::MAX {
        usize::MAX as int
    } else {
        needed
    };
    if capped > dimension {
        capped
    } else {
        dimension
    }
}

/// Equal-width, padded bands over a dimension, one per domain value in order.
#[derive(Debug)]
pub struct Band<DT> {
    dimension: usize,
    domain: Vec<DT>,
    padding_inner: u32,
    padding_outer: u32,
    align: u32,
}

/// The cursor over the bands of a `Band`.
pub struct BandIter<'i, DT> {
    domain: &'i Vec<DT>,
    index: usize,
    bandwidth: usize,
    base: Ghost<int>,
    stride: u128,
    denominator: u128,
    whole: i128,
    fraction: u128,
    stride_whole: u128,
    stride_fraction: u128,
}

/// A `Band` in mathematical terms; fractions in thousandths.
pub struct BandModel<DT> {
    pub dimension: nat,
    pub domain: Seq<DT>,
    pub padding_inner: nat,
    pub padding_outer: nat,
    pub align: nat,
}

/// A `BandIter` in mathematical terms. Band `k` starts at the rounded
/// position `(base + k * stride) / denominator`.
pub struct BandIterModel<DT> {
    pub domain: Seq<DT>,
    pub index: nat,
    pub bandwidth: nat,
    pub base: int,
    pub stride: nat,
    pub denominator: nat,
}

impl<DT> BandModel<DT> {
    pub open spec fn count(self) -> int {
        self.domain.len() as int
    }

    /// `max(1, n - padding_inner + 2 * padding_outer)`, in thousandths; the
    /// step between bands is `dimension / this`.
    pub open spec fn step_divisor(self) -> int {
        let d = self.count() * 1000 - self.padding_inner + 2 * self.padding_outer;
        if d > 1000 {
            d
        } else {
            1000
        }
    }

    /// `max(1, round(step * (1 - padding_inner)))`.
    pub open spec fn bandwidth(self) -> int {
        let w = round_div(self.dimension * (1000 - self.padding_inner), self.step_divisor());
        if w > 1 {
            w
        } else {
            1
        }
    }

    /// The bands, from the first: the first band starts at
    /// `((dimension - 1) - step * (n - padding_inner)) * align`, each next one
    /// a step further.
    pub open spec fn walk(self) -> BandIterModel<DT> {
        BandIterModel {
            domain: self.domain,
            index: 0,
            bandwidth: self.bandwidth() as nat,
            base: ((self.dimension - 1) * self.step_divisor() - self.dimension * (self.count()
                * 1000 - self.padding_inner)) * self.align,
            stride: (self.dimension * 1000 * 1000) as nat,
            denominator: (self.step_divisor() * 1000) as nat,
        }
    }
}

impl<DT> BandIterModel<DT> {
    /// Where band `k` starts: its position rounded, negative positions at 0,
    /// saturating at `usize::MAX`.
    pub open spec fn band_start(self, k: int) -> int {
        let position = self.base + k * self.stride;
        let rounded = if position < 0 {
            0
        } else {
            round_div(position, self.denominator as int)
        };
        if rounded > usize::MAX {
            usize::MAX as int
        } else {
            rounded
        }
    }

    /// Where band `k` ends: `bandwidth - 1` after its start, saturating.
    pub open spec fn band_end(self, k: int) -> int {
        let end = self.band_start(k) + self.bandwidth - 1;
        if end > usize::MAX {
            usize::MAX as int
        } else {
            end
        }
    }
}

impl<DT> View for Band<DT> {
    type V = BandModel<DT>;

    closed spec fn view(&self) -> BandModel<DT> {
        BandModel {
            dimension: self.dimension as nat,
            domain: self.domain@,
            padding_inner: self.padding_inner as nat,
            padding_outer: self.padding_outer as nat,
            align: self.align as nat,
        }
    }
}

impl<'i, DT> View for BandIter<'i, DT> {
    type V = BandIterModel<DT>;

    closed spec fn view(&self) -> BandIterModel<DT> {
        BandIterModel {
            domain: self.domain@,
            index: self.index as nat,
            bandwidth: self.bandwidth as nat,
            base: self.base@,
            stride: self.stride as nat,
            denominator: self.denominator as nat,
        }
    }
}

fn calculate_dimension(n: usize, dimension: usize, padding_inner: u32) -> (r: usize)
    requires
        padding_inner < 1000,
    ensures
        r == enlarged_dimension(n as int, dimension as int, padding_inner as int),
{
    let needed: u128 = if n <= 1 {
        0
    } else if padding_inner == 0 {
        usize::MAX as u128
    } else {
        let scaled = (n as u128 - 1) * 1000;
        (2 * scaled + padding_inner as u128) / (2 * padding_inner as u128)
    };
    let capped: usize = if needed > usize::MAX as u128 {
        usize::MAX
    } else {
        needed as usize
    };
    if capped > dimension {
        capped
    } else {
        dimension
    }
}

proof fn lemma_round_split(whole: int, fraction: int, q: int)
    requires
        q > 0,
        0 <= fraction < q,
    ensures
        round_div(whole * q + fraction, q) == whole + if 2 * fraction >= q {
            1int
        } else {
            0
        },
{
    let b: int = if 2 * fraction >= q {
        1
    } else {
        0
    };
    assert(2 * (whole * q + fraction) + q == (whole + b) * (2 * q) + (2 * fraction + q - 2 * q
        * b)) by (nonlinear_arith);
    lemma_fundamental_div_mod_converse(
        2 * (whole * q + fraction) + q,
        2 * q,
        whole + b,
        2 * fraction + q - 2 * q * b,
    );
}


proof fn lemma_whole_bound(whole: int, fraction: int, q: int, base: int, advance: int)
    requires
        1 <= q,
        0 <= fraction < q,
        -0x1_0000_0000_0000_0000_0000_0000 <= base <= 0x1_0000_0000_0000_0000_0000_0000,
        0 <= advance <= 0x4_0000_0000_0000_0000 * q,
        whole * q + fraction == base + advance,
    ensures
        -0x1_0000_0000_0000_0000_0000_0001 <= whole <= 0x1_0000_0000_0000_0000_0000_0000
            + 0x4_0000_0000_0000_0000,
{
    assert(whole * q <= (0x1_0000_0000_0000_0000_0000_0000 + 0x4_0000_0000_0000_0000) * q)
        by (nonlinear_arith)
        requires
            1 <= q,
            fraction >= 0,
            base <= 0x1_0000_0000_0000_0000_0000_0000,
            advance <= 0x4_0000_0000_0000_0000 * q,
            whole * q + fraction == base + advance,
    ;
    assert(whole <= 0x1_0000_0000_0000_0000_0000_0000 + 0x4_0000_0000_0000_0000) by (nonlinear_arith)
        requires
            1 <= q,
            whole * q <= (0x1_0000_0000_0000_0000_0000_0000 + 0x4_0000_0000_0000_0000) * q,
    ;
    assert(whole * q > -(0x1_0000_0000_0000_0000_0000_0001) * q) by (nonlinear_arith)
        requires
            1 <= q,
            fraction < q,
            base >= -0x1_0000_0000_0000_0000_0000_0000,
            advance >= 0,
            whole * q + fraction == base + advance,
    ;
    assert(whole >= -0x1_0000_0000_0000_0000_0000_0001) by (nonlinear_arith)
        requires
            1 <= q,
            whole * q > -(0x1_0000_0000_0000_0000_0000_0001) * q,
    ;
}

/// `value` as `whole * denominator + fraction` with `0 <= fraction < denominator`.
fn floor_split(value: i128, denominator: u128) -> (r: (i128, u128))
    requires
        1 <= denominator <= 0x1_0000_0000_0000_0000_0000_0000,
        -0x1_0000_0000_0000_0000_0000_0000 <= value <= 0x1_0000_0000_0000_0000_0000_0000,
    ensures
        r.0 * denominator + r.1 == value,
        r.1 < denominator,
{
    if value >= 0 {
        let w = value as u128 / denominator;
        let f = value as u128 % denominator;
        proof {
            lemma_fundamental_div_mod(value as int, denominator as int);
            assert(w <= value) by (nonlinear_arith)
                requires
                    w == (value as int) / (denominator as int),
                    denominator >= 1,
                    value >= 0,
            ;
            assert(w * denominator == denominator * w) by (nonlinear_arith);
        }
        (w as i128, f)
    } else {
        let magnitude = (-value) as u128;
        let w = magnitude / denominator;
        let f = magnitude % denominator;
        proof {
            lemma_fundamental_div_mod(magnitude as int, denominator as int);
            assert(w <= magnitude) by (nonlinear_arith)
                requires
                    w == magnitude / denominator,
                    denominator >= 1,
            ;
        }
        if f == 0 {
            proof {
                assert(-(w as int) * denominator == -(denominator * w)) by (nonlinear_arith);
            }
            (-(w as i128), 0)
        } else {
            proof {
                assert((-(w as int) - 1) * denominator + (denominator - f) == -(denominator * w
                    + f)) by (nonlinear_arith);
            }
            (-(w as i128) - 1, denominator - f)
        }
    }
}

impl<DT> Band<DT> {
    #[verifier::type_invariant]
    spec fn well_formed(self) -> bool {
        &&& self.padding_inner < 1000
        &&& self.padding_outer < 1000
        &&& self.align <= 1000
    }

    /// Bands for `domain` over at least `dimension` coordinates, with an inner
    /// padding of 0.1, an outer padding of 0.05 and centred alignment. The
    /// dimension grows where the bands would not fit.
    pub fn new(domain: Vec<DT>, dimension: usize) -> (r: Self)
        ensures
            r@ == (BandModel {
                dimension: enlarged_dimension(
                    domain@.len() as int,
                    dimension as int,
                    DEFAULT_PADDING_INNER as int,
                ) as nat,
                domain: domain@,
                padding_inner: DEFAULT_PADDING_INNER as nat,
                padding_outer: DEFAULT_PADDING_OUTER as nat,
                align: DEFAULT_ALIGN as nat,
            }),
    {
        let dimension = calculate_dimension(domain.len(), dimension, DEFAULT_PADDING_INNER);
        Band {
            dimension,
            domain,
            padding_inner: DEFAULT_PADDING_INNER,
            padding_outer: DEFAULT_PADDING_OUTER,
            align: DEFAULT_ALIGN,
        }
    }

    /// Sets the inner padding, in thousandths; a padding of a whole or more
    /// falls back to 0.1. The dimension grows where the bands would not fit.
    pub fn padding_inner(self, padding: u32) -> (r: Self)
        ensures
            r@ == (BandModel {
                padding_inner: if padding < 1000 {
                    padding as nat
                } else {
                    DEFAULT_PADDING_INNER as nat
                },
                dimension: enlarged_dimension(
                    self@.domain.len() as int,
                    self@.dimension as int,
                    if padding < 1000 {
                        padding as int
                    } else {
                        DEFAULT_PADDING_INNER as int
                    },
                ) as nat,
                ..self@
            }),
    {
        proof {
            use_type_invariant(&self);
        }
        let padding_inner = if padding < THOUSAND {
            padding
        } else {
            DEFAULT_PADDING_INNER
        };
        let dimension = calculate_dimension(self.domain.len(), self.dimension, padding_inner);
        Band {
            dimension,
            domain: self.domain,
            padding_inner,
            padding_outer: self.padding_outer,
            align: self.align,
        }
    }

    /// The bands, in the order of the domain.
    pub fn iter<'i>(&'i self) -> (r: BandIter<'i, DT>)
        ensures
            r@ == self@.walk(),
    {
        proof {
            use_type_invariant(self);
        }
        let n = self.domain.len() as i128;
        let dimension = self.dimension as i128;
        let inner = self.padding_inner as i128;
        let outer = self.padding_outer as i128;
        let align = self.align as i128;
        let spread = n * 1000 - inner;
        let divisor: i128 = if spread + 2 * outer > 1000 {
            spread + 2 * outer
        } else {
            1000
        };
        let excess = divisor - spread;
        proof {
            let m = self@;
            assert(divisor == m.step_divisor());
            assert((dimension - 1) * divisor - dimension * spread == dimension * excess - divisor)
                by (nonlinear_arith)
                requires
                    excess == divisor - spread,
            ;
            assert(0 <= excess <= 2000);
            assert(0 <= dimension * excess <= dimension * 2000) by (nonlinear_arith)
                requires
                    0 <= excess <= 2000,
                    dimension >= 0,
            ;
            assert(dimension * (1000 - inner) <= dimension * divisor) by (nonlinear_arith)
                requires
                    0 <= dimension,
                    1000 - inner <= divisor,
            ;
        }
        let offset = dimension * excess - divisor;
        proof {
            assert(-0x1_0000_0000_0000_0000_0000_0000 <= offset * align <= 0x1_0000_0000_0000_0000_0000_0000)
                by (nonlinear_arith)
                requires
                    -0x1_0000_0000_0000_0000_0000 <= offset <= 0x1_0000_0000_0000_0000_0000,
                    0 <= align <= 1000,
            ;
        }
        let base = offset * align;
        let stride = (dimension as u128) * 1000 * 1000;
        let denominator = (divisor as u128) * 1000;
        let gap = (THOUSAND - self.padding_inner) as u128;
        proof {
            assert(dimension * gap <= 0x1_0000_0000_0000_0000 * 1000) by (nonlinear_arith)
                requires
                    0 <= dimension <= 0x1_0000_0000_0000_0000,
                    gap <= 1000,
            ;
        }
        let span = (dimension as u128) * gap;
        let rounded = (2 * span + divisor as u128) / (2 * divisor as u128);
        proof {
            assert(rounded <= dimension) by (nonlinear_arith)
                requires
                    rounded == (2 * span + divisor) / (2 * divisor),
                    span <= dimension * divisor,
                    divisor >= 1000,
                    dimension >= 0,
            ;
        }
        let bandwidth: usize = if rounded > 1 {
            rounded as usize
        } else {
            1
        };
        let (whole, fraction) = floor_split(base, denominator);
        proof {
            assert(n * 1000 <= 2 * divisor);
            assert(n * stride <= 2 * dimension * denominator) by (nonlinear_arith)
                requires
                    n * 1000 <= 2 * divisor,
                    stride == dimension * 1000 * 1000,
                    denominator == divisor * 1000,
                    dimension >= 0,
                    n >= 0,
            ;
            assert(n * stride <= 0x4_0000_0000_0000_0000 * denominator) by (nonlinear_arith)
                requires
                    n * stride <= 2 * dimension * denominator,
                    0 <= dimension <= 0x1_0000_0000_0000_0000,
                    denominator >= 0,
            ;
        }
        BandIter {
            domain: &self.domain,
            index: 0,
            bandwidth,
            base: Ghost(base as int),
            stride,
            denominator,
            whole,
            fraction,
            stride_whole: stride / denominator,
            stride_fraction: stride % denominator,
        }
    }
}

impl<'i, DT> BandIter<'i, DT> {
    #[verifier::type_invariant]
    spec fn well_formed(self) -> bool {
        &&& self.index <= self.domain.len()
        &&& self.bandwidth >= 1
        &&& 1000 <= self.denominator <= 0x1_0000_0000_0000_0000_0000_0000
        &&& 0 <= self.fraction < self.denominator
        &&& self.whole * self.denominator + self.fraction == self.base@ + self.index
            * self.stride
        &&& -0x1_0000_0000_0000_0000_0000_0000 <= self.base@ <= 0x1_0000_0000_0000_0000_0000_0000
        &&& self.stride <= 0x1_0000_0000_0000_0000_0000_0000
        &&& self.domain.len() * self.stride <= 0x4_0000_0000_0000_0000 * self.denominator
        &&& self.stride_whole == self.stride / self.denominator
        &&& self.stride_fraction == self.stride % self.denominator
    }

    /// The next domain value with its band `(start, end)`, or `None` after the last.
    pub fn next(&mut self) -> (r: Option<(&'i DT, (usize, usize))>)
        ensures
            old(self)@.index < old(self)@.domain.len() ==> {
                &&& r is Some
                &&& *r.unwrap().0 == old(self)@.domain[old(self)@.index as int]
                &&& r.unwrap().1.0 == old(self)@.band_start(old(self)@.index as int)
                &&& r.unwrap().1.1 == old(self)@.band_end(old(self)@.index as int)
                &&& final(self)@ == (BandIterModel { index: old(self)@.index + 1, ..old(self)@ })
            },
            old(self)@.index >= old(self)@.domain.len() ==> r is None && final(self)@ == old(
                self,
            )@,
    {
        proof {
            use_type_invariant(&*self);
        }
        if self.index >= self.domain.len() {
            return None;
        }
        let i = self.index;
        let q = self.denominator;
        proof {
            lemma_round_split(self.whole as int, self.fraction as int, q as int);
        }
        let start: usize = if self.whole < 0 {
            0
        } else {
            let rounded = (self.whole as u128) + if 2 * self.fraction >= q {
                1
            } else {
                0
            };
            if rounded > usize::MAX as u128 {
                usize::MAX
            } else {
                rounded as usize
            }
        };
        let end: usize = if self.bandwidth - 1 > usize::MAX - start {
            usize::MAX
        } else {
            start + (self.bandwidth - 1)
        };
        let item = &self.domain[i];
        proof {
            assert(i * self.stride <= self.domain.len() * self.stride) by (nonlinear_arith)
                requires
                    i < self.domain.len(),
            ;
            lemma_whole_bound(self.whole as int, self.fraction as int, q as int, self.base@, i * self.stride);
            assert((i + 1) * self.stride <= self.domain.len() * self.stride) by (nonlinear_arith)
                requires
                    i < self.domain.len(),
            ;
            lemma_fundamental_div_mod(self.stride as int, q as int);
            assert(self.stride_whole <= self.stride) by (nonlinear_arith)
                requires
                    self.stride_whole == (self.stride as int) / (q as int),
                    q >= 1,
            ;
        }
        let sum = self.fraction + self.stride_fraction;
        let carried = self.whole + self.stride_whole as i128;
        proof {
            assert(carried * q + sum == self.base@ + (i + 1) * self.stride) by (nonlinear_arith)
                requires
                    self.whole * q + self.fraction == self.base@ + i * self.stride,
                    self.stride == q * self.stride_whole + self.stride_fraction,
                    carried == self.whole + self.stride_whole,
                    sum == self.fraction + self.stride_fraction,
            ;
        }
        let (whole, fraction) = if sum >= q {
            proof {
                assert((carried + 1) * q + (sum - q) == carried * q + sum) by (nonlinear_arith);
            }
            (carried + 1, sum - q)
        } else {
            (carried, sum)
        };
        *self = BandIter {
            domain: self.domain,
            index: i + 1,
            bandwidth: self.bandwidth,
            base: self.base,
            stride: self.stride,
            denominator: q,
            whole,
            fraction,
            stride_whole: self.stride_whole,
            stride_fraction: self.stride_fraction,
        };
        Some((item, (start, end)))
    }
}

} // verus!
