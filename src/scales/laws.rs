use vstd::arithmetic::div_mod::{lemma_fundamental_div_mod, lemma_fundamental_div_mod_converse};
use vstd::prelude::*;

use super::linear::{abs, round_div, trunc_div, LinearModel};

verus! {

proof fn lemma_round_div_bounds(a: int, b: int)
    requires
        b > 0,
    ensures
        2 * b * round_div(a, b) <= 2 * a + b < 2 * b * (round_div(a, b) + 1),
{
    lemma_fundamental_div_mod(2 * a + b, 2 * b);
    let q = (2 * a + b) / (2 * b);
    let r = (2 * a + b) % (2 * b);
    assert(2 * b * (q + 1) == 2 * b * q + 2 * b) by (nonlinear_arith);
}

/// Mapping a domain value to its coordinate and back lands within half a
/// coordinate step of where it started: `2 (dimension - 1) |back - v| <=
/// range + dimension - 1`.
pub proof fn lemma_round_trip_within_half_step(m: LinearModel, v: int)
    requires
        m.wf(),
        m.min <= v <= m.max,
    ensures
        m.coordinate_of(v) is Some,
        m.domain_of(m.coordinate_of(v).unwrap()) is Some,
        2 * (m.dimension - 1) * abs(m.domain_at(m.coordinate_of(v).unwrap()) - v) <= m.range()
            + m.dimension - 1,
{
    let n = m.dimension - 1;
    let r = m.range();
    let d = abs(v - m.start);
    if r == 0 {
        assert(round_div(0, n) == 0) by (nonlinear_arith)
            requires
                n > 0,
        ;
        assert(m.range() * 0 == 0);
        assert(v == m.start);
    } else {
        let c = round_div(d * n, r);
        assert(0 <= d <= r);
        lemma_round_div_bounds(d * n, r);
        assert(0 <= c <= n) by (nonlinear_arith)
            requires
                2 * r * c <= 2 * (d * n) + r < 2 * r * (c + 1),
                0 <= d <= r,
                r > 0,
                n > 0,
        ;
        let back = round_div(r * c, n);
        lemma_round_div_bounds(r * c, n);
        assert(2 * n * abs(back - d) <= r + n) by (nonlinear_arith)
            requires
                2 * r * c <= 2 * (d * n) + r < 2 * r * (c + 1),
                2 * n * back <= 2 * (r * c) + n < 2 * n * (back + 1),
                r > 0,
                n > 0,
                abs(back - d) == if back < d {
                    d - back
                } else {
                    back - d
                },
        ;
        assert(m.coordinate_of(v) == Some(c));
        assert(abs(m.domain_at(c) - v) == abs(back - d));
    }
}

/// Where the domain has no more values than the scale has coordinates,
/// `coordinate_to_domain(domain_to_coordinate(v))` is within one unit of `v`.
pub proof fn lemma_round_trip(m: LinearModel, v: int)
    requires
        m.wf(),
        m.min <= v <= m.max,
        m.range() <= m.dimension - 1,
    ensures
        m.coordinate_of(v) is Some,
        m.domain_of(m.coordinate_of(v).unwrap()) is Some,
        abs(m.domain_at(m.coordinate_of(v).unwrap()) - v) <= 1,
{
    lemma_round_trip_within_half_step(m, v);
    let n = m.dimension - 1;
    let e = abs(m.domain_at(m.coordinate_of(v).unwrap()) - v);
    assert(e <= 1) by (nonlinear_arith)
        requires
            2 * n * e <= m.range() + n,
            m.range() <= n,
            n > 0,
            e >= 0,
    ;
}

/// The scale from `start` to `end` and the scale from `end` to `start` give
/// mirrored coordinates: `coord'(v) == dimension - 1 - coord(v)`. Rounding
/// breaks the symmetry where `v` falls exactly halfway between two
/// coordinates, so those values are left out.
pub proof fn lemma_reversal_mirrors(forward: LinearModel, reversed: LinearModel, v: int)
    requires
        forward.wf(),
        reversed.wf(),
        forward.start == forward.min,
        reversed.start == reversed.max,
        forward.min == reversed.min,
        forward.max == reversed.max,
        forward.dimension == reversed.dimension,
        forward.range() > 0,
        forward.min <= v <= forward.max,
        (2 * ((v - forward.min) * (forward.dimension - 1)) + forward.range()) % (2
            * forward.range()) != 0,
    ensures
        forward.coordinate_of(v) is Some,
        reversed.coordinate_of(v) == Some(
            forward.dimension - 1 - forward.coordinate_of(v).unwrap(),
        ),
{
    let n = forward.dimension - 1;
    let r = forward.range();
    let x = (v - forward.min) * n;
    let y = (forward.max - v) * n;
    assert(x + y == r * n) by (nonlinear_arith)
        requires
            x == (v - forward.min) * n,
            y == (forward.max - v) * n,
            r == forward.max - forward.min,
    ;
    lemma_fundamental_div_mod(2 * x + r, 2 * r);
    let q = (2 * x + r) / (2 * r);
    let rem = (2 * x + r) % (2 * r);
    assert(0 < rem < 2 * r);
    assert(2 * y + r == (n - q) * (2 * r) + (2 * r - rem)) by (nonlinear_arith)
        requires
            x + y == r * n,
            2 * x + r == 2 * r * q + rem,
    ;
    lemma_fundamental_div_mod_converse(2 * y + r, 2 * r, n - q, 2 * r - rem);
    assert(abs(v - forward.start) == v - forward.min);
    assert(abs(v - reversed.start) == forward.max - v);
}

proof fn lemma_trunc_div_between(a: int, b: int, lo: int, hi: int)
    requires
        b > 0,
        lo * b <= a <= hi * b,
    ensures
        lo <= trunc_div(a, b) <= hi,
{
    if a >= 0 {
        assert(lo <= a / b <= hi) by (nonlinear_arith)
            requires
                b > 0,
                lo * b <= a <= hi * b,
                a >= 0,
        ;
    } else {
        assert((-hi) * b <= -a <= (-lo) * b) by (nonlinear_arith)
            requires
                lo * b <= a <= hi * b,
        ;
        assert(-hi <= (-a) / b <= -lo) by (nonlinear_arith)
            requires
                b > 0,
                (-hi) * b <= -a <= (-lo) * b,
                a < 0,
        ;
    }
}

/// `iter` yields exactly `dimension` elements: coordinates `0, 1, ...,
/// dimension - 1` in order. The first value is `start`, the last is the
/// other end of the domain, and every value lies in `[min, max]`.
pub proof fn lemma_native_walk(m: LinearModel)
    requires
        m.wf(),
    ensures
        m.native_walk().emits(0),
        m.native_walk().coordinate(0) == 0,
        m.native_walk().coordinate((m.dimension - 1) as nat) == m.dimension - 1,
        forall|k: nat|
            k < m.dimension ==> #[trigger] m.native_walk().emits(k) && m.native_walk().coordinate(
                k,
            ) == k && m.min <= m.native_walk().value(k) <= m.max,
        forall|k: nat| k >= m.dimension ==> !#[trigger] m.native_walk().emits(k),
        m.native_walk().value(0) == m.start,
        m.native_walk().value((m.dimension - 1) as nat) == if m.ascending() {
            m.max
        } else {
            m.min
        },
{
    let w = m.native_walk();
    let n = m.dimension - 1;
    let r = m.range();
    assert forall|k: nat| k < m.dimension implies m.min <= #[trigger] w.value(k) <= m.max by {
        assert(0 <= r * k <= r * n) by (nonlinear_arith)
            requires
                0 <= k <= n,
                r >= 0,
        ;
        if m.ascending() {
            assert(m.min * n <= m.start * n + r * k <= m.max * n) by (nonlinear_arith)
                requires
                    m.start == m.min,
                    0 <= r * k <= r * n,
                    r == m.max - m.min,
                    n > 0,
            ;
            lemma_trunc_div_between(m.start * n + r * k, n, m.min, m.max);
        } else {
            assert(m.min * n <= m.start * n - r * k <= m.max * n) by (nonlinear_arith)
                requires
                    m.start == m.max,
                    0 <= r * k <= r * n,
                    r == m.max - m.min,
                    n > 0,
            ;
            lemma_trunc_div_between(m.start * n - r * k, n, m.min, m.max);
        }
    }
    lemma_trunc_div_between(m.start * n, n, m.start, m.start);
    assert(r * 0 == 0);
    assert(w.value(0) == trunc_div(m.start * n, n));
    let last = if m.ascending() {
        m.max
    } else {
        m.min
    };
    assert(w.moved_scaled(m.start * n, r * n) == last * n) by (nonlinear_arith)
        requires
            r == m.max - m.min,
            m.start == m.min || m.start == m.max,
            w.ascending == (m.start == m.min),
            last == if w.ascending {
                m.max
            } else {
                m.min
            },
            w.moved_scaled(m.start * n, r * n) == if w.ascending {
                m.start * n + r * n
            } else {
                m.start * n - r * n
            },
    ;
    lemma_trunc_div_between(last * n, n, last, last);
}

/// The walk of `intervals(step)` is finite for a step other than zero: no
/// element from index `2 * range + 1` on is emitted.
pub proof fn lemma_interval_walk_ends(m: LinearModel, step: int)
    requires
        m.wf(),
        step != 0,
    ensures
        forall|k: nat| k > 2 * m.range() ==> !#[trigger] m.interval_walk(step).emits(k),
{
    let w = m.interval_walk(step);
    let s = abs(step);
    let r = m.range();
    let n = m.dimension - 1;
    assert forall|k: nat| k > 2 * r implies !#[trigger] w.emits(k) by {
        if r > 0 {
            assert(2 * ((k * s) * n) + r >= 2 * r * (n + 1)) by (nonlinear_arith)
                requires
                    k > 2 * r,
                    s >= 1,
                    r > 0,
                    n >= 1,
            ;
            assert((2 * ((k * s) * n) + r) / (2 * r) >= n + 1) by (nonlinear_arith)
                requires
                    2 * ((k * s) * n) + r >= 2 * r * (n + 1),
                    r > 0,
            ;
        }
    }
}

} // verus!
