//! A numeric series with its axis settings: domain, tick step and distances,
//! normalized positions and shares.
use vstd::prelude::*;
use crate::nice::{
    Step, pow10, frac_le_dec, is_nice_step_for, nice_step, lemma_pow10_pos, lemma_pow10_mono,
    lemma_nice_step_is_nice_and_covers, nice_coef, pow10_u128,
};

verus! {

/// Why an axis computation has no answer.
#[derive(Clone, Copy, Debug, PartialEq, Eq, Structural)]
pub enum ScaleError {
    /// The series holds no value.
    EmptySeries,
    /// A tick count of one leaves no division between ticks.
    NoDivisions,
    /// The raw step is zero, so no nice step exists.
    ZeroStep,
    /// The domain has no width.
    ZeroRange,
    /// The values sum to zero, so they have no shares.
    ZeroSum,
    /// An unsigned value is larger than a series value can be.
    ValueTooLarge,
}

/// What a series is, seen from contracts.
pub struct SeriesModel {
    pub values: Seq<i64>,
    pub is_float: bool,
    pub stick: usize,
    pub origin: i64,
    pub range: Option<(i64, i64)>,
}

/// A series of numbers shown on a chart, with its axis settings. Every
/// setter returns a fresh value and leaves the receiver as it was.
#[derive(Clone, Debug)]
pub struct SNumber {
    series: Vec<i64>,
    is_float: bool,
    stick: usize,
    origin: i64,
    range: Option<(i64, i64)>,
}

/// The points the domain must cover: the values, then both bounds of the
/// override range when one is set, else the origin.
pub open spec fn domain_points(m: SeriesModel) -> Seq<i64> {
    match m.range {
        Some((a, b)) => m.values.push(a).push(b),
        None => m.values.push(m.origin),
    }
}

pub open spec fn is_least(s: Seq<i64>, v: i64) -> bool {
    s.contains(v) && forall|i: int| 0 <= i < s.len() ==> v <= s[i]
}

pub open spec fn is_greatest(s: Seq<i64>, v: i64) -> bool {
    s.contains(v) && forall|i: int| 0 <= i < s.len() ==> s[i] <= v
}

/// The smallest point of the domain.
pub open spec fn dom_lo(m: SeriesModel) -> i64 {
    choose|v: i64| is_least(domain_points(m), v)
}

/// The largest point of the domain.
pub open spec fn dom_hi(m: SeriesModel) -> i64 {
    choose|v: i64| is_greatest(domain_points(m), v)
}

/// Number of divisions between ticks: ten by default, else one fewer than
/// the requested tick count.
pub open spec fn divisions(m: SeriesModel) -> int {
    if m.stick == 0 {
        10
    } else {
        m.stick - 1
    }
}

pub open spec fn ceil_div(a: int, d: int) -> int {
    if a % d == 0 {
        a / d
    } else {
        a / d + 1
    }
}

/// `floor(a / (c * 10^e))` for `a >= 0`, `c > 0`.
pub open spec fn steps_floor(a: int, c: int, e: int) -> int {
    if e >= 0 {
        a / (c * pow10(e as nat))
    } else {
        (a * pow10((-e) as nat)) / c
    }
}

/// `ceil(a / (c * 10^e))` for `a >= 0`, `c > 0`.
pub open spec fn steps_ceil(a: int, c: int, e: int) -> int {
    if e >= 0 {
        ceil_div(a, c * pow10(e as nat))
    } else {
        ceil_div(a * pow10((-e) as nat), c)
    }
}

/// The result of `count_distance_step` for a domain `[lo, hi]` and `d`
/// divisions: distance above zero, step, distance below zero.
pub open spec fn distance_step_spec(lo: int, hi: int, d: int, up: int, s: Step, down: int) -> bool {
    if lo >= 0 {
        &&& is_nice_step_for(hi, d, s.coef as int, s.exp as int)
        &&& up == steps_ceil(hi, s.coef as int, s.exp as int)
        &&& down == 0
    } else if hi < 0 {
        &&& is_nice_step_for(-lo, d, -s.coef, s.exp as int)
        &&& up == 0
        &&& down == -steps_floor(-lo, -s.coef, s.exp as int)
    } else {
        &&& is_nice_step_for(hi - lo, d, s.coef as int, s.exp as int)
        &&& up == steps_ceil(hi, s.coef as int, s.exp as int)
        &&& down == steps_ceil(-lo, s.coef as int, s.exp as int)
    }
}

proof fn lemma_least_unique(s: Seq<i64>, a: i64, b: i64)
    requires
        is_least(s, a),
        is_least(s, b),
    ensures
        a == b,
{
}

proof fn lemma_greatest_unique(s: Seq<i64>, a: i64, b: i64)
    requires
        is_greatest(s, a),
        is_greatest(s, b),
    ensures
        a == b,
{
}

/// Least and greatest of a non-empty list.
fn min_max(v: &Vec<i64>) -> (r: (i64, i64))
    requires
        v.len() > 0,
    ensures
        is_least(v@, r.0),
        is_greatest(v@, r.1),
{
    let mut lo = v[0];
    let mut hi = v[0];
    let mut i: usize = 1;
    while i < v.len()
        invariant
            1 <= i <= v.len(),
            exists|j: int| 0 <= j < i && v@[j] == lo,
            exists|j: int| 0 <= j < i && v@[j] == hi,
            forall|j: int| 0 <= j < i ==> lo <= #[trigger] v@[j] <= hi,
        decreases v.len() - i,
    {
        if v[i] < lo {
            lo = v[i];
        }
        if v[i] > hi {
            hi = v[i];
        }
        i = i + 1;
    }
    (lo, hi)
}

spec fn fits_steps(a: int, c: int, e: int) -> bool {
    &&& 0 <= a <= u64::MAX
    &&& 1 <= c <= 25
    &&& -21 <= e <= 20
    &&& e < 0 ==> a * pow10((-e) as nat) <= 0x1_0000_0000_0000_0000_0000_0000
}

proof fn lemma_pow10_20_bound(e: nat)
    requires
        e <= 20,
    ensures
        1 <= pow10(e) <= 100_000_000_000_000_000_000int,
{
    lemma_pow10_pos(e);
    lemma_pow10_mono(e, 20);
    reveal_with_fuel(pow10, 21);
}

/// `floor(a / (c * 10^e))`.
fn floor_steps(a: u128, c: u128, e: i32) -> (r: u128)
    requires
        fits_steps(a as int, c as int, e as int),
    ensures
        r == steps_floor(a as int, c as int, e as int),
        r <= 0x1_0000_0000_0000_0000_0000_0000,
{
    if e >= 0 {
        proof {
            lemma_pow10_20_bound(e as nat);
        }
        let pw = pow10_u128(e as u32);
        assert(1 <= c * pw <= 25 * 100_000_000_000_000_000_000int) by (nonlinear_arith)
            requires
                1 <= c <= 25,
                1 <= pw <= 100_000_000_000_000_000_000int,
        ;
        let d = c * pw;
        a / d
    } else {
        let m = a * pow10_u128((-e) as u32);
        m / c
    }
}

/// `ceil(a / (c * 10^e))`.
fn ceil_steps(a: u128, c: u128, e: i32) -> (r: u128)
    requires
        fits_steps(a as int, c as int, e as int),
    ensures
        r == steps_ceil(a as int, c as int, e as int),
        r <= 0x1_0000_0000_0000_0000_0000_0001,
{
    let (m, d) = if e >= 0 {
        proof {
            lemma_pow10_20_bound(e as nat);
        }
        let pw = pow10_u128(e as u32);
        assert(1 <= c * pw <= 25 * 100_000_000_000_000_000_000int) by (nonlinear_arith)
            requires
                1 <= c <= 25,
                1 <= pw <= 100_000_000_000_000_000_000int,
        ;
        (a, c * pw)
    } else {
        (a * pow10_u128((-e) as u32), c)
    };
    if m % d == 0 {
        m / d
    } else {
        m / d + 1
    }
}



/// A part `a` of the span covered by a step of `c * 10^e` counts no more steps
/// than exact arithmetic on 128 bits can hold.
proof fn lemma_fits(a: int, p: int, q: int, c: int, e: int)
    requires
        0 <= a <= p <= u64::MAX,
        1 <= q <= u64::MAX,
        nice_coef(c),
        -21 <= e <= 20,
        frac_le_dec(p, q, c, e),
    ensures
        fits_steps(a, c, e),
{
    if e < 0 {
        let pw = pow10((-e) as nat);
        lemma_pow10_pos((-e) as nat);
        assert(a * pw <= p * pw) by (nonlinear_arith)
            requires
                0 <= a <= p,
                pw >= 1,
        ;
        assert(c * q <= 25 * u64::MAX) by (nonlinear_arith)
            requires
                1 <= c <= 25,
                1 <= q <= u64::MAX,
        ;
    }
}


/// The position of `v` on the axis as `(v - lo, hi - lo)`, i.e. the fraction
/// `(v - lo) / (hi - lo)`.
pub open spec fn position(m: SeriesModel, v: int) -> (int, int) {
    (v - dom_lo(m), dom_hi(m) - dom_lo(m))
}

/// Sum of the values.
pub open spec fn seq_sum(s: Seq<i64>) -> int
    decreases s.len(),
{
    if s.len() == 0 {
        0
    } else {
        seq_sum(s.drop_last()) + s.last()
    }
}

/// Sum of the numerators of a list of fractions.
pub open spec fn sum_nums(s: Seq<(int, int)>) -> int
    decreases s.len(),
{
    if s.len() == 0 {
        0
    } else {
        sum_nums(s.drop_last()) + s.last().0
    }
}

/// Each value's share of the total, as `(value, total)`.
pub open spec fn shares(v: Seq<i64>) -> Seq<(int, int)> {
    Seq::new(v.len(), |i: int| (v[i] as int, seq_sum(v)))
}

proof fn lemma_extremes_exist(s: Seq<i64>)
    requires
        s.len() > 0,
    ensures
        exists|v: i64| is_least(s, v),
        exists|v: i64| is_greatest(s, v),
    decreases s.len(),
{
    if s.len() == 1 {
        assert(is_least(s, s[0]));
        assert(is_greatest(s, s[0]));
    } else {
        let t = s.drop_last();
        lemma_extremes_exist(t);
        let a = choose|v: i64| is_least(t, v);
        let b = choose|v: i64| is_greatest(t, v);
        let x = s.last();
        assert forall|i: int| 0 <= i < t.len() implies t[i] == s[i] by {}
        let ia = choose|i: int| 0 <= i < t.len() && t[i] == a;
        let ib = choose|i: int| 0 <= i < t.len() && t[i] == b;
        assert(s[ia] == a);
        assert(s[ib] == b);
        assert(s[s.len() - 1] == x);
        if x < a {
            assert(is_least(s, x));
        } else {
            assert(is_least(s, a));
        }
        if x > b {
            assert(is_greatest(s, x));
        } else {
            assert(is_greatest(s, b));
        }
    }
}

/// The domain of a non-empty series is never reversed: its lower end is at
/// most its upper end.
pub proof fn lemma_domain_ordered(m: SeriesModel)
    requires
        m.values.len() > 0,
    ensures
        dom_lo(m) <= dom_hi(m),
{
    let pts = domain_points(m);
    lemma_extremes_exist(pts);
    assert(pts.contains(dom_hi(m)));
}

/// The domain's lower end lies at position 0 and its upper end at position
/// 1 of the axis, exactly.
pub proof fn lemma_domain_ends_scale_to_unit(m: SeriesModel)
    requires
        m.values.len() > 0,
        dom_lo(m) != dom_hi(m),
    ensures
        position(m, dom_lo(m) as int).0 == 0,
        position(m, dom_hi(m) as int).0 == position(m, dom_hi(m) as int).1,
        position(m, dom_hi(m) as int).1 != 0,
{
}

proof fn lemma_sum_nums_matches(t: Seq<(int, int)>, v: Seq<i64>)
    requires
        t.len() == v.len(),
        forall|i: int| 0 <= i < t.len() ==> t[i].0 == v[i],
    ensures
        sum_nums(t) == seq_sum(v),
    decreases t.len(),
{
    if t.len() > 0 {
        lemma_sum_nums_matches(t.drop_last(), v.drop_last());
    }
}

/// The shares of a series whose total is not zero add up to one: all have
/// the total as denominator, and their numerators sum to the total.
pub proof fn lemma_shares_sum_to_one(v: Seq<i64>)
    requires
        seq_sum(v) != 0,
    ensures
        forall|i: int| 0 <= i < v.len() ==> #[trigger] shares(v)[i].1 == seq_sum(v),
        sum_nums(shares(v)) == seq_sum(v),
{
    lemma_sum_nums_matches(shares(v), v);
}


/// Sum of the values; it fits in 128 bits for any list a machine can hold.
fn sum_of(v: &Vec<i64>) -> (r: i128)
    ensures
        r == seq_sum(v@),
{
    let mut total: i128 = 0;
    let mut i: usize = 0;
    let n = v.len();
    while i < n
        invariant
            n == v@.len(),
            i <= n,
            total == seq_sum(v@.take(i as int)),
            -(i as int) * 0x8000_0000_0000_0000 <= total <= (i as int) * 0x8000_0000_0000_0000,
        decreases v@.len() - i,
    {
        assert(v@.take(i as int + 1).drop_last() == v@.take(i as int));
        total = total + v[i] as i128;
        i = i + 1;
    }
    assert(v@.take(v@.len() as int) == v@);
    total
}


/// One tick mark: its text, and its position (on an axis) or value.
#[derive(Clone, Debug)]
pub struct Stick {
    pub label: String,
    pub value: Ratio,
}

/// The ticks of an axis, ascending, and the step between them.
#[derive(Clone, Debug)]
pub struct Axes {
    pub sticks: Vec<Stick>,
    pub step: Step,
}

/// The step's coefficient without its sign.
pub open spec fn abs_coef(s: Step) -> int {
    if s.coef < 0 {
        -s.coef
    } else {
        s.coef as int
    }
}

/// The step's size written as an integer unit over `10^prec`:
/// `(unit, prec)`, with `prec` the number of decimals the step needs.
pub open spec fn step_unit(s: Step) -> (int, nat) {
    if s.exp >= 0 {
        (abs_coef(s) * pow10(s.exp as nat), 0)
    } else {
        (abs_coef(s), (-s.exp) as nat)
    }
}

/// The first tick, in steps: `-|down|`. Below a positive step it is
/// `-down`; for a domain below zero the step is negative, `down <= 0`, and
/// the ticks run from `down` step sizes up to zero.
pub open spec fn first_tick(down: int) -> int {
    if down >= 0 {
        -down
    } else {
        down
    }
}

/// The candidate tick values `first * unit, (first + 1) * unit, ...`, `count`
/// of them, in units of `10^-prec`.
pub open spec fn tick_nums(first: int, count: nat, unit: int) -> Seq<int> {
    Seq::new(count, |j: int| (first + j) * unit)
}

/// The fraction `x / r` lies in `[-1e-7, 1 + 1e-7]`.
pub open spec fn within_tolerance(x: int, r: int) -> bool {
    -r <= 10_000_000 * x && 10_000_000 * x <= 10_000_001 * r
}

/// The tick values that `gen_axes` keeps, in units of `10^-prec`, for the
/// distances `up`, `down` and the step `s`: every multiple of the step's
/// size from `-|down|` to `max(up, 0)` sizes, ascending, whose position on
/// the axis is within tolerance.
pub open spec fn axis_nums(m: SeriesModel, up: int, s: Step, down: int) -> Seq<int> {
    let (unit, prec) = step_unit(s);
    let dd = pow10(prec);
    let (lo, hi) = (dom_lo(m) as int, dom_hi(m) as int);
    let first = first_tick(down);
    let last = if up > 0 {
        up
    } else {
        0
    };
    tick_nums(first, (last - first + 1) as nat, unit).filter(tol_pred(lo * dd, (hi - lo) * dd))
}

/// Keeps a tick value `n` whose position `(n - lo_d) / r_d` is within
/// tolerance.
pub open spec fn tol_pred(lo_d: int, r_d: int) -> spec_fn(int) -> bool {
    |n: int| within_tolerance(n - lo_d, r_d)
}

/// The stick for the tick value `n / 10^prec` on an axis whose domain,
/// scaled by `10^prec`, starts at `lo_d` and is `r_d` wide.
pub open spec fn is_tick(st: Stick, n: int, prec: nat, lo_d: int, r_d: int) -> bool {
    &&& st.label@ == crate::label::fixed_text(n, prec)
    &&& st.value.num == n - lo_d
    &&& st.value.den == r_d
}

/// `ax` is the axis of the series `m`: for the distances and step of
/// `count_distance_step`, one stick per kept tick value, in order.
pub open spec fn is_axis_for(m: SeriesModel, ax: Axes) -> bool {
    let (lo, hi, d) = (dom_lo(m) as int, dom_hi(m) as int, divisions(m));
    let (unit, prec) = step_unit(ax.step);
    exists|up: int, down: int|
        {
            let nums = axis_nums(m, up, ax.step, down);
            &&& #[trigger] distance_step_spec(lo, hi, d, up, ax.step, down)
            &&& ax.sticks@.len() == nums.len()
            &&& forall|k: int|
                0 <= k < nums.len() ==> is_tick(
                    #[trigger] ax.sticks@[k],
                    nums[k],
                    prec,
                    lo * pow10(prec),
                    (hi - lo) * pow10(prec),
                )
        }
}

/// The sticks' positions share one positive denominator, rise strictly,
/// and each lies in `[-1e-7, 1 + 1e-7]`.
pub open spec fn ascending_within_tolerance(ax: Axes) -> bool {
    &&& forall|k1: int, k2: int|
        0 <= k1 < k2 < ax.sticks@.len() ==> #[trigger] ax.sticks@[k1].value.num
            < #[trigger] ax.sticks@[k2].value.num
    &&& forall|k: int|
        0 <= k < ax.sticks@.len() ==> #[trigger] ax.sticks@[k].value.den > 0
            && ax.sticks@[k].value.den == ax.sticks@[0].value.den && within_tolerance(
            ax.sticks@[k].value.num as int,
            ax.sticks@[k].value.den as int,
        )
}

proof fn lemma_ceil_times(a: int, d: int)
    requires
        a >= 0,
        d > 0,
    ensures
        0 <= ceil_div(a, d),
        ceil_div(a, d) * d <= a + d,
{
    vstd::arithmetic::div_mod::lemma_fundamental_div_mod(a, d);
    let q = a / d;
    let m = a % d;
    assert(0 <= m < d);
    assert(q >= 0) by (nonlinear_arith)
        requires
            a == d * q + m,
            0 <= m < d,
            a >= 0,
    ;
    if m == 0 {
        assert(q * d == a) by (nonlinear_arith)
            requires
                a == d * q + m,
                m == 0,
        ;
    } else {
        assert((q + 1) * d == a - m + d) by (nonlinear_arith)
            requires
                a == d * q + m,
        ;
    }
}

/// `x` lies within tolerance of `[0, r]` exactly when it lies within
/// `r / 10^7` (rounded down) of it.
proof fn lemma_tolerance(x: int, r: int)
    requires
        r >= 0,
    ensures
        within_tolerance(x, r) <==> (-(r / 10_000_000) <= x && x <= r + r / 10_000_000),
{
    vstd::arithmetic::div_mod::lemma_fundamental_div_mod(r, 10_000_000);
    let q = r / 10_000_000;
    let m = r % 10_000_000;
    assert(0 <= m < 10_000_000);
    assert(-r <= 10_000_000 * x <==> -q <= x) by (nonlinear_arith)
        requires
            r == 10_000_000 * q + m,
            0 <= m < 10_000_000,
    ;
    assert(10_000_000 * x <= 10_000_001 * r <==> x <= r + q) by (nonlinear_arith)
        requires
            r == 10_000_000 * q + m,
            0 <= m < 10_000_000,
    ;
}



/// One side of the axis, `dist = ceil(a / step)` steps, stays within bounds
/// once multiplied by the step unit.
proof fn lemma_side(a: int, c: int, e: int, dist: int)
    requires
        fits_steps(a, c, e),
        dist == steps_ceil(a, c, e),
    ensures
        0 <= dist <= 0x1_0000_0000_0000_0000_0000_0000_0,
        (if e >= 0 {
            c * pow10(e as nat)
        } else {
            c
        }) >= 1,
        dist * (if e >= 0 {
            c * pow10(e as nat)
        } else {
            c
        }) <= 0x10_0000_0000_0000_0000_0000_0000,
{
    if e >= 0 {
        lemma_pow10_20_bound(e as nat);
        let u = c * pow10(e as nat);
        assert(1 <= u <= 25 * 100_000_000_000_000_000_000int) by (nonlinear_arith)
            requires
                1 <= c <= 25,
                1 <= pow10(e as nat) <= 100_000_000_000_000_000_000int,
                u == c * pow10(e as nat),
        ;
        lemma_ceil_times(a, u);
        assert(dist <= dist * u) by (nonlinear_arith)
            requires
                dist >= 0,
                u >= 1,
        ;
    } else {
        let pw = pow10((-e) as nat);
        lemma_pow10_pos((-e) as nat);
        assert(a * pw >= 0) by (nonlinear_arith)
            requires
                a >= 0,
                pw >= 1,
        ;
        lemma_ceil_times(a * pw, c);
        assert(dist <= dist * c) by (nonlinear_arith)
            requires
                dist >= 0,
                c >= 1,
        ;
    }
}

/// A domain below zero counts `f = floor(a / step)` step sizes below zero,
/// which stay within bounds once multiplied by the step unit.
proof fn lemma_floor_side(a: int, c: int, e: int, f: int)
    requires
        fits_steps(a, c, e),
        f == steps_floor(a, c, e),
    ensures
        0 <= f <= 0x1_0000_0000_0000_0000_0000_0000_0,
        f * (if e >= 0 {
            c * pow10(e as nat)
        } else {
            c
        }) <= 0x10_0000_0000_0000_0000_0000_0000,
{
    let u = if e >= 0 {
        c * pow10(e as nat)
    } else {
        c
    };
    let x = if e >= 0 {
        a
    } else {
        a * pow10((-e) as nat)
    };
    if e >= 0 {
        lemma_pow10_20_bound(e as nat);
        assert(1 <= u) by (nonlinear_arith)
            requires
                1 <= c,
                1 <= pow10(e as nat),
                u == c * pow10(e as nat),
        ;
    } else {
        lemma_pow10_pos((-e) as nat);
        assert(a * pow10((-e) as nat) >= 0) by (nonlinear_arith)
            requires
                a >= 0,
                pow10((-e) as nat) >= 1,
        ;
    }
    assert(f == x / u);
    vstd::arithmetic::div_mod::lemma_fundamental_div_mod(x, u);
    assert(0 <= x % u < u);
    assert(0 <= f && f * u <= x) by (nonlinear_arith)
        requires
            x == u * f + x % u,
            0 <= x % u < u,
            x >= 0,
            u >= 1,
    ;
    assert(f <= f * u) by (nonlinear_arith)
        requires
            f >= 0,
            u >= 1,
    ;
}

/// A domain end `v` no larger in size than `a` keeps within bounds once
/// scaled by `10^prec`, when `a` does.
proof fn lemma_scaled(v: int, a: int, e: int)
    requires
        -a <= v <= a,
        e < 0 ==> a * pow10((-e) as nat) <= 0x1_0000_0000_0000_0000_0000_0000,
        0 <= a <= 0x8000_0000_0000_0000,
    ensures
        -0x10_0000_0000_0000_0000_0000_0000 <= v * pow10(
            (if e >= 0 {
                0
            } else {
                -e
            }) as nat,
        ) <= 0x10_0000_0000_0000_0000_0000_0000,
{
    if e >= 0 {
        assert(pow10(0) == 1);
    } else {
        let pw = pow10((-e) as nat);
        lemma_pow10_pos((-e) as nat);
        assert(-(a * pw) <= v * pw <= a * pw) by (nonlinear_arith)
            requires
                -a <= v <= a,
                pw >= 1,
        ;
    }
}

/// What `gen_axes` needs to compute in 128 bits: the ends of the tick range
/// times the step unit, and the domain ends scaled by `10^prec`.
proof fn lemma_axis_bounds(lo: int, hi: int, d: int, up: int, s: Step, down: int)
    requires
        i64::MIN <= lo < hi <= i64::MAX,
        !(lo >= 0 && hi == 0),
        lo <= 0 || hi >= 0,
        1 <= d <= u64::MAX,
        -21 <= s.exp <= 20,
        distance_step_spec(lo, hi, d, up, s, down),
    ensures
        ({
            let (unit, prec) = step_unit(s);
            let dd = pow10(prec);
            let first = first_tick(down);
            let last = if up > 0 {
                up
            } else {
                0
            };
            &&& last <= 0x1_0000_0000_0000_0000_0000_0000_0
            &&& -0x1_0000_0000_0000_0000_0000_0000_0 <= first
            &&& 1 <= unit <= 25 * 100_000_000_000_000_000_000int
            &&& first * unit >= -0x10_0000_0000_0000_0000_0000_0000
            &&& last * unit <= 0x10_0000_0000_0000_0000_0000_0000
            &&& -0x10_0000_0000_0000_0000_0000_0000 <= lo * dd <= 0x10_0000_0000_0000_0000_0000_0000
            &&& -0x10_0000_0000_0000_0000_0000_0000 <= hi * dd <= 0x10_0000_0000_0000_0000_0000_0000
            &&& prec <= 21
            &&& 1 <= dd <= 1_000_000_000_000_000_000_000int
        }),
{
    let pr = step_unit(s).1;
    lemma_pow10_pos(pr);
    lemma_pow10_20_bound(20);
    if pr <= 20 {
        lemma_pow10_20_bound(pr);
    } else {
        assert(pr == 21);
        assert(pow10(21) == 10 * pow10(20));
    }
    let c = s.coef as int;
    let e = s.exp as int;
    let (unit, prec) = step_unit(s);
    if lo >= 0 {
        lemma_nice_step_is_nice_and_covers(hi, d, c, e);
        lemma_fits(hi, hi, d, c, e);
        lemma_side(hi, c, e, up);
        lemma_scaled(lo, hi, e);
    } else if hi < 0 {
        lemma_nice_step_is_nice_and_covers(-lo, d, -c, e);
        lemma_fits(-lo, -lo, d, -c, e);
        lemma_scaled(hi, -lo, e);
        lemma_scaled(lo, -lo, e);
        lemma_floor_side(-lo, -c, e, -down);
    } else {
        lemma_nice_step_is_nice_and_covers(hi - lo, d, c, e);
        lemma_fits(hi, hi - lo, d, c, e);
        lemma_fits(-lo, hi - lo, d, c, e);
        lemma_side(hi, c, e, up);
        lemma_side(-lo, c, e, down);
        lemma_scaled(hi, hi, e);
        lemma_scaled(lo, -lo, e);
    }
    let dd = pow10(prec);
    let first = first_tick(down);
    let last = if up > 0 {
        up
    } else {
        0
    };
    assert(last <= 0x1_0000_0000_0000_0000_0000_0000_0);
    assert(-0x1_0000_0000_0000_0000_0000_0000_0 <= first);
    assert(1 <= abs_coef(s) <= 25);
    if e >= 0 {
        lemma_pow10_20_bound(e as nat);
        assert(1 <= abs_coef(s) * pow10(e as nat) <= 25 * 100_000_000_000_000_000_000int) by (nonlinear_arith)
            requires
                1 <= abs_coef(s) <= 25,
                1 <= pow10(e as nat) <= 100_000_000_000_000_000_000int,
        ;
    }
    assert(1 <= unit <= 25 * 100_000_000_000_000_000_000int);
    assert(first * unit == -((-first) * unit)) by (nonlinear_arith);
    assert(first * unit >= -0x10_0000_0000_0000_0000_0000_0000);
    assert(last * unit <= 0x10_0000_0000_0000_0000_0000_0000);
    assert(-0x10_0000_0000_0000_0000_0000_0000 <= lo * dd <= 0x10_0000_0000_0000_0000_0000_0000);
    assert(-0x10_0000_0000_0000_0000_0000_0000 <= hi * dd <= 0x10_0000_0000_0000_0000_0000_0000);
}

/// An exact fraction `num / den`.
#[derive(Clone, Copy, Debug, PartialEq, Eq, Structural)]
pub struct Ratio {
    pub num: i128,
    pub den: i128,
}

/// The sticks for the tick values `first * unit ..= last * unit` (in units
/// of `10^-prec`) whose positions over a domain starting at `lo_d` and `r_d`
/// wide are within tolerance, in order.
fn axis_sticks(first: i128, last: i128, unit: i128, prec: u32, lo_d: i128, r_d: i128) -> (sticks: Vec<Stick>)
    requires
        first <= 0 <= last,
        last <= 0x1_0000_0000_0000_0000_0000_0000_0,
        -0x1_0000_0000_0000_0000_0000_0000_0 <= first,
        unit > 0,
        first * unit >= -0x10_0000_0000_0000_0000_0000_0000,
        last * unit <= 0x10_0000_0000_0000_0000_0000_0000,
        -0x10_0000_0000_0000_0000_0000_0000 <= lo_d <= 0x10_0000_0000_0000_0000_0000_0000,
        0 < r_d <= 0x20_0000_0000_0000_0000_0000_0000,
        prec <= 21,
    ensures
        ({
            let nums = tick_nums(first as int, (last - first + 1) as nat, unit as int).filter(
                tol_pred(lo_d as int, r_d as int),
            );
            &&& sticks@.len() == nums.len()
            &&& forall|k: int|
                0 <= k < nums.len() ==> is_tick(
                    #[trigger] sticks@[k],
                    nums[k],
                    prec as nat,
                    lo_d as int,
                    r_d as int,
                )
        }),
        forall|k1: int, k2: int|
            0 <= k1 < k2 < sticks@.len() ==> #[trigger] sticks@[k1].value.num
                < #[trigger] sticks@[k2].value.num,
        forall|k: int|
            0 <= k < sticks@.len() ==> #[trigger] sticks@[k].value.den == r_d
                && within_tolerance(sticks@[k].value.num as int, r_d as int),
{
    let ghost pred = tol_pred(lo_d as int, r_d as int);
    let tol = r_d / 10_000_000;
    let mut sticks: Vec<Stick> = Vec::new();
    let mut i: i128 = first;
    while i <= last
        invariant
            first <= i <= last + 1,
            first <= 0 <= last,
            last <= 0x1_0000_0000_0000_0000_0000_0000_0,
            -0x1_0000_0000_0000_0000_0000_0000_0 <= first,
            unit > 0,
            first * unit >= -0x10_0000_0000_0000_0000_0000_0000,
            last * unit <= 0x10_0000_0000_0000_0000_0000_0000,
            -0x10_0000_0000_0000_0000_0000_0000 <= lo_d <= 0x10_0000_0000_0000_0000_0000_0000,
            0 < r_d <= 0x20_0000_0000_0000_0000_0000_0000,
            tol == r_d / 10_000_000,
            prec <= 21,
            pred == tol_pred(lo_d as int, r_d as int),
            sticks@.len() == tick_nums(first as int, (i - first) as nat, unit as int).filter(pred).len(),
            forall|k: int|
                0 <= k < sticks@.len() ==> is_tick(
                    #[trigger] sticks@[k],
                    tick_nums(first as int, (i - first) as nat, unit as int).filter(pred)[k],
                    prec as nat,
                    lo_d as int,
                    r_d as int,
                ),
            forall|k1: int, k2: int|
                0 <= k1 < k2 < sticks@.len() ==> #[trigger] sticks@[k1].value.num
                    < #[trigger] sticks@[k2].value.num,
            forall|k: int|
                0 <= k < sticks@.len() ==> #[trigger] sticks@[k].value.num < i * unit - lo_d,
            forall|k: int|
                0 <= k < sticks@.len() ==> #[trigger] sticks@[k].value.den == r_d
                    && within_tolerance(sticks@[k].value.num as int, r_d as int),
        decreases last + 1 - i,
    {
        assert(first * unit <= i * unit <= last * unit) by (nonlinear_arith)
            requires
                first <= i <= last,
                unit > 0,
        ;
        let n = i * unit;
        let x = n - lo_d;
        let ghost old_sticks = sticks@;
        let ghost t = tick_nums(first as int, (i - first + 1) as nat, unit as int);
        let ghost t0 = tick_nums(first as int, (i - first) as nat, unit as int);
        proof {
            lemma_tolerance(x as int, r_d as int);
            assert(t.drop_last() =~= t0);
            assert(t.last() == n);
            reveal_with_fuel(Seq::<int>::filter, 1);
            assert(pred(n as int) == within_tolerance(x as int, r_d as int));
            assert(t.filter(pred) == if pred(n as int) {
                t0.filter(pred).push(n as int)
            } else {
                t0.filter(pred)
            });
        }
        if 0 - tol <= x && x <= r_d + tol {
            let label = crate::label::fixed_label(n, prec);
            sticks.push(Stick { label, value: Ratio { num: x, den: r_d } });
            proof {
                assert forall|k: int| 0 <= k < sticks@.len() implies is_tick(
                    #[trigger] sticks@[k],
                    t.filter(pred)[k],
                    prec as nat,
                    lo_d as int,
                    r_d as int,
                ) by {
                    if k < old_sticks.len() {
                        assert(sticks@[k] == old_sticks[k]);
                    }
                }
                assert forall|k1: int, k2: int|
                    0 <= k1 < k2 < sticks@.len() implies #[trigger] sticks@[k1].value.num
                    < #[trigger] sticks@[k2].value.num by {
                    if k2 < old_sticks.len() {
                        assert(sticks@[k1] == old_sticks[k1]);
                        assert(sticks@[k2] == old_sticks[k2]);
                    } else {
                        assert(sticks@[k1] == old_sticks[k1]);
                    }
                }
            }
        }
        assert(i * unit + unit == (i + 1) * unit) by (nonlinear_arith);
        i = i + 1;
    }
    sticks
}

impl SNumber {
    pub closed spec fn model(&self) -> SeriesModel {
        SeriesModel {
            values: self.series@,
            is_float: self.is_float,
            stick: self.stick,
            origin: self.origin,
            range: self.range,
        }
    }

    /// A series with the default settings: ten divisions, origin zero, no
    /// override range.
    pub fn new(series: Vec<i64>) -> (r: Self)
        ensures
            r.model() == (SeriesModel {
                values: series@,
                is_float: true,
                stick: 0,
                origin: 0,
                range: None,
            }),
    {
        SNumber { series, is_float: true, stick: 0, origin: 0, range: None }
    }

    /// A series built from unsigned integer data, each value kept as it is
    /// and in order; `ValueTooLarge` when some value exceeds `i64::MAX`.
    pub fn from_unsigned(series: Vec<u64>) -> (r: Result<Self, ScaleError>)
        ensures
            (exists|i: int| 0 <= i < series@.len() && series@[i] > i64::MAX) ==> r == Err::<
                Self,
                ScaleError,
            >(ScaleError::ValueTooLarge),
            (forall|i: int| 0 <= i < series@.len() ==> series@[i] <= i64::MAX) ==> (r matches Ok(
                s,
            ) && s.model() == (SeriesModel {
                values: Seq::new(series@.len(), |i: int| series@[i] as i64),
                is_float: false,
                stick: 0,
                origin: 0,
                range: None,
            })),
    {
        let mut values: Vec<i64> = Vec::new();
        let mut i: usize = 0;
        while i < series.len()
            invariant
                i <= series@.len(),
                values@.len() == i,
                forall|j: int| 0 <= j < i ==> series@[j] <= i64::MAX,
                forall|j: int| 0 <= j < i ==> #[trigger] values@[j] == series@[j] as i64,
            decreases series@.len() - i,
        {
            if series[i] > i64::MAX as u64 {
                return Err(ScaleError::ValueTooLarge);
            }
            values.push(series[i] as i64);
            i = i + 1;
        }
        assert(values@ =~= Seq::new(series@.len(), |i: int| series@[i] as i64));
        Ok(SNumber { series: values, is_float: false, stick: 0, origin: 0, range: None })
    }

    /// A series built from integer data.
    pub fn from_integers(series: Vec<i64>) -> (r: Self)
        ensures
            r.model() == (SeriesModel {
                values: series@,
                is_float: false,
                stick: 0,
                origin: 0,
                range: None,
            }),
    {
        SNumber { series, is_float: false, stick: 0, origin: 0, range: None }
    }

    /// A copy with the requested tick count changed.
    pub fn set_stick(&self, stick: usize) -> (r: Self)
        ensures
            r.model() == (SeriesModel { stick, ..self.model() }),
    {
        SNumber {
            series: self.series.clone(),
            is_float: self.is_float,
            stick,
            origin: self.origin,
            range: self.range,
        }
    }

    /// The values, in order.
    pub fn series(&self) -> (r: Vec<i64>)
        ensures
            r@ == self.model().values,
    {
        self.series.clone()
    }

    /// A copy whose values are this series' values followed by `other`'s;
    /// the settings are this series'.
    pub fn merge(&self, other: SNumber) -> (r: Self)
        ensures
            r.model() == (SeriesModel {
                values: self.model().values + other.model().values,
                ..self.model()
            }),
    {
        let mut series = self.series.clone();
        let mut more = other.series;
        series.append(&mut more);
        SNumber {
            series,
            is_float: self.is_float,
            stick: self.stick,
            origin: self.origin,
            range: self.range,
        }
    }

    /// A copy with an override range, which takes the origin's place in the
    /// domain.
    pub fn set_range(&self, min: i64, max: i64) -> (r: Self)
        ensures
            r.model() == (SeriesModel { range: Some((min, max)), ..self.model() }),
    {
        SNumber {
            series: self.series.clone(),
            is_float: self.is_float,
            stick: self.stick,
            origin: self.origin,
            range: Some((min, max)),
        }
    }

    /// The smallest and largest of the values together with the override
    /// range's bounds, or with the origin when no range is set.
    pub fn domain(&self) -> (r: Result<(i64, i64), ScaleError>)
        ensures
            self.model().values.len() == 0 ==> r == Err::<(i64, i64), ScaleError>(
                ScaleError::EmptySeries,
            ),
            self.model().values.len() > 0 ==> r == Ok::<(i64, i64), ScaleError>(
                (dom_lo(self.model()), dom_hi(self.model())),
            ),
            r matches Ok((lo, hi)) ==> is_least(domain_points(self.model()), lo) && is_greatest(
                domain_points(self.model()),
                hi,
            ),
    {
        if self.series.len() == 0 {
            return Err(ScaleError::EmptySeries);
        }
        let mut all = self.series.clone();
        match self.range {
            Some((a, b)) => {
                all.push(a);
                all.push(b);
            },
            None => {
                all.push(self.origin);
            },
        }
        assert(all@ == domain_points(self.model()));
        let (lo, hi) = min_max(&all);
        proof {
            let pts = domain_points(self.model());
            lemma_least_unique(pts, lo, dom_lo(self.model()));
            lemma_greatest_unique(pts, hi, dom_hi(self.model()));
        }
        Ok((lo, hi))
    }

    /// Distance above zero, step and distance below zero for the axis.
    ///
    /// With `d` divisions (ten for a tick count of zero, else one fewer
    /// than the tick count) and the domain `[lo, hi]`: when `lo >= 0` the step
    /// is the nice step for `hi / d`; when `hi < 0` it is that for `lo / d`,
    /// sign kept; otherwise that for `(hi - lo) / d`. The distances are
    /// `ceil(hi / step)` and `ceil(|lo| / step)`, the first zero when
    /// `hi < 0` and the second when `lo >= 0`.
    pub fn count_distance_step(&self) -> (r: Result<(i128, Step, i128), ScaleError>)
        ensures
            ({
                let m = self.model();
                let (lo, hi, d) = (dom_lo(m) as int, dom_hi(m) as int, divisions(m));
                &&& m.values.len() == 0 ==> r == Err::<(i128, Step, i128), ScaleError>(
                    ScaleError::EmptySeries,
                )
                &&& m.values.len() > 0 && d == 0 ==> r == Err::<(i128, Step, i128), ScaleError>(
                    ScaleError::NoDivisions,
                )
                &&& m.values.len() > 0 && d != 0 && lo >= 0 && hi == 0 ==> r == Err::<
                    (i128, Step, i128),
                    ScaleError,
                >(ScaleError::ZeroStep)
                &&& m.values.len() > 0 && d != 0 && !(lo >= 0 && hi == 0) ==> (r matches Ok(
                    (up, s, down),
                ) && distance_step_spec(lo, hi, d, up as int, s, down as int))
                &&& r matches Ok((_, s, _)) ==> -21 <= s.exp <= 20
            }),
    {
        let (lo, hi) = match self.domain() {
            Ok(v) => v,
            Err(e) => {
                return Err(e);
            },
        };
        let d: u64 = if self.stick == 0 {
            10
        } else {
            (self.stick - 1) as u64
        };
        if d == 0 {
            return Err(ScaleError::NoDivisions);
        }
        proof {
            let pts = domain_points(self.model());
            assert(pts.contains(hi));
            assert(lo <= hi);
        }
        if lo >= 0 {
            let p = hi as u64;
            match nice_step(p, d) {
                None => Err(ScaleError::ZeroStep),
                Some(s) => {
                    proof {
                        lemma_nice_step_is_nice_and_covers(p as int, d as int, s.coef as int, s.exp as int);
                        lemma_fits(p as int, p as int, d as int, s.coef as int, s.exp as int);
                    }
                    let up = ceil_steps(p as u128, s.coef as u128, s.exp);
                    Ok((up as i128, s, 0))
                },
            }
        } else if hi < 0 {
            let p = (0 - (lo as i128)) as u64;
            match nice_step(p, d) {
                None => Err(ScaleError::ZeroStep),
                Some(s) => {
                    proof {
                        lemma_nice_step_is_nice_and_covers(p as int, d as int, s.coef as int, s.exp as int);
                        lemma_fits(p as int, p as int, d as int, s.coef as int, s.exp as int);
                    }
                    let down = floor_steps(p as u128, s.coef as u128, s.exp);
                    Ok((0, Step { coef: -s.coef, exp: s.exp }, 0 - down as i128))
                },
            }
        } else {
            let p = ((hi as i128) - (lo as i128)) as u64;
            match nice_step(p, d) {
                None => Err(ScaleError::ZeroStep),
                Some(s) => {
                    let a_up = hi as u64;
                    let a_down = (0 - (lo as i128)) as u64;
                    proof {
                        lemma_nice_step_is_nice_and_covers(p as int, d as int, s.coef as int, s.exp as int);
                        lemma_fits(a_up as int, p as int, d as int, s.coef as int, s.exp as int);
                        lemma_fits(a_down as int, p as int, d as int, s.coef as int, s.exp as int);
                    }
                    let up = ceil_steps(a_up as u128, s.coef as u128, s.exp);
                    let down = ceil_steps(a_down as u128, s.coef as u128, s.exp);
                    Ok((up as i128, s, down as i128))
                },
            }
        }
    }

    /// The position of `value` on the axis, `(value - lo) / (hi - lo)` over
    /// the domain `[lo, hi]`.
    pub fn scale(&self, value: i64) -> (r: Result<Ratio, ScaleError>)
        ensures
            self.model().values.len() == 0 ==> r == Err::<Ratio, ScaleError>(
                ScaleError::EmptySeries,
            ),
            self.model().values.len() > 0 && dom_lo(self.model()) == dom_hi(self.model()) ==> r
                == Err::<Ratio, ScaleError>(ScaleError::ZeroRange),
            self.model().values.len() > 0 && dom_lo(self.model()) != dom_hi(self.model()) ==> (r
                matches Ok(q) && (q.num as int, q.den as int) == position(
                self.model(),
                value as int,
            )),
    {
        let (lo, hi) = match self.domain() {
            Ok(v) => v,
            Err(e) => {
                return Err(e);
            },
        };
        if lo == hi {
            return Err(ScaleError::ZeroRange);
        }
        Ok(Ratio { num: value as i128 - lo as i128, den: hi as i128 - lo as i128 })
    }

    /// Each value's share of the sum of all values.
    pub fn to_percent(&self) -> (r: Result<Vec<Ratio>, ScaleError>)
        ensures
            self.model().values.len() == 0 ==> r == Err::<Vec<Ratio>, ScaleError>(
                ScaleError::EmptySeries,
            ),
            self.model().values.len() > 0 && seq_sum(self.model().values) == 0 ==> r == Err::<
                Vec<Ratio>,
                ScaleError,
            >(ScaleError::ZeroSum),
            self.model().values.len() > 0 && seq_sum(self.model().values) != 0 ==> (r matches Ok(
                q,
            ) && q@.len() == self.model().values.len() && forall|i: int|
                0 <= i < q@.len() ==> (#[trigger] q@[i].num as int, q@[i].den as int) == shares(
                    self.model().values,
                )[i]),
    {
        if self.series.len() == 0 {
            return Err(ScaleError::EmptySeries);
        }
        let total = sum_of(&self.series);
        if total == 0 {
            return Err(ScaleError::ZeroSum);
        }
        let mut out: Vec<Ratio> = Vec::new();
        let mut i: usize = 0;
        while i < self.series.len()
            invariant
                i <= self.series@.len(),
                out@.len() == i,
                total == seq_sum(self.series@),
                forall|j: int|
                    0 <= j < i ==> (#[trigger] out@[j].num as int, out@[j].den as int) == shares(
                        self.series@,
                    )[j],
            decreases self.series@.len() - i,
        {
            out.push(Ratio { num: self.series[i] as i128, den: total });
            i = i + 1;
        }
        Ok(out)
    }

    /// Each value over 100: radar values are given on a 0 to 100 scale.
    pub fn to_percent_radar(&self) -> (r: Vec<Ratio>)
        ensures
            r@.len() == self.model().values.len(),
            forall|i: int|
                0 <= i < r@.len() ==> #[trigger] r@[i] == (Ratio {
                    num: self.model().values[i] as i128,
                    den: 100,
                }),
    {
        let mut out: Vec<Ratio> = Vec::new();
        let mut i: usize = 0;
        while i < self.series.len()
            invariant
                i <= self.series@.len(),
                out@.len() == i,
                forall|j: int|
                    0 <= j < i ==> #[trigger] out@[j] == (Ratio {
                        num: self.series@[j] as i128,
                        den: 100,
                    }),
            decreases self.series@.len() - i,
        {
            out.push(Ratio { num: self.series[i] as i128, den: 100 });
            i = i + 1;
        }
        out
    }

    /// The axis: a tick at every multiple of the step's size from `-|down|`
    /// to `max(up, 0)` sizes (the distances of `count_distance_step`; for a
    /// domain below zero the step is negative and `down <= 0`, so the ticks
    /// run from `down * step` up to zero), each labelled with
    /// its value written with as many decimals as the step needs, placed at
    /// its position over the domain, and kept only where that position lies
    /// in `[-1e-7, 1 + 1e-7]`. The ticks come in ascending order.
    pub fn gen_axes(&self) -> (r: Result<Axes, ScaleError>)
        ensures
            ({
                let m = self.model();
                let (lo, hi, d) = (dom_lo(m) as int, dom_hi(m) as int, divisions(m));
                &&& m.values.len() == 0 ==> r == Err::<Axes, ScaleError>(ScaleError::EmptySeries)
                &&& m.values.len() > 0 && d == 0 ==> r == Err::<Axes, ScaleError>(
                    ScaleError::NoDivisions,
                )
                &&& m.values.len() > 0 && d != 0 && lo >= 0 && hi == 0 ==> r == Err::<
                    Axes,
                    ScaleError,
                >(ScaleError::ZeroStep)
                &&& m.values.len() > 0 && d != 0 && !(lo >= 0 && hi == 0) && lo == hi ==> r
                    == Err::<Axes, ScaleError>(ScaleError::ZeroRange)
                &&& m.values.len() > 0 && d != 0 && !(lo >= 0 && hi == 0) && lo != hi ==> (r matches Ok(
                    ax,
                ) && is_axis_for(m, ax))
                &&& r matches Ok(ax) ==> ascending_within_tolerance(ax)
            }),
    {
        let (up, s, down) = match self.count_distance_step() {
            Ok(v) => v,
            Err(e) => {
                return Err(e);
            },
        };
        let (lo, hi) = match self.domain() {
            Ok(v) => v,
            Err(e) => {
                return Err(e);
            },
        };
        if lo == hi {
            return Err(ScaleError::ZeroRange);
        }
        let ghost m = self.model();
        let ghost d = divisions(m);
        proof {
            let pts = domain_points(m);
            assert(pts.contains(hi));
            assert(pts.contains(lo));
        }
        let ac: i64 = if s.coef < 0 {
            -s.coef
        } else {
            s.coef
        };
        let (unit, prec): (i128, u32) = if s.exp >= 0 {
            proof {
                lemma_pow10_20_bound(s.exp as nat);
            }
            let pw = pow10_u128(s.exp as u32);
            assert(ac * pw <= 25 * 100_000_000_000_000_000_000int) by (nonlinear_arith)
                requires
                    0 <= ac <= 25,
                    1 <= pw <= 100_000_000_000_000_000_000int,
            ;
            (ac as i128 * pw as i128, 0)
        } else {
            (ac as i128, (-s.exp) as u32)
        };
        let ghost (sa, sc) = if lo >= 0 {
            (hi as int, s.coef as int)
        } else if hi < 0 {
            (-lo, -s.coef)
        } else {
            (hi - lo, s.coef as int)
        };
        proof {
            lemma_nice_step_is_nice_and_covers(sa, d, sc, s.exp as int);
            assert(unit as int == step_unit(s).0);
            assert(prec as nat == step_unit(s).1);
        }
        let dd_u = pow10_u128(prec);
        proof {
            lemma_pow10_pos(prec as nat);
            lemma_axis_bounds(lo as int, hi as int, d, up as int, s, down as int);
        }
        let dd = dd_u as i128;
        let lo_d = lo as i128 * dd;
        let r_d = hi as i128 * dd - lo_d;
        let first: i128 = if down >= 0 {
            0 - down
        } else {
            down
        };
        let last: i128 = if up > 0 {
            up
        } else {
            0
        };
        let ghost lo_i = lo as int;
        let ghost r_i = (hi - lo) as int;
        assert(r_d == r_i * dd) by (nonlinear_arith)
            requires
                r_d == hi * dd - lo * dd,
                r_i == hi - lo,
        ;
        assert(r_d > 0) by (nonlinear_arith)
            requires
                r_d == r_i * dd,
                r_i > 0,
                dd >= 1,
        ;
        let sticks = axis_sticks(first, last, unit, prec, lo_d, r_d);
        let ax = Axes { sticks, step: s };
        proof {
            assert(pow10(prec as nat) == dd);
            assert(tick_nums(first as int, (last - first + 1) as nat, unit as int).filter(tol_pred(lo_d as int, r_d as int))
                == axis_nums(m, up as int, s, down as int));
            assert(distance_step_spec(lo as int, hi as int, d, up as int, ax.step, down as int));
            assert(is_axis_for(m, ax));
            assert(ascending_within_tolerance(ax));
        }
        Ok(ax)
    }

    /// One stick per value, in order: the value's decimal text and the value
    /// itself (not a position).
    pub fn to_stick(&self) -> (r: Vec<Stick>)
        ensures
            r@.len() == self.model().values.len(),
            forall|i: int|
                0 <= i < r@.len() ==> {
                    &&& (#[trigger] r@[i]).label@ == crate::label::fixed_text(
                        self.model().values[i] as int,
                        0,
                    )
                    &&& r@[i].value == (Ratio { num: self.model().values[i] as i128, den: 1 })
                },
    {
        let mut out: Vec<Stick> = Vec::new();
        let mut i: usize = 0;
        while i < self.series.len()
            invariant
                i <= self.series@.len(),
                out@.len() == i,
                forall|j: int|
                    0 <= j < i ==> {
                        &&& (#[trigger] out@[j]).label@ == crate::label::fixed_text(
                            self.series@[j] as int,
                            0,
                        )
                        &&& out@[j].value == (Ratio { num: self.series@[j] as i128, den: 1 })
                    },
            decreases self.series@.len() - i,
        {
            let v = self.series[i];
            let label = crate::label::fixed_label(v as i128, 0);
            out.push(Stick { label, value: Ratio { num: v as i128, den: 1 } });
            i = i + 1;
        }
        out
    }
}

} // verus!
