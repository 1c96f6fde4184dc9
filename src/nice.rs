//! Choosing a "nice" axis step: the smallest of 1, 2, 2.5, 5 or 10 times a
//! power of ten that is at least a raw step `p / q`.
use vstd::prelude::*;

verus! {

/// `10` raised to `n`.
pub open spec fn pow10(n: nat) -> int
    decreases n,
{
    if n == 0 {
        1
    } else {
        10 * pow10((n - 1) as nat)
    }
}

/// `c * 10^e <= p / q`, stated without division (`q > 0`).
pub open spec fn dec_le_frac(c: int, e: int, p: int, q: int) -> bool {
    if e >= 0 {
        c * pow10(e as nat) * q <= p
    } else {
        c * q <= p * pow10((-e) as nat)
    }
}

/// `p / q <= c * 10^e`, stated without division (`q > 0`).
pub open spec fn frac_le_dec(p: int, q: int, c: int, e: int) -> bool {
    if e >= 0 {
        p <= c * pow10(e as nat) * q
    } else {
        p * pow10((-e) as nat) <= c * q
    }
}

/// `p / q` lies in the decade `[10^k, 10^(k+1))`.
pub open spec fn in_decade(p: int, q: int, k: int) -> bool {
    dec_le_frac(1, k, p, q) && !dec_le_frac(1, k + 1, p, q)
}

/// The first of `1, 2, 2.5, 5, 10` (times `10^k`) that is at least `p / q`,
/// as a pair `(coefficient, exponent)`; 2.5 is written `25 * 10^(k-1)` and
/// 10 is written `1 * 10^(k+1)`.
pub open spec fn nice_pick(p: int, q: int, k: int) -> (int, int) {
    if frac_le_dec(p, q, 1, k) {
        (1, k)
    } else if frac_le_dec(p, q, 2, k) {
        (2, k)
    } else if frac_le_dec(p, q, 25, k - 1) {
        (25, k - 1)
    } else if frac_le_dec(p, q, 5, k) {
        (5, k)
    } else {
        (1, k + 1)
    }
}

/// A coefficient that a nice step may carry: 2.5 is `25 * 10^(e-1)`.
pub open spec fn nice_coef(c: int) -> bool {
    c == 1 || c == 2 || c == 5 || c == 25
}

/// A decimal step `coef * 10^exp`.
#[derive(Clone, Copy, Debug, PartialEq, Eq, Structural)]
pub struct Step {
    pub coef: i64,
    pub exp: i32,
}

impl Step {
    pub open spec fn parts(self) -> (int, int) {
        (self.coef as int, self.exp as int)
    }
}

pub proof fn lemma_pow10_pos(n: nat)
    ensures
        pow10(n) >= 1,
    decreases n,
{
    if n > 0 {
        lemma_pow10_pos((n - 1) as nat);
    }
}

pub proof fn lemma_pow10_mono(a: nat, b: nat)
    requires
        a <= b,
    ensures
        pow10(a) <= pow10(b),
    decreases b,
{
    if a < b {
        lemma_pow10_mono(a, (b - 1) as nat);
        lemma_pow10_pos((b - 1) as nat);
    }
}

proof fn lemma_pow10_20()
    ensures
        pow10(20) == 100_000_000_000_000_000_000int,
{
    reveal_with_fuel(pow10, 21);
}

/// A power of ten below `10^20` has an exponent below 20.
proof fn lemma_pow10_below_20(n: nat)
    requires
        pow10(n) < 100_000_000_000_000_000_000int,
    ensures
        n < 20,
{
    lemma_pow10_20();
    if n >= 20 {
        lemma_pow10_mono(20, n);
    }
}

/// `10^n` for `n <= 30`.
pub fn pow10_u128(n: u32) -> (r: u128)
    requires
        n <= 30,
    ensures
        r == pow10(n as nat),
{
    let mut r: u128 = 1;
    let mut i: u32 = 0;
    proof {
        reveal_with_fuel(pow10, 31);
    }
    while i < n
        invariant
            i <= n <= 30,
            r == pow10(i as nat),
            pow10(30) == 1_000_000_000_000_000_000_000_000_000_000int,
        decreases n - i,
    {
        proof {
            lemma_pow10_mono((i + 1) as nat, 30);
        }
        r = r * 10;
        i = i + 1;
    }
    r
}

/// The step that `nice_step` gives for the raw step `p / q`.
pub open spec fn is_nice_step_for(p: int, q: int, c: int, e: int) -> bool {
    exists|k: int| in_decade(p, q, k) && (c, e) == nice_pick(p, q, k)
}

/// A nice step is one of 1, 2, 2.5, 5 or 10 times a power of ten, and is
/// never below the raw step it was chosen for (it equals it exactly when the
/// raw step is itself such a value).
pub proof fn lemma_nice_step_is_nice_and_covers(p: int, q: int, c: int, e: int)
    requires
        p > 0,
        q > 0,
        is_nice_step_for(p, q, c, e),
    ensures
        nice_coef(c),
        frac_le_dec(p, q, c, e),
{
    let k = choose|k: int| in_decade(p, q, k) && (c, e) == nice_pick(p, q, k);
    assert(in_decade(p, q, k));
}

/// The nice step for the raw step `p / q`: the smallest value
/// `c * 10^k` with `c` among 1, 2, 2.5, 5, 10 that is at least `p / q`, where
/// `10^k <= p / q < 10^(k+1)`. `None` when `p` or `q` is zero.
pub fn nice_step(p: u64, q: u64) -> (r: Option<Step>)
    ensures
        r.is_none() <==> (p == 0 || q == 0),
        r matches Some(s) ==> {
            &&& is_nice_step_for(p as int, q as int, s.coef as int, s.exp as int)
            &&& -21 <= s.exp <= 20
        },
{
    if p == 0 || q == 0 {
        return None;
    }
    let pp = p as u128;
    let qq = q as u128;
    if pp >= qq {
        let mut b: u128 = qq;
        let mut k: i32 = 0;
        proof {
            reveal_with_fuel(pow10, 1);
        }
        while b * 10 <= pp
            invariant
                0 <= k < 20,
                b == qq * pow10(k as nat),
                pow10(k as nat) <= b,
                b <= pp,
                b >= 1,
                pp == p,
                qq == q,
                qq >= 1,
            decreases pp - b,
        {
            proof {
                assert(pow10((k + 1) as nat) == 10 * pow10(k as nat));
                assert(pow10((k + 1) as nat) < 100_000_000_000_000_000_000int);
                lemma_pow10_below_20((k + 1) as nat);
                assert(qq * pow10((k + 1) as nat) == b * 10) by (nonlinear_arith)
                    requires
                        pow10((k + 1) as nat) == 10 * pow10(k as nat),
                        b == qq * pow10(k as nat),
                ;
            }
            b = b * 10;
            k = k + 1;
        }
        let ghost kk = k as int;
        assert(pow10(kk as nat) * q == b) by (nonlinear_arith)
            requires
                b == qq * pow10(kk as nat),
                qq == q,
        ;
        assert(in_decade(p as int, q as int, kk)) by {
            assert(pow10((kk + 1) as nat) == 10 * pow10(kk as nat));
            assert(pow10((kk + 1) as nat) * q == 10 * b) by (nonlinear_arith)
                requires
                    pow10((kk + 1) as nat) == 10 * pow10(kk as nat),
                    pow10(kk as nat) * q == b,
            ;
        }
        assert(1 * pow10(kk as nat) * q == b);
        assert(2 * pow10(kk as nat) * q == 2 * b) by (nonlinear_arith)
            requires
                pow10(kk as nat) * q == b,
        ;
        assert(5 * pow10(kk as nat) * q == 5 * b) by (nonlinear_arith)
            requires
                pow10(kk as nat) * q == b,
        ;
        assert(frac_le_dec(p as int, q as int, 25, kk - 1) <==> 10 * p <= 25 * b) by {
            if kk >= 1 {
                assert(pow10(kk as nat) == 10 * pow10((kk - 1) as nat));
                assert(10 * (25 * pow10((kk - 1) as nat) * q) == 25 * b) by (nonlinear_arith)
                    requires
                        pow10(kk as nat) == 10 * pow10((kk - 1) as nat),
                        pow10(kk as nat) * q == b,
                ;
                let x = 25 * pow10((kk - 1) as nat) * q;
                assert(frac_le_dec(p as int, q as int, 25, kk - 1) <==> p <= x);
                assert(10 * p <= 25 * b <==> p <= x);
            } else {
                assert(pow10(1) == 10) by {
                    reveal_with_fuel(pow10, 2);
                }
                assert(pow10(0) == 1);
                assert(b == q);
                assert(frac_le_dec(p as int, q as int, 25, kk - 1) <==> p * 10 <= 25 * q);
            }
        }
        let s = if pp <= b {
            Step { coef: 1, exp: k }
        } else if pp <= 2 * b {
            Step { coef: 2, exp: k }
        } else if 10 * pp <= 25 * b {
            Step { coef: 25, exp: k - 1 }
        } else if pp <= 5 * b {
            Step { coef: 5, exp: k }
        } else {
            Step { coef: 1, exp: k + 1 }
        };
        assert(s.parts() == nice_pick(p as int, q as int, kk));
        Some(s)
    } else {
        let mut b: u128 = pp;
        let mut j: i32 = 0;
        proof {
            reveal_with_fuel(pow10, 1);
        }
        while b < qq
            invariant
                0 <= j <= 20,
                b == pp * pow10(j as nat),
                pow10(j as nat) <= b,
                b < 10 * qq,
                b >= 1,
                j == 0 ==> b < qq,
                pp == p,
                qq == q,
                pp >= 1,
                qq <= u64::MAX,
            decreases 20 - j,
        {
            proof {
                assert(pow10((j + 1) as nat) == 10 * pow10(j as nat));
                assert(pow10((j + 1) as nat) < 100_000_000_000_000_000_000int * 10);
                if j == 20 {
                    lemma_pow10_20();
                    assert(pow10(21) == 10 * pow10(20));
                    assert(false);
                }
                assert(pp * pow10((j + 1) as nat) == b * 10) by (nonlinear_arith)
                    requires
                        pow10((j + 1) as nat) == 10 * pow10(j as nat),
                        b == pp * pow10(j as nat),
                ;
            }
            b = b * 10;
            j = j + 1;
        }
        let ghost jj = j as int;
        assert(jj >= 1);
        assert(p * pow10(jj as nat) == b);
        assert(in_decade(p as int, q as int, -jj)) by {
            assert(pow10(jj as nat) == 10 * pow10((jj - 1) as nat));
            assert(10 * (p * pow10((jj - 1) as nat)) == b) by (nonlinear_arith)
                requires
                    pow10(jj as nat) == 10 * pow10((jj - 1) as nat),
                    p * pow10(jj as nat) == b,
            ;
            if jj == 1 {
                assert(pow10(0) == 1);
            }
        }
        assert(pow10((jj + 1) as nat) == 10 * pow10(jj as nat));
        assert(p * pow10((jj + 1) as nat) == 10 * b) by (nonlinear_arith)
            requires
                pow10((jj + 1) as nat) == 10 * pow10(jj as nat),
                p * pow10(jj as nat) == b,
        ;
        let s = if b <= qq {
            Step { coef: 1, exp: -j }
        } else if b <= 2 * qq {
            Step { coef: 2, exp: -j }
        } else if 10 * b <= 25 * qq {
            Step { coef: 25, exp: -j - 1 }
        } else if b <= 5 * qq {
            Step { coef: 5, exp: -j }
        } else {
            assert(!frac_le_dec(p as int, q as int, 1, -jj));
            assert(!frac_le_dec(p as int, q as int, 2, -jj));
            assert(!frac_le_dec(p as int, q as int, 25, -jj - 1));
            assert(!frac_le_dec(p as int, q as int, 5, -jj));
            Step { coef: 1, exp: 1 - j }
        };
        assert(s.parts() == nice_pick(p as int, q as int, -jj));
        Some(s)
    }
}

} // verus!
