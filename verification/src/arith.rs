//! Exact arithmetic on costs: integer powers, integer roots and rational
//! exponents, all capped at one value that stands for "unbounded".

use vstd::prelude::*;
use crate::wide::{le_wide, lemma_value_bound, power_wide, trimmed, value, LIMB_BASE};

verus! {

/// The largest representable cost. A cost equal to it is read as unbounded.
pub const UNBOUNDED: u128 = 0xffff_ffff_ffff_ffff_ffff_ffff_ffff_ffff;

/// `x` capped at [`UNBOUNDED`].
pub open spec fn cap(x: nat) -> nat {
    if x >= UNBOUNDED {
        UNBOUNDED as nat
    } else {
        x
    }
}

/// `b` raised to the natural power `e`.
pub open spec fn power(b: nat, e: nat) -> nat
    decreases e,
{
    if e == 0 {
        1
    } else {
        b * power(b, (e - 1) as nat)
    }
}

/// The largest `k <= bound` with `k^d <= x`, or 0 if there is none.
pub open spec fn root_upto(x: nat, d: nat, bound: nat) -> nat
    decreases bound,
{
    if bound == 0 {
        0
    } else if power(bound, d) <= x {
        bound
    } else {
        root_upto(x, d, (bound - 1) as nat)
    }
}

/// The integer part of the `d`-th root of `x`.
pub open spec fn root_floor(x: nat, d: nat) -> nat {
    root_upto(x, d, x)
}

/// `r` is the integer part of the `d`-th root of `x`.
pub open spec fn is_root_floor(x: nat, d: nat, r: nat) -> bool {
    power(r, d) <= x < power(r + 1, d)
}

/// A non-negative rational exponent `num / den`.
#[derive(Clone, Copy, Debug, PartialEq, Eq, Structural)]
pub struct Exponent {
    pub num: u32,
    pub den: u32,
}

/// The largest denominator of a usable exponent. The work of taking a root
/// grows with its degree, and so does the size of the power under it.
pub const DEN_LIMIT: u32 = 128;

impl Exponent {
    /// A usable exponent has a denominator from 1 to [`DEN_LIMIT`].
    pub open spec fn well_formed(self) -> bool {
        1 <= self.den <= DEN_LIMIT
    }

    /// The exponent is strictly below the integer `k`.
    pub open spec fn below(self, k: nat) -> bool {
        self.num < k * self.den
    }

    pub fn new(num: u32, den: u32) -> (e: Self)
        ensures
            e.num == num,
            e.den == den,
    {
        Exponent { num, den }
    }

    pub fn is_well_formed(&self) -> (ok: bool)
        ensures
            ok == self.well_formed(),
    {
        1 <= self.den && self.den <= DEN_LIMIT
    }
}

/// `x` raised to the rational exponent `e`: the integer part of the
/// `den`-th root of `x^num`, capped. It is [`UNBOUNDED`] only where that
/// integer part reaches [`UNBOUNDED`].
pub open spec fn raised(x: nat, e: Exponent) -> nat {
    cap(root_floor(power(x, e.num as nat), e.den as nat))
}

pub proof fn lemma_power_positive(b: nat, e: nat)
    requires
        b >= 1,
    ensures
        power(b, e) >= 1,
    decreases e,
{
    if e > 0 {
        lemma_power_positive(b, (e - 1) as nat);
        assert(b * power(b, (e - 1) as nat) >= 1) by (nonlinear_arith)
            requires
                b >= 1,
                power(b, (e - 1) as nat) >= 1,
        ;
    }
}

/// A power does not shrink when its base grows.
pub proof fn lemma_power_monotone_base(a: nat, b: nat, e: nat)
    requires
        a <= b,
    ensures
        power(a, e) <= power(b, e),
    decreases e,
{
    if e > 0 {
        lemma_power_monotone_base(a, b, (e - 1) as nat);
        assert(a * power(a, (e - 1) as nat) <= b * power(b, (e - 1) as nat)) by (nonlinear_arith)
            requires
                a <= b,
                power(a, (e - 1) as nat) <= power(b, (e - 1) as nat),
        ;
    }
}

/// With a positive exponent, a larger base gives a strictly larger power.
pub proof fn lemma_power_strict_base(a: nat, b: nat, e: nat)
    requires
        a < b,
        e >= 1,
    ensures
        power(a, e) < power(b, e),
    decreases e,
{
    lemma_power_monotone_base(a, b, (e - 1) as nat);
    lemma_power_positive(b, (e - 1) as nat);
    assert(a * power(a, (e - 1) as nat) < b * power(b, (e - 1) as nat)) by (nonlinear_arith)
        requires
            a < b,
            power(a, (e - 1) as nat) <= power(b, (e - 1) as nat),
            power(b, (e - 1) as nat) >= 1,
    ;
}

/// With a base of at least one, a power does not shrink when its exponent grows.
pub proof fn lemma_power_monotone_exp(b: nat, e1: nat, e2: nat)
    requires
        b >= 1,
        e1 <= e2,
    ensures
        power(b, e1) <= power(b, e2),
    decreases e2,
{
    if e1 < e2 {
        lemma_power_monotone_exp(b, e1, (e2 - 1) as nat);
        lemma_power_positive(b, (e2 - 1) as nat);
        assert(power(b, (e2 - 1) as nat) <= b * power(b, (e2 - 1) as nat)) by (nonlinear_arith)
            requires
                b >= 1,
        ;
    }
}

/// Powers of a product of exponents: `(b^e1)^e2 == b^(e1*e2)`.
pub proof fn lemma_power_of_power(b: nat, e1: nat, e2: nat)
    ensures
        power(power(b, e1), e2) == power(b, e1 * e2),
    decreases e2,
{
    if e2 == 0 {
        assert(e1 * e2 == 0) by (nonlinear_arith)
            requires
                e2 == 0,
        ;
    } else {
        lemma_power_of_power(b, e1, (e2 - 1) as nat);
        assert(e1 * e2 == e1 + e1 * (e2 - 1)) by (nonlinear_arith);
        lemma_power_adds(b, e1, e1 * ((e2 - 1) as nat));
    }
}

/// Powers of a sum of exponents: `b^(e1+e2) == b^e1 * b^e2`.
pub proof fn lemma_power_adds(b: nat, e1: nat, e2: nat)
    ensures
        power(b, e1 + e2) == power(b, e1) * power(b, e2),
    decreases e1,
{
    if e1 == 0 {
        assert(power(b, e2) == 1 * power(b, e2)) by (nonlinear_arith);
    } else {
        lemma_power_adds(b, (e1 - 1) as nat, e2);
        assert(e1 + e2 - 1 == (e1 - 1) + e2);
        assert(b * (power(b, (e1 - 1) as nat) * power(b, e2)) == (b * power(b, (e1 - 1) as nat))
            * power(b, e2)) by (nonlinear_arith);
    }
}

proof fn lemma_root_upto(x: nat, d: nat, bound: nat)
    requires
        d >= 1,
    ensures
        root_upto(x, d, bound) <= bound,
        power(root_upto(x, d, bound), d) <= x,
        forall|k: nat| root_upto(x, d, bound) < k <= bound ==> power(k, d) > x,
    decreases bound,
{
    if bound == 0 {
        assert(power(0, d) == 0 * power(0, (d - 1) as nat));
    } else if power(bound, d) <= x {
    } else {
        lemma_root_upto(x, d, (bound - 1) as nat);
    }
}

/// `root_floor(x, d)` is the integer part of the `d`-th root of `x`.
pub proof fn lemma_root_floor(x: nat, d: nat)
    requires
        d >= 1,
    ensures
        is_root_floor(x, d, root_floor(x, d)),
        root_floor(x, d) <= x,
{
    lemma_root_upto(x, d, x);
    let r = root_floor(x, d);
    if r < x {
        assert(power(r + 1, d) > x);
    } else {
        lemma_power_positive(x + 1, (d - 1) as nat);
        assert((x + 1) * power(x + 1, (d - 1) as nat) >= x + 1) by (nonlinear_arith)
            requires
                power(x + 1, (d - 1) as nat) >= 1,
        ;
    }
}

/// The integer part of a root is unique.
pub proof fn lemma_root_floor_unique(x: nat, d: nat, r: nat)
    requires
        d >= 1,
        is_root_floor(x, d, r),
    ensures
        r == root_floor(x, d),
{
    lemma_root_floor(x, d);
    let s = root_floor(x, d);
    if r < s {
        lemma_power_monotone_base(r + 1, s, d);
    } else if s < r {
        lemma_power_monotone_base(s + 1, r, d);
    }
}

/// A root does not shrink when its argument grows.
pub proof fn lemma_root_floor_monotone(x: nat, y: nat, d: nat)
    requires
        d >= 1,
        x <= y,
    ensures
        root_floor(x, d) <= root_floor(y, d),
{
    lemma_root_floor(x, d);
    lemma_root_floor(y, d);
    let r = root_floor(x, d);
    let s = root_floor(y, d);
    if s < r {
        lemma_power_monotone_base(s + 1, r, d);
    }
}

/// `base^exp`, or `None` when it does not fit.
pub fn pow_checked(base: u128, exp: u32) -> (r: Option<u128>)
    ensures
        match r {
            Some(p) => p == power(base as nat, exp as nat),
            None => power(base as nat, exp as nat) > UNBOUNDED,
        },
{
    if exp == 0 {
        return Some(1);
    }
    if base <= 1 {
        proof {
            lemma_power_small_base(base as nat, exp as nat);
        }
        return Some(base);
    }
    let mut acc: u128 = 1;
    let mut i: u32 = 0;
    while i < exp
        invariant
            i <= exp,
            base >= 2,
            acc == power(base as nat, i as nat),
        decreases exp - i,
    {
        match acc.checked_mul(base) {
            Some(next) => {
                assert(acc * base == base * acc) by (nonlinear_arith);
                acc = next;
            },
            None => {
                proof {
                    assert(acc * base == base * acc) by (nonlinear_arith);
                    lemma_power_monotone_exp(base as nat, (i + 1) as nat, exp as nat);
                }
                return None;
            },
        }
        i = i + 1;
    }
    Some(acc)
}

proof fn lemma_power_small_base(b: nat, e: nat)
    requires
        b <= 1,
        e >= 1,
    ensures
        power(b, e) == b,
    decreases e,
{
    if e > 1 {
        lemma_power_small_base(b, (e - 1) as nat);
    }
    let rest = power(b, (e - 1) as nat);
    assert(rest == 1 || rest == b);
    assert(b * rest == b) by (nonlinear_arith)
        requires
            b <= 1,
            rest == 1 || rest == b,
    ;
}

/// `base^exp`, capped.
pub fn pow_saturating(base: u128, exp: u32) -> (r: u128)
    ensures
        r == cap(power(base as nat, exp as nat)),
{
    match pow_checked(base, exp) {
        Some(p) => p,
        None => UNBOUNDED,
    }
}

/// Integer part of the `degree`-th root of `x`.
pub fn nth_root(x: u128, degree: u32) -> (r: u128)
    requires
        degree >= 1,
    ensures
        r == root_floor(x as nat, degree as nat),
{
    if degree == 1 || x <= 1 {
        proof {
            if degree == 1 {
                reveal_with_fuel(power, 2);
                assert(power(x as nat, 1) == x * 1);
                assert(power((x + 1) as nat, 1) == (x + 1) * 1);
            } else {
                lemma_power_small_base(x as nat, degree as nat);
                lemma_power_strict_base(x as nat, (x + 1) as nat, degree as nat);
            }
            lemma_root_floor_unique(x as nat, degree as nat, x as nat);
        }
        return x;
    }
    let mut lo: u128 = 1;
    let mut hi: u128 = x;
    proof {
        lemma_power_small_base(1, degree as nat);
        lemma_power_monotone_exp(x as nat, 2, degree as nat);
        assert(power(x as nat, 2) == x * (x * power(x as nat, 0))) by {
            reveal_with_fuel(power, 3);
        }
        assert(x * (x * 1) > x) by (nonlinear_arith)
            requires
                x >= 2,
        ;
    }
    while hi - lo > 1
        invariant
            degree >= 2,
            1 <= lo < hi <= x,
            power(lo as nat, degree as nat) <= x < power(hi as nat, degree as nat),
        decreases hi - lo,
    {
        let mid: u128 = lo + (hi - lo) / 2;
        let fits: bool = match pow_checked(mid, degree) {
            Some(p) => p <= x,
            None => false,
        };
        if fits {
            lo = mid;
        } else {
            hi = mid;
        }
    }
    proof {
        assert(hi == lo + 1);
        lemma_root_floor_unique(x as nat, degree as nat, lo as nat);
    }
    lo
}

/// A number that reaches the `d`-th power of `c` has a `d`-th root of at
/// least `c`.
pub proof fn lemma_root_at_least(y: nat, d: nat, c: nat)
    requires
        d >= 1,
        power(c, d) <= y,
    ensures
        root_floor(y, d) >= c,
{
    lemma_root_floor(y, d);
    let r = root_floor(y, d);
    if r < c {
        lemma_power_monotone_base(r + 1, c, d);
    }
}

/// As many limbs of 64 bits as twice the degree hold every `d`-th power of a
/// number of 128 bits, and nothing whose `d`-th root has more bits.
proof fn lemma_limbs_for_root(d: nat)
    ensures
        power(LIMB_BASE as nat, 2 * d) == power(UNBOUNDED as nat + 1, d),
{
    let b = LIMB_BASE as nat;
    lemma_power_of_power(b, 2, d);
    reveal_with_fuel(power, 3);
    assert(power(b, 2) == b * (b * 1));
}

/// `x` raised to the rational exponent `e`.
pub fn raise(x: u128, e: &Exponent) -> (r: u128)
    requires
        e.well_formed(),
    ensures
        r == raised(x as nat, *e),
{
    let ghost n = e.num as nat;
    let ghost d = e.den as nat;
    let ghost y = power(x as nat, n);
    if e.num == 0 {
        proof {
            lemma_power_small_base(1, d);
            lemma_power_strict_base(1, 2, d);
            lemma_root_floor_unique(1, d, 1);
        }
        return 1;
    }
    if x <= 1 {
        proof {
            lemma_power_small_base(x as nat, n);
            lemma_power_small_base(x as nat, d);
            lemma_power_strict_base(x as nat, (x + 1) as nat, d);
            lemma_root_floor_unique(x as nat, d, x as nat);
        }
        return x;
    }
    if e.den == 1 {
        proof {
            reveal_with_fuel(power, 2);
            assert(power(y, 1) == y * 1);
            assert(power(y + 1, 1) == (y + 1) * 1);
            lemma_root_floor_unique(y, 1, y);
        }
        return pow_saturating(x, e.num);
    }
    let limit: usize = 2 * (e.den as usize);
    proof {
        lemma_limbs_for_root(d);
        lemma_power_positive(x as nat, n);
    }
    let big = match power_wide(x, e.num, limit) {
        Some(v) => v,
        None => {
            proof {
                lemma_root_at_least(y, d, UNBOUNDED as nat + 1);
            }
            return UNBOUNDED;
        },
    };
    let reaches_cap: bool = match power_wide(UNBOUNDED, e.den, limit) {
        Some(top) => le_wide(&top, &big),
        None => false,
    };
    if reaches_cap {
        proof {
            lemma_root_at_least(y, d, UNBOUNDED as nat);
        }
        return UNBOUNDED;
    }
    let mut lo: u128 = 1;
    let mut hi: u128 = UNBOUNDED;
    proof {
        lemma_power_small_base(1, d);
        lemma_value_bound(big@);
        lemma_power_monotone_exp(LIMB_BASE as nat, big@.len(), limit as nat);
    }
    while hi - lo > 1
        invariant
            1 <= lo < hi <= UNBOUNDED,
            d == e.den as nat,
            2 <= e.den <= DEN_LIMIT,
            limit == 2 * e.den,
            value(big@) == y,
            trimmed(big@),
            y < power(LIMB_BASE as nat, limit as nat),
            power(lo as nat, d) <= y < power(hi as nat, d),
        decreases hi - lo,
    {
        let mid: u128 = lo + (hi - lo) / 2;
        let fits: bool = match power_wide(mid, e.den, limit) {
            Some(p) => le_wide(&p, &big),
            None => false,
        };
        if fits {
            lo = mid;
        } else {
            hi = mid;
        }
    }
    proof {
        assert(hi == lo + 1);
        lemma_root_floor_unique(y, d, lo as nat);
    }
    lo
}

/// `a + b`, capped.
pub fn add_capped(a: u128, b: u128) -> (r: u128)
    ensures
        r == cap((a + b) as nat),
{
    a.saturating_add(b)
}

/// The result of [`raised`] never exceeds [`UNBOUNDED`].
pub proof fn lemma_raised_capped(x: nat, e: Exponent)
    ensures
        raised(x, e) <= UNBOUNDED,
{
}

/// An exponent below `k` gives strictly less than the `k`-th power, for any
/// base above one.
pub proof fn lemma_raised_below_power(x: nat, e: Exponent, k: nat)
    requires
        e.well_formed(),
        e.below(k),
        x >= 2,
    ensures
        raised(x, e) < power(x, k),
{
    let n = e.num as nat;
    let d = e.den as nat;
    let p = power(x, n);
    let r = root_floor(p, d);
    lemma_root_floor(p, d);
    // r^d <= x^n < x^(k*d) == (x^k)^d, hence r < x^k.
    assert(n + 1 <= k * d);
    lemma_power_monotone_exp(x, n + 1, k * d);
    lemma_power_positive(x, n);
    assert(power(x, n + 1) == x * power(x, n));
    assert(x * power(x, n) > power(x, n)) by (nonlinear_arith)
        requires
            x >= 2,
            power(x, n) >= 1,
    ;
    lemma_power_of_power(x, k, d);
    if r >= power(x, k) {
        lemma_power_monotone_base(power(x, k), r, d);
    }
}

} // verus!
