//! Natural numbers of any size, held as limbs of 64 bits, least limb first.
//! They carry the powers that do not fit in 128 bits while a root is taken.

use vstd::prelude::*;
use crate::arith::{lemma_power_adds, lemma_power_monotone_exp, lemma_power_positive, power};

verus! {

/// The base of the limbs: 2^64.
pub const LIMB_BASE: u128 = 0x1_0000_0000_0000_0000;

/// The number that the limbs `l` stand for.
pub open spec fn value(l: Seq<u64>) -> nat
    decreases l.len(),
{
    if l.len() == 0 {
        0
    } else {
        value(l.drop_last()) + l.last() as nat * power(LIMB_BASE as nat, (l.len() - 1) as nat)
    }
}

/// The highest limb of `l`, if there is one, is not zero.
pub open spec fn trimmed(l: Seq<u64>) -> bool {
    l.len() == 0 || l.last() != 0
}

/// One more limb adds that limb times the power of the base at its place.
pub proof fn lemma_value_push(l: Seq<u64>, x: u64)
    ensures
        value(l.push(x)) == value(l) + x as nat * power(LIMB_BASE as nat, l.len()),
{
    assert(l.push(x).drop_last() =~= l);
}

/// `k` limbs stand for a number below the `k`-th power of the base.
pub proof fn lemma_value_bound(l: Seq<u64>)
    ensures
        value(l) < power(LIMB_BASE as nat, l.len()),
    decreases l.len(),
{
    if l.len() > 0 {
        lemma_value_bound(l.drop_last());
        let p = power(LIMB_BASE as nat, (l.len() - 1) as nat);
        let low = value(l.drop_last());
        let top = l.last() as nat;
        let b = LIMB_BASE as nat;
        assert(power(b, l.len()) == b * p);
        assert(low + top * p < b * p) by (nonlinear_arith)
            requires
                low < p,
                top + 1 <= b,
        ;
    }
}

/// Trimmed limbs stand for a number that is at least the power of the base
/// at the place of the highest.
pub proof fn lemma_value_trimmed(l: Seq<u64>)
    requires
        trimmed(l),
        l.len() >= 1,
    ensures
        value(l) >= power(LIMB_BASE as nat, (l.len() - 1) as nat),
{
    let p = power(LIMB_BASE as nat, (l.len() - 1) as nat);
    let top = l.last() as nat;
    assert(top * p >= p) by (nonlinear_arith)
        requires
            top >= 1,
    ;
}

/// The limbs below the place `k` and those from `k` on stand for the two
/// parts of the number.
pub proof fn lemma_value_split(l: Seq<u64>, k: int)
    requires
        0 <= k <= l.len(),
    ensures
        value(l) == value(l.take(k)) + power(LIMB_BASE as nat, k as nat) * value(l.skip(k)),
    decreases l.len(),
{
    let b = LIMB_BASE as nat;
    if k == l.len() {
        assert(l.take(k) =~= l);
        assert(l.skip(k).len() == 0);
        assert(power(b, k as nat) * 0 == 0);
    } else {
        let front = l.drop_last();
        lemma_value_split(front, k);
        assert(front.take(k) =~= l.take(k));
        assert(l.skip(k).drop_last() =~= front.skip(k));
        assert(l.skip(k).last() == l.last());
        let rest = (l.len() - 1 - k) as nat;
        lemma_power_adds(b, k as nat, rest);
        let pk = power(b, k as nat);
        let pr = power(b, rest);
        let hi = value(front.skip(k));
        let top = l.last() as nat;
        assert(pk * (hi + top * pr) == pk * hi + top * (pk * pr)) by (nonlinear_arith);
    }
}

/// A zero limb put below the others multiplies the number by the base.
pub proof fn lemma_value_shift(l: Seq<u64>)
    ensures
        value(seq![0u64] + l) == LIMB_BASE as nat * value(l),
    decreases l.len(),
{
    let b = LIMB_BASE as nat;
    let s = seq![0u64] + l;
    if l.len() == 0 {
        assert(s =~= seq![0u64]);
        assert(s.drop_last().len() == 0);
        assert(value(s.drop_last()) == 0);
        assert(0 * power(b, 0) == 0);
        assert(b * 0 == 0);
    } else {
        lemma_value_shift(l.drop_last());
        assert(s.drop_last() =~= seq![0u64] + l.drop_last());
        assert(s.last() == l.last());
        let p = power(b, (l.len() - 1) as nat);
        assert(power(b, l.len()) == b * p);
        let low = value(l.drop_last());
        let top = l.last() as nat;
        assert(b * low + top * (b * p) == b * (low + top * p)) by (nonlinear_arith);
    }
}

/// `v` without its highest limbs that are zero.
pub fn trim(v: Vec<u64>) -> (r: Vec<u64>)
    ensures
        value(r@) == value(v@),
        trimmed(r@),
        r.len() <= v.len(),
{
    let mut r = v;
    while r.len() > 0 && r[r.len() - 1] == 0
        invariant
            value(r@) == value(v@),
            r.len() <= v.len(),
        decreases r.len(),
    {
        proof {
            assert(0 * power(LIMB_BASE as nat, (r.len() - 1) as nat) == 0);
        }
        let _ = r.pop();
    }
    r
}

/// `a` times the single limb `m`.
pub fn mul_small(a: &Vec<u64>, m: u64) -> (r: Vec<u64>)
    ensures
        value(r@) == value(a@) * m,
        r.len() == a.len() + 1,
{
    let ghost b = LIMB_BASE as nat;
    let mut r: Vec<u64> = Vec::new();
    let mut carry: u128 = 0;
    let mut i: usize = 0;
    proof {
        assert(a@.take(0).len() == 0);
        assert(0 * power(b, 0) == 0);
        assert(0 * (m as nat) == 0);
    }
    while i < a.len()
        invariant
            i <= a.len(),
            b == LIMB_BASE as nat,
            r.len() == i,
            carry < LIMB_BASE,
            value(r@) + carry * power(b, i as nat) == value(a@.take(i as int)) * m,
        decreases a.len() - i,
    {
        let limb: u128 = a[i] as u128;
        assert(limb * m <= 0xffff_ffff_ffff_ffff * 0xffff_ffff_ffff_ffff) by (nonlinear_arith)
            requires
                limb <= 0xffff_ffff_ffff_ffff,
                m <= 0xffff_ffff_ffff_ffff,
        ;
        let prod: u128 = limb * (m as u128) + carry;
        let low: u64 = (prod % LIMB_BASE) as u64;
        let next_carry: u128 = prod / LIMB_BASE;
        proof {
            let p = power(b, i as nat);
            lemma_value_push(r@, low);
            assert(a@.take(i + 1).drop_last() =~= a@.take(i as int));
            assert(a@.take(i + 1).last() == a@[i as int]);
            assert(power(b, (i + 1) as nat) == b * p);
            let before = value(r@);
            let part = value(a@.take(i as int));
            assert(prod == low + next_carry * b);
            assert(before + low * p + next_carry * (b * p) == (part + limb * p) * m)
                by (nonlinear_arith)
                requires
                    before + carry * p == part * m,
                    limb * m + carry == low + next_carry * b,
            ;
        }
        r.push(low);
        carry = next_carry;
        i = i + 1;
    }
    proof {
        lemma_value_push(r@, carry as u64);
        assert(a@.take(a.len() as int) =~= a@);
    }
    r.push(carry as u64);
    r
}

/// The sum of two numbers of as many limbs.
pub fn add_wide(a: &Vec<u64>, c: &Vec<u64>) -> (r: Vec<u64>)
    requires
        a.len() == c.len(),
    ensures
        value(r@) == value(a@) + value(c@),
        r.len() == a.len() + 1,
{
    let ghost b = LIMB_BASE as nat;
    let mut r: Vec<u64> = Vec::new();
    let mut carry: u128 = 0;
    let mut i: usize = 0;
    proof {
        assert(a@.take(0).len() == 0);
        assert(c@.take(0).len() == 0);
        assert(0 * power(b, 0) == 0);
    }
    while i < a.len()
        invariant
            i <= a.len(),
            a.len() == c.len(),
            b == LIMB_BASE as nat,
            r.len() == i,
            carry <= 1,
            value(r@) + carry * power(b, i as nat) == value(a@.take(i as int)) + value(
                c@.take(i as int),
            ),
        decreases a.len() - i,
    {
        let x: u128 = a[i] as u128;
        let y: u128 = c[i] as u128;
        let sum: u128 = x + y + carry;
        let low: u64 = (sum % LIMB_BASE) as u64;
        let next_carry: u128 = sum / LIMB_BASE;
        proof {
            let p = power(b, i as nat);
            lemma_value_push(r@, low);
            assert(a@.take(i + 1).drop_last() =~= a@.take(i as int));
            assert(a@.take(i + 1).last() == a@[i as int]);
            assert(c@.take(i + 1).drop_last() =~= c@.take(i as int));
            assert(c@.take(i + 1).last() == c@[i as int]);
            assert(power(b, (i + 1) as nat) == b * p);
            let before = value(r@);
            let pa = value(a@.take(i as int));
            let pc = value(c@.take(i as int));
            assert(sum == low + next_carry * b);
            assert(before + low * p + next_carry * (b * p) == (pa + x * p) + (pc + y * p))
                by (nonlinear_arith)
                requires
                    before + carry * p == pa + pc,
                    x + y + carry == low + next_carry * b,
            ;
        }
        r.push(low);
        carry = next_carry;
        i = i + 1;
    }
    proof {
        lemma_value_push(r@, carry as u64);
        assert(a@.take(a.len() as int) =~= a@);
        assert(c@.take(c.len() as int) =~= c@);
    }
    r.push(carry as u64);
    r
}

/// `a` times the base: a zero limb below the limbs of `a`.
pub fn shift_one(a: &Vec<u64>) -> (r: Vec<u64>)
    ensures
        value(r@) == LIMB_BASE as nat * value(a@),
        r.len() == a.len() + 1,
{
    let mut r: Vec<u64> = Vec::new();
    r.push(0);
    let mut i: usize = 0;
    while i < a.len()
        invariant
            i <= a.len(),
            r@ =~= seq![0u64] + a@.take(i as int),
        decreases a.len() - i,
    {
        r.push(a[i]);
        i = i + 1;
    }
    proof {
        assert(a@.take(a.len() as int) =~= a@);
        lemma_value_shift(a@);
    }
    r
}

/// `a` times `m`, trimmed.
pub fn mul_wide(a: &Vec<u64>, m: u128) -> (r: Vec<u64>)
    ensures
        value(r@) == value(a@) * m,
        trimmed(r@),
{
    let low: u64 = (m % LIMB_BASE) as u64;
    let high: u64 = (m / LIMB_BASE) as u64;
    let mut first = mul_small(a, low);
    proof {
        lemma_value_push(first@, 0);
        assert(0 * power(LIMB_BASE as nat, first@.len()) == 0);
    }
    first.push(0);
    let second = shift_one(&mul_small(a, high));
    let sum = add_wide(&first, &second);
    proof {
        let v = value(a@);
        let b = LIMB_BASE as nat;
        assert(v * low + b * (v * high) == v * (low + high * b)) by (nonlinear_arith);
    }
    trim(sum)
}


/// `base` raised to `e`, trimmed, if it fits in `max_len` limbs.
pub fn power_wide(base: u128, e: u32, max_len: usize) -> (r: Option<Vec<u64>>)
    requires
        base >= 2,
        max_len >= 1,
    ensures
        match r {
            Some(v) => value(v@) == power(base as nat, e as nat) && trimmed(v@) && 1 <= v.len()
                <= max_len,
            None => power(base as nat, e as nat) >= power(LIMB_BASE as nat, max_len as nat),
        },
{
    let ghost b = LIMB_BASE as nat;
    let mut acc: Vec<u64> = Vec::new();
    acc.push(1);
    proof {
        assert(acc@.drop_last().len() == 0);
        assert(value(acc@.drop_last()) == 0);
        assert(1 * power(b, 0) == 1);
    }
    let mut i: u32 = 0;
    while i < e
        invariant
            i <= e,
            base >= 2,
            max_len >= 1,
            b == LIMB_BASE as nat,
            value(acc@) == power(base as nat, i as nat),
            trimmed(acc@),
            1 <= acc.len() <= max_len,
        decreases e - i,
    {
        let next = mul_wide(&acc, base);
        proof {
            let before = power(base as nat, i as nat);
            assert(power(base as nat, (i + 1) as nat) == base * before);
            assert(before * base == base * before) by (nonlinear_arith);
            lemma_power_positive(base as nat, (i + 1) as nat);
            if next.len() == 0 {
                assert(value(next@) == 0);
            }
        }
        if next.len() > max_len {
            proof {
                lemma_value_trimmed(next@);
                lemma_power_monotone_exp(b, max_len as nat, (next.len() - 1) as nat);
                lemma_power_monotone_exp(base as nat, (i + 1) as nat, e as nat);
            }
            return None;
        }
        acc = next;
        i = i + 1;
    }
    Some(acc)
}

/// Says whether the first number is at most the second.
pub fn le_wide(a: &Vec<u64>, c: &Vec<u64>) -> (le: bool)
    requires
        trimmed(a@),
        trimmed(c@),
    ensures
        le == (value(a@) <= value(c@)),
{
    let ghost b = LIMB_BASE as nat;
    if a.len() < c.len() {
        proof {
            lemma_value_bound(a@);
            lemma_value_trimmed(c@);
            lemma_power_monotone_exp(b, a.len() as nat, (c.len() - 1) as nat);
        }
        return true;
    }
    if a.len() > c.len() {
        proof {
            lemma_value_bound(c@);
            lemma_value_trimmed(a@);
            lemma_power_monotone_exp(b, c.len() as nat, (a.len() - 1) as nat);
        }
        return false;
    }
    let mut i: usize = a.len();
    proof {
        assert(a@.skip(i as int) =~= c@.skip(i as int));
    }
    while i > 0
        invariant
            i <= a.len(),
            a.len() == c.len(),
            a@.skip(i as int) =~= c@.skip(i as int),
        decreases i,
    {
        let j: usize = i - 1;
        if a[j] != c[j] {
            proof {
                let p = power(LIMB_BASE as nat, j as nat);
                let high = value(a@.skip(i as int));
                lemma_value_split(a@, i as int);
                lemma_value_split(c@, i as int);
                assert(a@.take(i as int).drop_last() =~= a@.take(j as int));
                assert(c@.take(i as int).drop_last() =~= c@.take(j as int));
                assert(a@.take(i as int).last() == a@[j as int]);
                assert(c@.take(i as int).last() == c@[j as int]);
                lemma_value_bound(a@.take(j as int));
                lemma_value_bound(c@.take(j as int));
                let la = value(a@.take(j as int));
                let lc = value(c@.take(j as int));
                let x = a@[j as int] as nat;
                let y = c@[j as int] as nat;
                if x < y {
                    assert(la + x * p < lc + y * p) by (nonlinear_arith)
                        requires
                            la < p,
                            x + 1 <= y,
                    ;
                } else {
                    assert(lc + y * p < la + x * p) by (nonlinear_arith)
                        requires
                            lc < p,
                            y + 1 <= x,
                    ;
                }
            }
            return a[j] < c[j];
        }
        proof {
            assert(a@.skip(j as int) =~= seq![a@[j as int]] + a@.skip(i as int));
            assert(c@.skip(j as int) =~= seq![c@[j as int]] + c@.skip(i as int));
        }
        i = j;
    }
    proof {
        assert(a@.skip(0) =~= a@);
        assert(c@.skip(0) =~= c@);
    }
    true
}

} // verus!
