//! Arithmetic in the prime field of the fixed curve: addition, subtraction,
//! multiplication and Fermat inversion modulo the field prime.

use vstd::prelude::*;
use vstd::arithmetic::div_mod::{
    lemma_add_mod_noop, lemma_fundamental_div_mod, lemma_fundamental_div_mod_converse,
    lemma_mod_bound, lemma_mul_mod_noop_right, lemma_small_mod,
};
use crate::u256::{
    add_limbs, pw256, sub_limbs, u256_is_odd, u256_is_zero, u256_lt, u256_shr1, U256,
    lemma_as_nat_bound,
};

verus! {

/// The field prime of the fixed curve.
pub open spec fn p_val() -> nat {
    0xFFFFFFFF_FFFFFFFF_FFFFFFFF_FFFFFFFF_FFFFFFFF_FFFFFFFF_FFFFFFFE_FFFFFC2Fnat
}

/// `(a + b) mod p`.
pub open spec fn fadd(a: nat, b: nat) -> nat {
    (a + b) % p_val()
}

/// `(a - b) mod p`.
pub open spec fn fsub(a: nat, b: nat) -> nat {
    (((a as int) - (b as int)) % (p_val() as int)) as nat
}

/// `(a * b) mod p`.
pub open spec fn fmul(a: nat, b: nat) -> nat {
    (a * b) % p_val()
}

/// Binary exponentiation modulo the field prime, accumulator form: at each
/// step the low bit of the exponent decides whether the base is folded
/// into the accumulator, and the base is squared.
pub open spec fn pow_acc(acc: nat, b: nat, e: nat) -> nat
    decreases e,
{
    if e == 0 {
        acc
    } else if e % 2 == 1 {
        pow_acc(fmul(acc, b), fmul(b, b), e / 2)
    } else {
        pow_acc(acc, fmul(b, b), e / 2)
    }
}

/// The multiplicative inverse modulo the field prime, by Fermat's little
/// theorem: `a^(p-2) mod p`.
pub open spec fn finv(a: nat) -> nat {
    pow_acc(1, a % p_val(), (p_val() - 2) as nat)
}

/// The field prime as limbs.
pub fn p_u256() -> (r: U256)
    ensures
        r.as_nat() == p_val(),
{
    U256 {
        l0: 0xFFFFFFFE_FFFFFC2F,
        l1: 0xFFFFFFFF_FFFFFFFF,
        l2: 0xFFFFFFFF_FFFFFFFF,
        l3: 0xFFFFFFFF_FFFFFFFF,
    }
}

/// `2^256 - p` as limbs, the correction added when a sum wraps past 2^256.
fn p_complement_u256() -> (r: U256)
    ensures
        r.as_nat() == pw256() - p_val(),
{
    U256 { l0: 0x1_0000_03D1, l1: 0, l2: 0, l3: 0 }
}

/// Field addition.
pub fn add_mod(a: &U256, b: &U256) -> (r: U256)
    requires
        a.as_nat() < p_val(),
        b.as_nat() < p_val(),
    ensures
        r.as_nat() == fadd(a.as_nat(), b.as_nat()),
        r.as_nat() < p_val(),
{
    let ghost s = a.as_nat() + b.as_nat();
    let (lo, carry) = add_limbs(a, b);
    if carry {
        let (t, c2) = add_limbs(&lo, &p_complement_u256());
        proof {
            lemma_as_nat_bound(t);
            assert(t.as_nat() + (if c2 { pw256() } else { 0nat }) == s - p_val());
            assert(!c2);
            lemma_fundamental_div_mod_converse(s as int, p_val() as int, 1, t.as_nat() as int);
        }
        t
    } else {
        let big = u256_lt(&lo, &p_u256());
        if !big {
            let (t, borrow) = sub_limbs(&lo, &p_u256());
            proof {
                assert(!borrow);
                lemma_fundamental_div_mod_converse(s as int, p_val() as int, 1, t.as_nat() as int);
            }
            t
        } else {
            proof {
                lemma_small_mod(s as nat, p_val());
            }
            lo
        }
    }
}

/// Field subtraction.
pub fn sub_mod(a: &U256, b: &U256) -> (r: U256)
    requires
        a.as_nat() < p_val(),
        b.as_nat() < p_val(),
    ensures
        r.as_nat() == fsub(a.as_nat(), b.as_nat()),
        r.as_nat() < p_val(),
{
    let ghost d = (a.as_nat() as int) - (b.as_nat() as int);
    let (lo, borrow) = sub_limbs(a, b);
    if borrow {
        let (t, carry) = add_limbs(&lo, &p_u256());
        proof {
            assert(lo.as_nat() == d + pw256());
            assert(t.as_nat() + (if carry { pw256() } else { 0nat }) == d + pw256() + p_val());
            lemma_as_nat_bound(t);
            assert(carry);
            assert(t.as_nat() == d + p_val());
            lemma_fundamental_div_mod_converse(d, p_val() as int, -1, t.as_nat() as int);
        }
        t
    } else {
        proof {
            lemma_small_mod(lo.as_nat(), p_val());
            assert(d % (p_val() as int) == lo.as_nat());
        }
        lo
    }
}

/// Field multiplication, by binary decomposition of the second factor.
pub fn mul_mod(a: &U256, b: &U256) -> (r: U256)
    requires
        a.as_nat() < p_val(),
    ensures
        r.as_nat() == fmul(a.as_nat(), b.as_nat()),
        r.as_nat() < p_val(),
{
    let ghost a0 = a.as_nat();
    let ghost b0 = b.as_nat();
    let mut acc = U256::zero();
    let mut addend = *a;
    let mut m = *b;
    proof {
        assert((acc.as_nat() + m.as_nat() * addend.as_nat()) % p_val() == (a0 * b0) % p_val())
            by (nonlinear_arith)
            requires
                acc.as_nat() == 0 && m.as_nat() == b0 && addend.as_nat() == a0,
        ;
    }
    while !u256_is_zero(&m)
        invariant
            acc.as_nat() < p_val(),
            addend.as_nat() < p_val(),
            (acc.as_nat() + m.as_nat() * addend.as_nat()) % p_val() == (a0 * b0) % p_val(),
        decreases m.as_nat(),
    {
        let ghost acc_v = acc.as_nat();
        let ghost add_v = addend.as_nat();
        let ghost m_v = m.as_nat();
        let odd = u256_is_odd(&m);
        if odd {
            acc = add_mod(&acc, &addend);
        }
        addend = add_mod(&addend, &addend);
        m = u256_shr1(&m);
        proof {
            lemma_fundamental_div_mod(m_v as int, 2);
            let bit: nat = if odd { 1 } else { 0 };
            assert(m_v == 2 * m.as_nat() + bit);
            assert(acc.as_nat() == (acc_v + bit * add_v) % p_val()) by {
                if !odd {
                    lemma_small_mod(acc_v, p_val());
                }
            };
            assert(addend.as_nat() == (2 * add_v) % p_val());
            lemma_mul_step(acc_v, add_v, m.as_nat(), bit, p_val());
            assert((2 * m.as_nat() + bit) * add_v == m_v * add_v);
        }
    }
    proof {
        assert(acc.as_nat() % p_val() == acc.as_nat()) by {
            lemma_small_mod(acc.as_nat(), p_val());
        };
        assert(acc.as_nat() + m.as_nat() * addend.as_nat() == acc.as_nat()) by (nonlinear_arith)
            requires
                m.as_nat() == 0,
        ;
    }
    acc
}

/// The step of the binary multiplication loop, read modulo `p`: folding the
/// low bit into the accumulator and doubling the addend keeps the invariant.
proof fn lemma_mul_step(acc: nat, x: nat, m: nat, bit: nat, p: nat)
    requires
        p > 0,
    ensures
        (((acc + bit * x) % p) + m * ((2 * x) % p)) % p == (acc + (2 * m + bit) * x) % p,
{
    let u = (acc + bit * x) % p;
    let w = (2 * x) % p;
    lemma_mod_bound((acc + bit * x) as int, p as int);
    lemma_small_mod(u, p);
    lemma_mul_mod_noop_right(m as int, (2 * x) as int, p as int);
    lemma_add_mod_noop((acc + bit * x) as int, (m * (2 * x)) as int, p as int);
    lemma_add_mod_noop(u as int, (m * w) as int, p as int);
    lemma_mod_bound((m * w) as int, p as int);
    lemma_mod_bound((m * (2 * x)) as int, p as int);
    assert(acc + bit * x + m * (2 * x) == acc + (2 * m + bit) * x) by (nonlinear_arith);
}

/// `p - 2` as limbs, the Fermat exponent for inversion.
fn p_minus_2_u256() -> (r: U256)
    ensures
        r.as_nat() == p_val() - 2,
{
    U256 {
        l0: 0xFFFFFFFE_FFFFFC2D,
        l1: 0xFFFFFFFF_FFFFFFFF,
        l2: 0xFFFFFFFF_FFFFFFFF,
        l3: 0xFFFFFFFF_FFFFFFFF,
    }
}

/// Field inversion by Fermat exponentiation.
pub fn inv_mod(a: &U256) -> (r: U256)
    requires
        a.as_nat() < p_val(),
    ensures
        r.as_nat() == finv(a.as_nat()),
        r.as_nat() < p_val(),
{
    let mut res = U256::one();
    let mut base = *a;
    let mut e = p_minus_2_u256();
    proof {
        lemma_small_mod(a.as_nat(), p_val());
    }
    while !u256_is_zero(&e)
        invariant
            res.as_nat() < p_val(),
            base.as_nat() < p_val(),
            pow_acc(res.as_nat(), base.as_nat(), e.as_nat()) == finv(a.as_nat()),
        decreases e.as_nat(),
    {
        let ghost e_v = e.as_nat();
        let odd = u256_is_odd(&e);
        if odd {
            res = mul_mod(&res, &base);
        }
        let sq = mul_mod(&base, &base);
        base = sq;
        e = u256_shr1(&e);
        proof {
            lemma_fundamental_div_mod(e_v as int, 2);
        }
    }
    res
}

} // verus!
