//! Fixed-width 256-bit unsigned integers as four 64-bit limbs, with the
//! exact arithmetic the curve and codec layers are proved against.

use vstd::prelude::*;
use vstd::arithmetic::div_mod::{
    lemma_fundamental_div_mod, lemma_fundamental_div_mod_converse, lemma_mod_multiples_vanish,
    lemma_small_mod,
};

verus! {

/// 2^64, the limb radix.
pub open spec fn pw64() -> nat {
    0x1_0000_0000_0000_0000nat
}

/// 2^128.
pub open spec fn pw128() -> nat {
    0x1_0000_0000_0000_0000_0000_0000_0000_0000nat
}

/// 2^192.
pub open spec fn pw192() -> nat {
    0x1_0000_0000_0000_0000_0000_0000_0000_0000_0000_0000_0000_0000nat
}

/// 2^256.
pub open spec fn pw256() -> nat {
    0x1_0000_0000_0000_0000_0000_0000_0000_0000_0000_0000_0000_0000_0000_0000_0000_0000nat
}

/// A 256-bit unsigned integer; `l0` is the least significant limb.
#[derive(Clone, Copy, PartialEq, Eq, Structural, Debug)]
pub struct U256 {
    pub l0: u64,
    pub l1: u64,
    pub l2: u64,
    pub l3: u64,
}

impl U256 {
    /// The integer this quadruple of limbs stands for.
    pub open spec fn as_nat(&self) -> nat {
        (self.l0 as nat) + (self.l1 as nat) * pw64() + (self.l2 as nat) * pw128() + (self.l3 as nat)
            * pw192()
    }

    pub fn zero() -> (r: U256)
        ensures
            r.as_nat() == 0,
    {
        U256 { l0: 0, l1: 0, l2: 0, l3: 0 }
    }

    pub fn one() -> (r: U256)
        ensures
            r.as_nat() == 1,
    {
        U256 { l0: 1, l1: 0, l2: 0, l3: 0 }
    }
}

pub proof fn lemma_as_nat_bound(a: U256)
    ensures
        a.as_nat() < pw256(),
{
    assert(a.as_nat() <= (pw64() - 1) + (pw64() - 1) * pw64() + (pw64() - 1) * pw128() + (pw64()
        - 1) * pw192()) by (nonlinear_arith)
        requires
            a.l0 < pw64() && a.l1 < pw64() && a.l2 < pw64() && a.l3 < pw64() && a.as_nat() == a.l0
                + a.l1 * pw64() + a.l2 * pw128() + a.l3 * pw192(),
    ;
}

/// Addition of the limb quadruples; the boolean is the carry out of the top.
pub fn add_limbs(a: &U256, b: &U256) -> (r: (U256, bool))
    ensures
        r.0.as_nat() + (if r.1 {
            pw256()
        } else {
            0nat
        }) == a.as_nat() + b.as_nat(),
{
    let s0: u128 = a.l0 as u128 + b.l0 as u128;
    let r0: u64 = (s0 % 0x1_0000_0000_0000_0000u128) as u64;
    let c0: u64 = (s0 / 0x1_0000_0000_0000_0000u128) as u64;
    let s1: u128 = a.l1 as u128 + b.l1 as u128 + c0 as u128;
    let r1: u64 = (s1 % 0x1_0000_0000_0000_0000u128) as u64;
    let c1: u64 = (s1 / 0x1_0000_0000_0000_0000u128) as u64;
    let s2: u128 = a.l2 as u128 + b.l2 as u128 + c1 as u128;
    let r2: u64 = (s2 % 0x1_0000_0000_0000_0000u128) as u64;
    let c2: u64 = (s2 / 0x1_0000_0000_0000_0000u128) as u64;
    let s3: u128 = a.l3 as u128 + b.l3 as u128 + c2 as u128;
    let r3: u64 = (s3 % 0x1_0000_0000_0000_0000u128) as u64;
    let c3: u64 = (s3 / 0x1_0000_0000_0000_0000u128) as u64;
    proof {
        lemma_fundamental_div_mod(s0 as int, pw64() as int);
        lemma_fundamental_div_mod(s1 as int, pw64() as int);
        lemma_fundamental_div_mod(s2 as int, pw64() as int);
        lemma_fundamental_div_mod(s3 as int, pw64() as int);
    }
    (U256 { l0: r0, l1: r1, l2: r2, l3: r3 }, c3 == 1)
}

/// Subtraction of the limb quadruples; the boolean is the borrow out of the
/// top, set exactly when `a < b`.
pub fn sub_limbs(a: &U256, b: &U256) -> (r: (U256, bool))
    ensures
        r.0.as_nat() + b.as_nat() == a.as_nat() + (if r.1 {
            pw256()
        } else {
            0nat
        }),
        r.1 <==> a.as_nat() < b.as_nat(),
{
    let d0: u128 = 0x1_0000_0000_0000_0000u128 + a.l0 as u128 - b.l0 as u128;
    let r0: u64 = (d0 % 0x1_0000_0000_0000_0000u128) as u64;
    let w0: u64 = 1 - (d0 / 0x1_0000_0000_0000_0000u128) as u64;
    let d1: u128 = 0x1_0000_0000_0000_0000u128 + a.l1 as u128 - b.l1 as u128 - w0 as u128;
    let r1: u64 = (d1 % 0x1_0000_0000_0000_0000u128) as u64;
    let w1: u64 = 1 - (d1 / 0x1_0000_0000_0000_0000u128) as u64;
    let d2: u128 = 0x1_0000_0000_0000_0000u128 + a.l2 as u128 - b.l2 as u128 - w1 as u128;
    let r2: u64 = (d2 % 0x1_0000_0000_0000_0000u128) as u64;
    let w2: u64 = 1 - (d2 / 0x1_0000_0000_0000_0000u128) as u64;
    let d3: u128 = 0x1_0000_0000_0000_0000u128 + a.l3 as u128 - b.l3 as u128 - w2 as u128;
    let r3: u64 = (d3 % 0x1_0000_0000_0000_0000u128) as u64;
    let w3: u64 = 1 - (d3 / 0x1_0000_0000_0000_0000u128) as u64;
    let r = U256 { l0: r0, l1: r1, l2: r2, l3: r3 };
    proof {
        lemma_fundamental_div_mod(d0 as int, pw64() as int);
        lemma_fundamental_div_mod(d1 as int, pw64() as int);
        lemma_fundamental_div_mod(d2 as int, pw64() as int);
        lemma_fundamental_div_mod(d3 as int, pw64() as int);
        lemma_as_nat_bound(r);
        lemma_as_nat_bound(*a);
        lemma_as_nat_bound(*b);
    }
    (r, w3 == 1)
}

/// `a < b` on the represented integers.
pub fn u256_lt(a: &U256, b: &U256) -> (r: bool)
    ensures
        r <==> a.as_nat() < b.as_nat(),
{
    let (_, borrow) = sub_limbs(a, b);
    borrow
}

proof fn lemma_limbs_determined(a: U256, b: U256)
    requires
        a.as_nat() == b.as_nat(),
    ensures
        a == b,
{
    lemma_limb_extract(a);
    lemma_limb_extract(b);
}

proof fn lemma_limb_extract(a: U256)
    ensures
        a.as_nat() % pw64() == a.l0,
        (a.as_nat() / pw64()) % pw64() == a.l1,
        ((a.as_nat() / pw64()) / pw64()) % pw64() == a.l2,
        (((a.as_nat() / pw64()) / pw64()) / pw64()) == a.l3,
{
    let h1: int = a.l1 + a.l2 * pw64() + a.l3 * pw128();
    let h2: int = a.l2 + a.l3 * pw64();
    assert(a.as_nat() == h1 * pw64() + a.l0) by (nonlinear_arith)
        requires
            a.as_nat() == a.l0 + a.l1 * pw64() + a.l2 * pw128() + a.l3 * pw192() && h1 == a.l1
                + a.l2 * pw64() + a.l3 * pw128(),
    ;
    lemma_fundamental_div_mod_converse(a.as_nat() as int, pw64() as int, h1, a.l0 as int);
    assert(h1 == h2 * pw64() + a.l1) by (nonlinear_arith)
        requires
            h1 == a.l1 + a.l2 * pw64() + a.l3 * pw128() && h2 == a.l2 + a.l3 * pw64(),
    ;
    lemma_fundamental_div_mod_converse(h1, pw64() as int, h2, a.l1 as int);
    lemma_fundamental_div_mod_converse(h2, pw64() as int, a.l3 as int, a.l2 as int);
}

/// Equality on the represented integers.
pub fn u256_eq(a: &U256, b: &U256) -> (r: bool)
    ensures
        r <==> a.as_nat() == b.as_nat(),
{
    let r = a.l0 == b.l0 && a.l1 == b.l1 && a.l2 == b.l2 && a.l3 == b.l3;
    proof {
        if a.as_nat() == b.as_nat() {
            lemma_limbs_determined(*a, *b);
        }
    }
    r
}

/// Whether the represented integer is zero.
pub fn u256_is_zero(a: &U256) -> (r: bool)
    ensures
        r <==> a.as_nat() == 0,
{
    let r = a.l0 == 0 && a.l1 == 0 && a.l2 == 0 && a.l3 == 0;
    proof {
        if a.as_nat() == 0 {
            lemma_limbs_determined(*a, U256 { l0: 0, l1: 0, l2: 0, l3: 0 });
        }
    }
    r
}

/// Whether the represented integer is odd.
pub fn u256_is_odd(a: &U256) -> (r: bool)
    ensures
        r <==> a.as_nat() % 2 == 1,
{
    proof {
        let k: int = a.l1 * 0x8000_0000_0000_0000 + a.l2
            * 0x8000_0000_0000_0000_0000_0000_0000_0000 + a.l3
            * 0x8000_0000_0000_0000_0000_0000_0000_0000_0000_0000_0000_0000;
        assert(a.as_nat() == 2 * k + a.l0) by (nonlinear_arith)
            requires
                a.as_nat() == a.l0 + a.l1 * pw64() + a.l2 * pw128() + a.l3 * pw192() && k == a.l1
                    * 0x8000_0000_0000_0000 + a.l2 * 0x8000_0000_0000_0000_0000_0000_0000_0000
                    + a.l3 * 0x8000_0000_0000_0000_0000_0000_0000_0000_0000_0000_0000_0000,
        ;
        lemma_mod_multiples_vanish(k, a.l0 as int, 2);
        lemma_small_mod((a.l0 % 2) as nat, 2);
    }
    a.l0 % 2 == 1
}

/// Halving: shifts the integer right by one bit.
pub fn u256_shr1(a: &U256) -> (r: U256)
    ensures
        r.as_nat() == a.as_nat() / 2,
{
    let r = U256 {
        l0: a.l0 / 2 + (a.l1 % 2) * 0x8000_0000_0000_0000,
        l1: a.l1 / 2 + (a.l2 % 2) * 0x8000_0000_0000_0000,
        l2: a.l2 / 2 + (a.l3 % 2) * 0x8000_0000_0000_0000,
        l3: a.l3 / 2,
    };
    proof {
        assert(2 * r.as_nat() + a.l0 % 2 == a.as_nat()) by (nonlinear_arith)
            requires
                r.as_nat() == (a.l0 / 2 + (a.l1 % 2) * 0x8000_0000_0000_0000) + (a.l1 / 2 + (a.l2
                    % 2) * 0x8000_0000_0000_0000) * pw64() + (a.l2 / 2 + (a.l3 % 2)
                    * 0x8000_0000_0000_0000) * pw128() + (a.l3 / 2) * pw192() && a.as_nat() == a.l0
                    + a.l1 * pw64() + a.l2 * pw128() + a.l3 * pw192(),
        ;
        lemma_fundamental_div_mod_converse(
            a.as_nat() as int,
            2,
            r.as_nat() as int,
            (a.l0 % 2) as int,
        );
    }
    r
}

/// Value cap for a big-endian byte string: `byte_cap(k) == 256^k`.
pub open spec fn byte_cap(k: nat) -> nat
    decreases k,
{
    if k == 0 {
        1
    } else {
        256 * byte_cap((k - 1) as nat)
    }
}

pub proof fn lemma_be_val_bound(s: Seq<u8>)
    ensures
        crate::be_val(s) < byte_cap(s.len()),
    decreases s.len(),
{
    if s.len() == 0 {
    } else {
        lemma_be_val_bound(s.drop_last());
        assert(crate::be_val(s.drop_last()) * 256 + (s.last() as nat) < 256 * byte_cap(
            (s.len() - 1) as nat,
        )) by (nonlinear_arith)
            requires
                crate::be_val(s.drop_last()) < byte_cap((s.len() - 1) as nat) && s.last() < 256,
        ;
    }
}

pub proof fn lemma_byte_cap_values()
    ensures
        byte_cap(31) == 0x100_0000_0000_0000_0000_0000_0000_0000_0000_0000_0000_0000_0000_0000_0000_0000nat,
        byte_cap(32) == pw256(),
{
    assert(byte_cap(0) == 1);
    assert(byte_cap(1) == 256);
    assert(byte_cap(2) == 0x1_0000);
    assert(byte_cap(3) == 0x100_0000);
    assert(byte_cap(4) == 0x1_0000_0000);
    assert(byte_cap(5) == 0x100_0000_0000);
    assert(byte_cap(6) == 0x1_0000_0000_0000);
    assert(byte_cap(7) == 0x100_0000_0000_0000);
    assert(byte_cap(8) == 0x1_0000_0000_0000_0000);
    assert(byte_cap(9) == 0x100_0000_0000_0000_0000);
    assert(byte_cap(10) == 0x1_0000_0000_0000_0000_0000);
    assert(byte_cap(11) == 0x100_0000_0000_0000_0000_0000);
    assert(byte_cap(12) == 0x1_0000_0000_0000_0000_0000_0000);
    assert(byte_cap(13) == 0x100_0000_0000_0000_0000_0000_0000);
    assert(byte_cap(14) == 0x1_0000_0000_0000_0000_0000_0000_0000);
    assert(byte_cap(15) == 0x100_0000_0000_0000_0000_0000_0000_0000);
    assert(byte_cap(16) == 0x1_0000_0000_0000_0000_0000_0000_0000_0000);
    assert(byte_cap(17) == 0x100_0000_0000_0000_0000_0000_0000_0000_0000);
    assert(byte_cap(18) == 0x1_0000_0000_0000_0000_0000_0000_0000_0000_0000);
    assert(byte_cap(19) == 0x100_0000_0000_0000_0000_0000_0000_0000_0000_0000);
    assert(byte_cap(20) == 0x1_0000_0000_0000_0000_0000_0000_0000_0000_0000_0000);
    assert(byte_cap(21) == 0x100_0000_0000_0000_0000_0000_0000_0000_0000_0000_0000);
    assert(byte_cap(22) == 0x1_0000_0000_0000_0000_0000_0000_0000_0000_0000_0000_0000);
    assert(byte_cap(23) == 0x100_0000_0000_0000_0000_0000_0000_0000_0000_0000_0000_0000);
    assert(byte_cap(24) == 0x1_0000_0000_0000_0000_0000_0000_0000_0000_0000_0000_0000_0000);
    assert(byte_cap(25) == 0x100_0000_0000_0000_0000_0000_0000_0000_0000_0000_0000_0000_0000);
    assert(byte_cap(26) == 0x1_0000_0000_0000_0000_0000_0000_0000_0000_0000_0000_0000_0000_0000);
    assert(byte_cap(27) == 0x100_0000_0000_0000_0000_0000_0000_0000_0000_0000_0000_0000_0000_0000);
    assert(byte_cap(28) == 0x1_0000_0000_0000_0000_0000_0000_0000_0000_0000_0000_0000_0000_0000_0000);
    assert(byte_cap(29) == 0x100_0000_0000_0000_0000_0000_0000_0000_0000_0000_0000_0000_0000_0000_0000);
    assert(byte_cap(30) == 0x1_0000_0000_0000_0000_0000_0000_0000_0000_0000_0000_0000_0000_0000_0000_0000);
    assert(byte_cap(31) == 0x100_0000_0000_0000_0000_0000_0000_0000_0000_0000_0000_0000_0000_0000_0000_0000);
    assert(byte_cap(32) == pw256());
}

pub proof fn lemma_byte_cap_monotone(i: nat, j: nat)
    requires
        i <= j,
    ensures
        byte_cap(i) <= byte_cap(j),
    decreases j,
{
    if i < j {
        lemma_byte_cap_monotone(i, (j - 1) as nat);
        assert(byte_cap(j) == 256 * byte_cap((j - 1) as nat));
        assert(byte_cap((j - 1) as nat) <= 256 * byte_cap((j - 1) as nat)) by (nonlinear_arith)
            requires
                byte_cap((j - 1) as nat) >= 0,
        ;
    }
}

/// Shifts the integer up by one byte and adds `b`; the step of big-endian
/// byte parsing.
fn u256_mul256_add(a: &U256, b: u8) -> (r: U256)
    requires
        a.as_nat() < 0x100_0000_0000_0000_0000_0000_0000_0000_0000_0000_0000_0000_0000_0000_0000_0000nat,
    ensures
        r.as_nat() == a.as_nat() * 256 + b,
{
    proof {
        assert(a.l3 < 0x100_0000_0000_0000) by (nonlinear_arith)
            requires
                a.as_nat() == a.l0 + a.l1 * pw64() + a.l2 * pw128() + a.l3 * pw192() && a.as_nat()
                    < 0x100_0000_0000_0000_0000_0000_0000_0000_0000_0000_0000_0000_0000_0000_0000_0000nat,
        ;
    }
    let r = U256 {
        l0: (a.l0 % 0x100_0000_0000_0000) * 256 + b as u64,
        l1: (a.l1 % 0x100_0000_0000_0000) * 256 + a.l0 / 0x100_0000_0000_0000,
        l2: (a.l2 % 0x100_0000_0000_0000) * 256 + a.l1 / 0x100_0000_0000_0000,
        l3: a.l3 * 256 + a.l2 / 0x100_0000_0000_0000,
    };
    proof {
        assert(r.as_nat() == a.as_nat() * 256 + b) by (nonlinear_arith)
            requires
                a.as_nat() == a.l0 + a.l1 * pw64() + a.l2 * pw128() + a.l3 * pw192() && r.as_nat()
                    == ((a.l0 % 0x100_0000_0000_0000) * 256 + b) + ((a.l1 % 0x100_0000_0000_0000)
                    * 256 + a.l0 / 0x100_0000_0000_0000) * pw64() + ((a.l2 % 0x100_0000_0000_0000)
                    * 256 + a.l1 / 0x100_0000_0000_0000) * pw128() + (a.l3 * 256 + a.l2
                    / 0x100_0000_0000_0000) * pw192() && a.l0 == 0x100_0000_0000_0000 * (a.l0
                    / 0x100_0000_0000_0000) + a.l0 % 0x100_0000_0000_0000 && a.l1
                    == 0x100_0000_0000_0000 * (a.l1 / 0x100_0000_0000_0000) + a.l1
                    % 0x100_0000_0000_0000 && a.l2 == 0x100_0000_0000_0000 * (a.l2
                    / 0x100_0000_0000_0000) + a.l2 % 0x100_0000_0000_0000,
        ;
    }
    r
}

/// Quotient by 256: shifts the integer down by one byte.
fn u256_div256(a: &U256) -> (r: U256)
    ensures
        r.as_nat() == a.as_nat() / 256,
{
    let r = U256 {
        l0: a.l0 / 256 + (a.l1 % 256) * 0x100_0000_0000_0000,
        l1: a.l1 / 256 + (a.l2 % 256) * 0x100_0000_0000_0000,
        l2: a.l2 / 256 + (a.l3 % 256) * 0x100_0000_0000_0000,
        l3: a.l3 / 256,
    };
    proof {
        assert(256 * r.as_nat() + a.l0 % 256 == a.as_nat()) by (nonlinear_arith)
            requires
                r.as_nat() == (a.l0 / 256 + (a.l1 % 256) * 0x100_0000_0000_0000) + (a.l1 / 256 + (
                a.l2 % 256) * 0x100_0000_0000_0000) * pw64() + (a.l2 / 256 + (a.l3 % 256)
                    * 0x100_0000_0000_0000) * pw128() + (a.l3 / 256) * pw192() && a.as_nat() == a.l0
                    + a.l1 * pw64() + a.l2 * pw128() + a.l3 * pw192(),
        ;
        lemma_fundamental_div_mod_converse(
            a.as_nat() as int,
            256,
            r.as_nat() as int,
            (a.l0 % 256) as int,
        );
    }
    r
}

/// Parses 32 big-endian bytes.
pub fn u256_from_be_bytes(b: &[u8; 32]) -> (r: U256)
    ensures
        r.as_nat() == crate::be_val(b@),
{
    let mut cur = U256::zero();
    let mut i: usize = 0;
    while i < 32
        invariant
            i <= 32,
            cur.as_nat() == crate::be_val(b@.take(i as int)),
        decreases 32 - i,
    {
        proof {
            lemma_be_val_bound(b@.take(i as int));
            lemma_byte_cap_values();
            lemma_byte_cap_monotone(i as nat, 31);
            assert(b@.take(i as int + 1).drop_last() =~= b@.take(i as int));
            assert(b@.take(i as int + 1).last() == b@[i as int]);
        }
        cur = u256_mul256_add(&cur, b[i]);
        i = i + 1;
    }
    proof {
        assert(b@.take(32) =~= b@);
    }
    cur
}

/// Fixed-width big-endian bytes of `v`: exactly `len` bytes, most
/// significant first.
pub open spec fn be_bytes_fixed(v: nat, len: nat) -> Seq<u8>
    decreases len,
{
    if len == 0 {
        Seq::empty()
    } else {
        be_bytes_fixed(v / 256, (len - 1) as nat).push((v % 256) as u8)
    }
}

/// Serialises the integer as 32 big-endian bytes.
pub fn u256_to_be_bytes(a: &U256) -> (r: Vec<u8>)
    ensures
        r@ == be_bytes_fixed(a.as_nat(), 32),
        r@.len() == 32,
{
    let ghost a0 = a.as_nat();
    let mut out: Vec<u8> = Vec::new();
    let mut cur = *a;
    let mut i: usize = 0;
    while i < 32
        invariant
            i <= 32,
            out@.len() == i,
            be_bytes_fixed(a0, 32) =~= be_bytes_fixed(cur.as_nat(), (32 - i) as nat) + out@,
        decreases 32 - i,
    {
        let ghost cur_v = cur.as_nat();
        let ghost out_v = out@;
        let b: u8 = (cur.l0 % 256) as u8;
        proof {
            let k: int = cur.l1 * 0x100_0000_0000_0000 + cur.l2
                * 0x100_0000_0000_0000_0000_0000_0000_0000 + cur.l3
                * 0x100_0000_0000_0000_0000_0000_0000_0000_0000_0000_0000_0000;
            assert(cur.as_nat() == 256 * k + cur.l0) by (nonlinear_arith)
                requires
                    cur.as_nat() == cur.l0 + cur.l1 * pw64() + cur.l2 * pw128() + cur.l3 * pw192()
                        && k == cur.l1 * 0x100_0000_0000_0000 + cur.l2
                        * 0x100_0000_0000_0000_0000_0000_0000_0000 + cur.l3
                        * 0x100_0000_0000_0000_0000_0000_0000_0000_0000_0000_0000_0000,
            ;
            lemma_mod_multiples_vanish(k, cur.l0 as int, 256);
            lemma_small_mod((cur.l0 % 256) as nat, 256);
            assert(b == cur_v % 256);
        }
        cur = u256_div256(&cur);
        out.insert(0, b);
        i = i + 1;
        proof {
            assert(be_bytes_fixed(cur_v, (33 - i) as nat) == be_bytes_fixed(
                cur.as_nat(),
                (32 - i) as nat,
            ).push(b));
            assert(be_bytes_fixed(cur.as_nat(), (32 - i) as nat).push(b) + out_v
                =~= be_bytes_fixed(cur.as_nat(), (32 - i) as nat) + out@);
        }
    }
    proof {
        assert(be_bytes_fixed(a0, 32) =~= out@);
    }
    out
}

/// The fixed-width big-endian bytes of a value below `256^len` read back as
/// that value.
pub proof fn lemma_be_bytes_fixed_val(v: nat, len: nat)
    requires
        v < byte_cap(len),
    ensures
        crate::be_val(be_bytes_fixed(v, len)) == v,
    decreases len,
{
    if len == 0 {
    } else {
        lemma_fundamental_div_mod(v as int, 256);
        assert(v / 256 < byte_cap((len - 1) as nat)) by (nonlinear_arith)
            requires
                v < 256 * byte_cap((len - 1) as nat) && v == 256 * (v / 256) + v % 256,
        ;
        lemma_be_bytes_fixed_val(v / 256, (len - 1) as nat);
        assert(be_bytes_fixed(v, len).drop_last() =~= be_bytes_fixed(v / 256, (len - 1) as nat));
        assert(be_bytes_fixed(v, len).last() == (v % 256) as u8);
    }
}

/// Fixed-width bytes have exactly the requested length.
pub proof fn lemma_be_bytes_fixed_len(v: nat, len: nat)
    ensures
        be_bytes_fixed(v, len).len() == len,
    decreases len,
{
    if len > 0 {
        lemma_be_bytes_fixed_len(v / 256, (len - 1) as nat);
    }
}

} // verus!
