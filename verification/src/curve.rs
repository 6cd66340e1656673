//! Points of the fixed short-Weierstrass curve `y^2 = x^3 + 7` over the
//! prime field, point doubling and addition, double-and-add scalar
//! multiplication by the generator, and 33-byte point compression.

use vstd::prelude::*;
use vstd::arithmetic::div_mod::{lemma_fundamental_div_mod, lemma_fundamental_div_mod_converse};
use crate::field::{
    add_mod, fadd, finv, fmul, fsub, inv_mod, mul_mod, p_val, sub_mod,
};
use crate::u256::{
    be_bytes_fixed, lemma_be_bytes_fixed_val, u256_eq, u256_is_odd, u256_is_zero, u256_shr1, u256_to_be_bytes, U256,
};

verus! {

/// The group order of the generator.
pub open spec fn n_val() -> nat {
    0xFFFFFFFF_FFFFFFFF_FFFFFFFF_FFFFFFFE_BAAEDCE6_AF48A03B_BFD25E8C_D0364141nat
}

/// The group order as limbs.
pub fn n_u256() -> (r: U256)
    ensures
        r.as_nat() == n_val(),
{
    U256 {
        l0: 0xBFD25E8C_D0364141,
        l1: 0xBAAEDCE6_AF48A03B,
        l2: 0xFFFFFFFF_FFFFFFFE,
        l3: 0xFFFFFFFF_FFFFFFFF,
    }
}

/// x-coordinate of the generator.
pub open spec fn gx_val() -> nat {
    0x79BE667E_F9DCBBAC_55A06295_CE870B07_029BFCDB_2DCE28D9_59F2815B_16F81798nat
}

/// y-coordinate of the generator.
pub open spec fn gy_val() -> nat {
    0x483ADA77_26A3C465_5DA4FBFC_0E1108A8_FD17B448_A6855419_9C47D08F_FB10D4B8nat
}

/// The mathematical model of a point: the distinguished identity, or an
/// affine pair of residues modulo the field prime.
pub enum PointView {
    Infinity,
    Affine { x: nat, y: nat },
}

/// Whether an affine point satisfies the curve equation.
pub open spec fn on_curve(pt: PointView) -> bool {
    match pt {
        PointView::Infinity => false,
        PointView::Affine { x, y } => x < p_val() && y < p_val() && fmul(y, y) == fadd(
            fmul(fmul(x, x), x),
            7,
        ),
    }
}

/// Point doubling by the tangent rule; a point with `y == 0` doubles to the
/// identity.
pub open spec fn spec_point_double(pt: PointView) -> PointView {
    match pt {
        PointView::Infinity => PointView::Infinity,
        PointView::Affine { x, y } => {
            if y == 0 {
                PointView::Infinity
            } else {
                let lam = fmul(fmul(3, fmul(x, x)), finv(fadd(y, y)));
                let x3 = fsub(fsub(fmul(lam, lam), x), x);
                let y3 = fsub(fmul(lam, fsub(x, x3)), y);
                PointView::Affine { x: x3, y: y3 }
            }
        },
    }
}

/// Point addition by the chord rule, with the identity and the
/// inverse-point special cases.
pub open spec fn spec_point_add(p1: PointView, p2: PointView) -> PointView {
    match (p1, p2) {
        (PointView::Infinity, q) => q,
        (q, PointView::Infinity) => q,
        (PointView::Affine { x: x1, y: y1 }, PointView::Affine { x: x2, y: y2 }) => {
            if x1 == x2 {
                if fadd(y1, y2) == 0 {
                    PointView::Infinity
                } else {
                    spec_point_double(p1)
                }
            } else {
                let lam = fmul(fsub(y2, y1), finv(fsub(x2, x1)));
                let x3 = fsub(fsub(fmul(lam, lam), x1), x2);
                let y3 = fsub(fmul(lam, fsub(x1, x3)), y1);
                PointView::Affine { x: x3, y: y3 }
            }
        },
    }
}

/// Double-and-add scalar multiplication, accumulator form, low bit first.
pub open spec fn sm_acc(acc: PointView, base: PointView, k: nat) -> PointView
    decreases k,
{
    if k == 0 {
        acc
    } else if k % 2 == 1 {
        sm_acc(spec_point_add(acc, base), spec_point_double(base), k / 2)
    } else {
        sm_acc(acc, spec_point_double(base), k / 2)
    }
}

/// The generator point.
pub open spec fn generator_view() -> PointView {
    PointView::Affine { x: gx_val(), y: gy_val() }
}

/// `k` times the generator.
pub open spec fn spec_scalar_mul(k: nat) -> PointView {
    sm_acc(PointView::Infinity, generator_view(), k)
}

/// An executable point: the identity flag, or affine coordinates as limbs.
/// The coordinates of the identity are immaterial and kept at zero.
#[derive(Clone, Copy)]
pub struct Point {
    pub infinity: bool,
    pub x: U256,
    pub y: U256,
}

impl Point {
    /// Coordinates reduced modulo the field prime.
    pub open spec fn wf(&self) -> bool {
        !self.infinity ==> (self.x.as_nat() < p_val() && self.y.as_nat() < p_val())
    }

    /// The mathematical point this value stands for.
    pub open spec fn pview(&self) -> PointView {
        if self.infinity {
            PointView::Infinity
        } else {
            PointView::Affine { x: self.x.as_nat(), y: self.y.as_nat() }
        }
    }

    /// The identity point.
    pub fn identity() -> (r: Point)
        ensures
            r.wf(),
            r.pview() == PointView::Infinity,
    {
        Point { infinity: true, x: U256::zero(), y: U256::zero() }
    }
}

/// The generator point, as limbs.
pub fn generator() -> (r: Point)
    ensures
        r.wf(),
        r.pview() == generator_view(),
{
    Point {
        infinity: false,
        x: U256 {
            l0: 0x59F2815B_16F81798,
            l1: 0x029BFCDB_2DCE28D9,
            l2: 0x55A06295_CE870B07,
            l3: 0x79BE667E_F9DCBBAC,
        },
        y: U256 {
            l0: 0x9C47D08F_FB10D4B8,
            l1: 0xFD17B448_A6855419,
            l2: 0x5DA4FBFC_0E1108A8,
            l3: 0x483ADA77_26A3C465,
        },
    }
}

/// Doubles a point.
pub fn point_double(pt: &Point) -> (r: Point)
    requires
        pt.wf(),
    ensures
        r.wf(),
        r.pview() == spec_point_double(pt.pview()),
{
    if pt.infinity {
        return Point::identity();
    }
    if u256_is_zero(&pt.y) {
        return Point::identity();
    }
    let three = U256 { l0: 3, l1: 0, l2: 0, l3: 0 };
    let xx = mul_mod(&pt.x, &pt.x);
    let num = mul_mod(&three, &xx);
    let den = add_mod(&pt.y, &pt.y);
    let lam = mul_mod(&num, &inv_mod(&den));
    let ll = mul_mod(&lam, &lam);
    let x3 = sub_mod(&sub_mod(&ll, &pt.x), &pt.x);
    let y3 = sub_mod(&mul_mod(&lam, &sub_mod(&pt.x, &x3)), &pt.y);
    Point { infinity: false, x: x3, y: y3 }
}

/// Adds two points.
pub fn point_add(p1: &Point, p2: &Point) -> (r: Point)
    requires
        p1.wf(),
        p2.wf(),
    ensures
        r.wf(),
        r.pview() == spec_point_add(p1.pview(), p2.pview()),
{
    if p1.infinity {
        return *p2;
    }
    if p2.infinity {
        return *p1;
    }
    if u256_eq(&p1.x, &p2.x) {
        let s = add_mod(&p1.y, &p2.y);
        if u256_is_zero(&s) {
            return Point::identity();
        }
        return point_double(p1);
    }
    let dy = sub_mod(&p2.y, &p1.y);
    let dx = sub_mod(&p2.x, &p1.x);
    let lam = mul_mod(&dy, &inv_mod(&dx));
    let ll = mul_mod(&lam, &lam);
    let x3 = sub_mod(&sub_mod(&ll, &p1.x), &p2.x);
    let y3 = sub_mod(&mul_mod(&lam, &sub_mod(&p1.x, &x3)), &p1.y);
    Point { infinity: false, x: x3, y: y3 }
}

/// Multiplies the generator by `k`, low bit first.
pub fn scalar_mul(k: &U256) -> (r: Point)
    ensures
        r.wf(),
        r.pview() == spec_scalar_mul(k.as_nat()),
{
    let mut acc = Point::identity();
    let mut base = generator();
    let mut m = *k;
    while !u256_is_zero(&m)
        invariant
            acc.wf(),
            base.wf(),
            sm_acc(acc.pview(), base.pview(), m.as_nat()) == spec_scalar_mul(k.as_nat()),
        decreases m.as_nat(),
    {
        let ghost m_v = m.as_nat();
        let odd = u256_is_odd(&m);
        if odd {
            acc = point_add(&acc, &base);
        }
        base = point_double(&base);
        m = u256_shr1(&m);
        proof {
            lemma_fundamental_div_mod(m_v as int, 2);
        }
    }
    acc
}

/// The 33-byte compressed encoding: a parity prefix, `0x02` for even `y`
/// and `0x03` for odd, then the 32 big-endian bytes of `x`.
pub open spec fn compress_view(pt: PointView) -> Seq<u8> {
    match pt {
        PointView::Infinity => Seq::empty(),
        PointView::Affine { x, y } => seq![
            if y % 2 == 0 {
                2u8
            } else {
                3u8
            },
        ] + be_bytes_fixed(x, 32),
    }
}

/// Compresses an affine point to its 33-byte encoding.
pub fn compress(pt: &Point) -> (r: [u8; 33])
    requires
        pt.wf(),
        !pt.infinity,
    ensures
        r@ == compress_view(pt.pview()),
{
    let mut out = [0u8; 33];
    let odd = u256_is_odd(&pt.y);
    out[0] = if odd {
        3
    } else {
        2
    };
    let xb = u256_to_be_bytes(&pt.x);
    let mut i: usize = 0;
    while i < 32
        invariant
            i <= 32,
            out@.len() == 33,
            xb@.len() == 32,
            xb@ == be_bytes_fixed(pt.x.as_nat(), 32),
            out@[0] == (if pt.y.as_nat() % 2 == 0 {
                2u8
            } else {
                3u8
            }),
            forall|j: int| 0 <= j < i ==> out@[j + 1] == xb@[j],
        decreases 32 - i,
    {
        out[i + 1] = xb[i];
        i = i + 1;
    }
    proof {
        assert(out@ =~= compress_view(pt.pview()));
    }
    out
}

/// The multiple of the generator by one is the generator itself.
pub proof fn lemma_scalar_one_is_generator()
    ensures
        spec_scalar_mul(1) == generator_view(),
{
    assert(sm_acc(PointView::Infinity, generator_view(), 1) == sm_acc(
        spec_point_add(PointView::Infinity, generator_view()),
        spec_point_double(generator_view()),
        0,
    ));
}

/// Compression is injective on curve points. Two distinct points of the
/// curve that share an x-coordinate are each other's inverse, their
/// y-coordinates summing to the field prime: on a prime field `y` is
/// determined by `y^2` up to sign, a number-theoretic fact taken as a
/// premise here rather than proved.
pub proof fn lemma_compress_injective(x1: nat, y1: nat, x2: nat, y2: nat)
    requires
        on_curve(PointView::Affine { x: x1, y: y1 }),
        on_curve(PointView::Affine { x: x2, y: y2 }),
        !(x1 == x2 && y1 == y2),
        x1 == x2 ==> y1 + y2 == p_val(),
    ensures
        compress_view(PointView::Affine { x: x1, y: y1 }) != compress_view(
            PointView::Affine { x: x2, y: y2 },
        ),
{
    let c1 = compress_view(PointView::Affine { x: x1, y: y1 });
    let c2 = compress_view(PointView::Affine { x: x2, y: y2 });
    if x1 == x2 {
        lemma_fundamental_div_mod(y1 as int, 2);
        lemma_fundamental_div_mod(y2 as int, 2);
        let r1 = y1 % 2;
        let r2 = y2 % 2;
        if r1 == r2 {
            assert(p_val() == 2 * (y1 / 2 + y2 / 2 + r1));
            lemma_fundamental_div_mod_converse(
                p_val() as int,
                2,
                (y1 / 2 + y2 / 2 + r1) as int,
                0,
            );
            assert(false);
        }
        assert(c1[0] != c2[0]);
    } else {
        crate::u256::lemma_byte_cap_values();
        crate::u256::lemma_be_bytes_fixed_len(x1, 32);
        crate::u256::lemma_be_bytes_fixed_len(x2, 32);
        lemma_be_bytes_fixed_val(x1, 32);
        lemma_be_bytes_fixed_val(x2, 32);
        if c1 == c2 {
            assert(forall|i: int|
                0 <= i < 32 ==> be_bytes_fixed(x1, 32)[i] == c1[i + 1] && be_bytes_fixed(x2, 32)[i]
                    == c2[i + 1]);
            assert(be_bytes_fixed(x1, 32) =~= be_bytes_fixed(x2, 32));
            assert(false);
        }
    }
}

/// Decides the curve equation for a point; the identity is not on the
/// curve.
pub fn point_on_curve(pt: &Point) -> (r: bool)
    requires
        pt.wf(),
    ensures
        r <==> on_curve(pt.pview()),
{
    if pt.infinity {
        return false;
    }
    let seven = U256 { l0: 7, l1: 0, l2: 0, l3: 0 };
    let lhs = mul_mod(&pt.y, &pt.y);
    let rhs = add_mod(&mul_mod(&mul_mod(&pt.x, &pt.x), &pt.x), &seven);
    u256_eq(&lhs, &rhs)
}

/// The generator satisfies the curve equation, by direct computation on
/// the fixed constants.
#[verifier::rlimit(100)]
pub proof fn lemma_generator_on_curve()
    ensures
        on_curve(generator_view()),
{
    assert(gy_val() * gy_val()
        == 0x1461286abe28c5f1df2d7d4bca391b5070f6ec678fe75b56871bf154841d1559c372d1541278bdcbe4f80e3d9e8b333f432bee128fd65b7c0ac2a7cc17c14440nat)
        by (nonlinear_arith);
    assert(0x1461286abe28c5f1df2d7d4bca391b5070f6ec678fe75b56871bf154841d1559c372d1541278bdcbe4f80e3d9e8b333f432bee128fd65b7c0ac2a7cc17c14440nat
        % p_val() == 0x4866d6a5ab41ab2c6bcc57ccd3735da5f16f80a548e5e20a44e4e9b8118c26f2nat);
    assert(gx_val() * gx_val()
        == 0x39e58a8055b6fb264b75ec8c646509784204ac15a8c24e05babc9729ab9b055c3a9458e4ce3289560a38e08ba8175a9446ce14e608245ab3a9978a8bd8acaa40nat)
        by (nonlinear_arith);
    assert(0x39e58a8055b6fb264b75ec8c646509784204ac15a8c24e05babc9729ab9b055c3a9458e4ce3289560a38e08ba8175a9446ce14e608245ab3a9978a8bd8acaa40nat
        % p_val() == 0x8550e7d238fcf3086ba9adcf0fb52a9de3652194d06cb5bb38d50229b854fc49nat);
    assert(0x8550e7d238fcf3086ba9adcf0fb52a9de3652194d06cb5bb38d50229b854fc49nat * gx_val()
        == 0x3f6664fec7445b86bad8c9a43effc5dc7384557bb62eadd8e2177ae0629d31328b5b0ac8748794591773061bf1cce9d55f3695aa1ea8ee72c7455f4ac1d85a58nat)
        by (nonlinear_arith);
    assert(0x3f6664fec7445b86bad8c9a43effc5dc7384557bb62eadd8e2177ae0629d31328b5b0ac8748794591773061bf1cce9d55f3695aa1ea8ee72c7455f4ac1d85a58nat
        % p_val() == 0x4866d6a5ab41ab2c6bcc57ccd3735da5f16f80a548e5e20a44e4e9b8118c26ebnat);
    assert((0x4866d6a5ab41ab2c6bcc57ccd3735da5f16f80a548e5e20a44e4e9b8118c26ebnat + 7)
        % p_val() == 0x4866d6a5ab41ab2c6bcc57ccd3735da5f16f80a548e5e20a44e4e9b8118c26f2nat);
}

/// The multiple of the generator by one satisfies the curve equation: the
/// curve-membership of scalar multiples, shown here for the scalar one;
/// for larger scalars it rests on the field being prime and is checked by
/// tests rather than proved.
pub proof fn lemma_scalar_one_on_curve()
    ensures
        on_curve(spec_scalar_mul(1)),
{
    lemma_scalar_one_is_generator();
    lemma_generator_on_curve();
}

} // verus!
