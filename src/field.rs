//! The KoalaBear prime field, p = 2^31 - 2^24 + 1, in Montgomery form with
//! radix R = 2^32.
use vstd::prelude::*;
use vstd::arithmetic::div_mod::*;
use vstd::arithmetic::mul::*;

verus! {

/// The field's prime.
pub const P: u32 = 0x7f00_0001;

/// p^-1 mod 2^32.
const MONTY_MU: u64 = 0x8100_0001;

const MONTY_RADIX: u64 = 0x1_0000_0000;

pub open spec fn p() -> int {
    2130706433
}

/// The Montgomery radix R.
pub open spec fn radix() -> int {
    0x1_0000_0000
}

/// R^-1 mod p.
pub open spec fn radix_inv() -> int {
    1057030144
}

/// Field sum of two stored values.
pub open spec fn fadd(a: int, b: int) -> int {
    (a + b) % p()
}

/// Field difference of two stored values.
pub open spec fn fsub(a: int, b: int) -> int {
    (a - b) % p()
}

/// Montgomery product of two stored values: the stored form of the product of
/// the field elements they stand for.
pub open spec fn fmul(a: int, b: int) -> int {
    (a * b * radix_inv()) % p()
}

/// Stored form of the element 1.
pub open spec fn one_stored() -> int {
    radix() % p()
}

/// Stored form of b^e, for b in stored form.
pub open spec fn mpow(b: int, e: nat) -> int
    decreases e,
{
    if e == 0 {
        one_stored()
    } else {
        fmul(mpow(b, (e - 1) as nat), b)
    }
}

/// An element of the KoalaBear field. `value` holds x * R mod p for the
/// element x, always below p.
#[derive(Clone, Copy, Debug, PartialEq, Eq, Structural)]
pub struct KoalaBear {
    pub value: u32,
}

impl KoalaBear {
    pub open spec fn wf(self) -> bool {
        self.value < P
    }

    /// The field element this value stands for, in [0, p).
    pub open spec fn val(self) -> int {
        (self.value as int * radix_inv()) % p()
    }
}

/// Stored values of a sequence of field elements.
pub open spec fn values_of(s: Seq<KoalaBear>) -> Seq<int> {
    Seq::new(s.len(), |i: int| s[i].value as int)
}

/// Every element of `s` is in canonical stored form.
pub open spec fn all_wf(s: Seq<KoalaBear>) -> bool {
    forall|i: int| 0 <= i < s.len() ==> #[trigger] s[i].wf()
}

proof fn lemma_radix_inv()
    ensures
        (radix() * radix_inv()) % p() == 1,
{
    assert((radix() * radix_inv()) % p() == 1);
}

/// Multiplying by R and then by R^-1 gives back a canonical value.
proof fn lemma_cancel_radix(r: int)
    requires
        0 <= r < p(),
    ensures
        (r * radix() * radix_inv()) % p() == r,
{
    lemma_radix_inv();
    let k = (radix() * radix_inv()) / p();
    assert(radix() * radix_inv() == k * p() + 1) by {
        lemma_fundamental_div_mod(radix() * radix_inv(), p());
    }
    assert(r * radix() * radix_inv() == r * k * p() + r) by (nonlinear_arith)
        requires
            radix() * radix_inv() == k * p() + 1,
    ;
    lemma_mod_multiples_vanish(r * k, r, p());
    lemma_small_mod(r as nat, p() as nat);
}

/// Montgomery reduction: for x < R * p, returns x * R^-1 mod p.
pub fn monty_reduce(x: u64) -> (r: u32)
    requires
        x < radix() * p(),
    ensures
        r < P,
        r == (x * radix_inv()) % p(),
{
    let m: u64 = MONTY_RADIX;
    let x0: u64 = x % m;
    assert(x0 * MONTY_MU < 0x1_0000_0000 * 0x1_0000_0000) by (nonlinear_arith)
        requires
            x0 < 0x1_0000_0000,
            MONTY_MU < 0x1_0000_0000,
    ;
    let t: u64 = (x0 * MONTY_MU) % m;
    assert(t * (P as u64) < radix() * p()) by (nonlinear_arith)
        requires
            t < radix(),
            P == p(),
    ;
    let u: u64 = t * (P as u64);
    proof {
        // t * p agrees with x modulo R.
        lemma_mul_mod_noop_left(x0 * MONTY_MU, P as int, radix());
        assert(x0 * MONTY_MU * P == x0 * (MONTY_MU * P)) by {
            lemma_mul_is_associative(x0 as int, MONTY_MU as int, P as int);
        }
        assert(MONTY_MU * P == 0x3fff0001 * radix() + 1);
        assert(x0 * (MONTY_MU * P) == (x0 * 0x3fff0001) * radix() + x0) by (nonlinear_arith)
            requires
                MONTY_MU * P == 0x3fff0001 * radix() + 1,
        ;
        lemma_mod_multiples_vanish(x0 * 0x3fff0001, x0 as int, radix());
        lemma_small_mod(x0 as nat, radix() as nat);
        assert(u as int % radix() == x0);
        lemma_fundamental_div_mod(x as int, radix());
        lemma_fundamental_div_mod(u as int, radix());
    }
    let r: u32;
    if x >= u {
        let d: u64 = x - u;
        proof {
            let q = d as int / radix();
            assert(d == (x as int / radix() - u as int / radix()) * radix());
            lemma_div_multiples_vanish(x as int / radix() - u as int / radix(), radix());
            assert(q * radix() == d);
            assert(q < p()) by (nonlinear_arith)
                requires
                    q * radix() == d,
                    d < radix() * p(),
                    radix() > 0,
            ;
        }
        r = (d / m) as u32;
    } else {
        let d: u64 = u - x;
        proof {
            let q = d as int / radix();
            assert(d == (u as int / radix() - x as int / radix()) * radix());
            lemma_div_multiples_vanish(u as int / radix() - x as int / radix(), radix());
            assert(q * radix() == d);
            assert(0 < q < p()) by (nonlinear_arith)
                requires
                    q * radix() == d,
                    d <= u,
                    d > 0,
                    u < radix() * p(),
                    radix() > 0,
            ;
        }
        r = (P as u64 - d / m) as u32;
    }
    proof {
        // r * R == x - u + (a multiple of p), and u is a multiple of p.
        let j: int = if x >= u { 0 } else { 1 };
        assert(r * radix() == x - u + j * p() * radix()) by (nonlinear_arith)
            requires
                x >= u ==> j == 0 && r * radix() == x - u,
                x < u ==> j == 1 && r == p() - (u - x) / radix() && ((u - x) / radix()) * radix() == u - x,
        ;
        assert(r * radix() == x + (j * radix() - t) * p()) by (nonlinear_arith)
            requires
                r * radix() == x - u + j * p() * radix(),
                u == t * p(),
        ;
        lemma_mod_multiples_vanish(j * radix() - t, x as int, p());
        assert((r * radix()) % p() == x as int % p());
        lemma_mul_mod_noop_left(r * radix(), radix_inv(), p());
        lemma_mul_mod_noop_left(x as int, radix_inv(), p());
        lemma_cancel_radix(r as int);
    }
    r
}

impl KoalaBear {
    /// The zero element.
    pub fn zero() -> (r: KoalaBear)
        ensures
            r.wf(),
            r.value == 0,
    {
        KoalaBear { value: 0 }
    }

    /// The unit element.
    pub fn one() -> (r: KoalaBear)
        ensures
            r.wf(),
            r.value == one_stored(),
    {
        KoalaBear { value: 33554430 }
    }

    /// Raises this element to the power `e` by repeated multiplication.
    pub fn exp_u64(self, e: u64) -> (r: KoalaBear)
        requires
            self.wf(),
        ensures
            r.wf(),
            r.value == mpow(self.value as int, e as nat),
    {
        let mut acc = KoalaBear::one();
        let mut k: u64 = 0;
        while k < e
            invariant
                k <= e,
                self.wf(),
                acc.wf(),
                acc.value == mpow(self.value as int, k as nat),
            decreases e - k,
        {
            acc = acc.mul(self);
            k = k + 1;
        }
        acc
    }

    /// The field element with canonical value `x`, converted to Montgomery form.
    pub fn from_canonical_u32(x: u32) -> (r: KoalaBear)
        requires
            x < P,
        ensures
            r.wf(),
            r.value == (x as int * radix()) % p(),
            r.val() == x,
    {
        let v: u64 = ((x as u64) * MONTY_RADIX) % (P as u64);
        proof {
            lemma_mul_mod_noop_left(x as int * radix(), radix_inv(), p());
            lemma_cancel_radix(x as int);
        }
        KoalaBear { value: v as u32 }
    }

    /// The canonical value of this element, in [0, p).
    pub fn as_canonical_u32(&self) -> (r: u32)
        requires
            self.wf(),
        ensures
            r == self.val(),
            r < P,
    {
        monty_reduce(self.value as u64)
    }

    /// Field addition.
    pub fn add(self, other: KoalaBear) -> (r: KoalaBear)
        requires
            self.wf(),
            other.wf(),
        ensures
            r.wf(),
            r.value == fadd(self.value as int, other.value as int),
    {
        let s: u32 = self.value + other.value;
        if s >= P {
            proof {
                lemma_fundamental_div_mod_converse(s as int, p(), 1, s - p());
            }
            KoalaBear { value: s - P }
        } else {
            proof {
                lemma_small_mod(s as nat, p() as nat);
            }
            KoalaBear { value: s }
        }
    }

    /// Field negation.
    pub fn neg(self) -> (r: KoalaBear)
        requires
            self.wf(),
        ensures
            r.wf(),
            r.value == fsub(0, self.value as int),
    {
        if self.value == 0 {
            KoalaBear { value: 0 }
        } else {
            proof {
                lemma_fundamental_div_mod_converse(-self.value, p(), -1, p() - self.value);
            }
            KoalaBear { value: P - self.value }
        }
    }

    /// Field subtraction.
    pub fn sub(self, other: KoalaBear) -> (r: KoalaBear)
        requires
            self.wf(),
            other.wf(),
        ensures
            r.wf(),
            r.value == fsub(self.value as int, other.value as int),
    {
        if self.value >= other.value {
            proof {
                lemma_small_mod((self.value - other.value) as nat, p() as nat);
            }
            KoalaBear { value: self.value - other.value }
        } else {
            proof {
                lemma_fundamental_div_mod_converse(
                    self.value - other.value,
                    p(),
                    -1,
                    p() + self.value - other.value,
                );
            }
            KoalaBear { value: P - (other.value - self.value) }
        }
    }

    /// Field multiplication, by Montgomery reduction of the product.
    pub fn mul(self, other: KoalaBear) -> (r: KoalaBear)
        requires
            self.wf(),
            other.wf(),
        ensures
            r.wf(),
            r.value == fmul(self.value as int, other.value as int),
    {
        assert((self.value as int) * (other.value as int) < radix() * p()) by (nonlinear_arith)
            requires
                self.value < p(),
                other.value < p(),
        ;
        let x: u64 = (self.value as u64) * (other.value as u64);
        KoalaBear { value: monty_reduce(x) }
    }
}

/// a * x + b * y in the field, on stored values.
pub open spec fn lin(a: int, x: int, b: int, y: int) -> int {
    fadd(fmul(a, x), fmul(b, y))
}

/// Entrywise a * x + b * y.
pub open spec fn lin_seq(a: int, x: Seq<int>, b: int, y: Seq<int>) -> Seq<int> {
    Seq::new(x.len(), |i: int| lin(a, x[i], b, y[i]))
}

/// u and v agree modulo p.
pub open spec fn cong(u: int, v: int) -> bool {
    u % p() == v % p()
}

pub proof fn lemma_cong_mod(u: int)
    ensures
        cong(u % p(), u),
{
    lemma_mod_twice(u, p());
}

pub proof fn lemma_cong_add(u1: int, v1: int, u2: int, v2: int)
    requires
        cong(u1, v1),
        cong(u2, v2),
    ensures
        cong(u1 + u2, v1 + v2),
{
    lemma_add_mod_noop(u1, u2, p());
    lemma_add_mod_noop(v1, v2, p());
}

pub proof fn lemma_cong_sub(u1: int, v1: int, u2: int, v2: int)
    requires
        cong(u1, v1),
        cong(u2, v2),
    ensures
        cong(u1 - u2, v1 - v2),
{
    lemma_sub_mod_noop(u1, u2, p());
    lemma_sub_mod_noop(v1, v2, p());
}

pub proof fn lemma_cong_scale(u: int, v: int, c1: int, c2: int)
    requires
        cong(u, v),
    ensures
        cong(c1 * u * c2, c1 * v * c2),
{
    assert(c1 * u * c2 == u * (c1 * c2)) by (nonlinear_arith);
    assert(c1 * v * c2 == v * (c1 * c2)) by (nonlinear_arith);
    lemma_mul_mod_noop_left(u, c1 * c2, p());
    lemma_mul_mod_noop_left(v, c1 * c2, p());
}

/// lin(a, x, b, y) is a * x * R^-1 + b * y * R^-1 modulo p.
pub proof fn lemma_lin_cong(a: int, x: int, b: int, y: int)
    ensures
        cong(lin(a, x, b, y), a * x * radix_inv() + b * y * radix_inv()),
{
    lemma_cong_mod(a * x * radix_inv());
    lemma_cong_mod(b * y * radix_inv());
    lemma_cong_add(fmul(a, x), a * x * radix_inv(), fmul(b, y), b * y * radix_inv());
    lemma_cong_mod(fmul(a, x) + fmul(b, y));
}

/// Two values in [0, p) that agree modulo p are equal.
pub proof fn lemma_cong_canonical(u: int, v: int)
    requires
        cong(u, v),
        0 <= u < p(),
        0 <= v < p(),
    ensures
        u == v,
{
    lemma_small_mod(u as nat, p() as nat);
    lemma_small_mod(v as nat, p() as nat);
}

/// Field addition commutes with a * _ + b * _.
pub proof fn lemma_lin_fadd(a: int, b: int, x1: int, y1: int, x2: int, y2: int)
    ensures
        fadd(lin(a, x1, b, y1), lin(a, x2, b, y2)) == lin(a, fadd(x1, x2), b, fadd(y1, y2)),
{
    let ri = radix_inv();
    lemma_lin_cong(a, x1, b, y1);
    lemma_lin_cong(a, x2, b, y2);
    lemma_cong_add(lin(a, x1, b, y1), a * x1 * ri + b * y1 * ri, lin(a, x2, b, y2), a * x2 * ri + b * y2 * ri);
    lemma_cong_mod(lin(a, x1, b, y1) + lin(a, x2, b, y2));
    lemma_lin_cong(a, fadd(x1, x2), b, fadd(y1, y2));
    lemma_cong_mod(x1 + x2);
    lemma_cong_mod(y1 + y2);
    lemma_cong_scale(fadd(x1, x2), x1 + x2, a, ri);
    lemma_cong_scale(fadd(y1, y2), y1 + y2, b, ri);
    lemma_cong_add(a * fadd(x1, x2) * ri, a * (x1 + x2) * ri, b * fadd(y1, y2) * ri, b * (y1 + y2) * ri);
    assert(a * (x1 + x2) * ri + b * (y1 + y2) * ri == (a * x1 * ri + b * y1 * ri) + (a * x2 * ri + b * y2 * ri)) by (nonlinear_arith);
    lemma_cong_canonical(fadd(lin(a, x1, b, y1), lin(a, x2, b, y2)), lin(a, fadd(x1, x2), b, fadd(y1, y2)));
}

/// Field subtraction commutes with a * _ + b * _.
pub proof fn lemma_lin_fsub(a: int, b: int, x1: int, y1: int, x2: int, y2: int)
    ensures
        fsub(lin(a, x1, b, y1), lin(a, x2, b, y2)) == lin(a, fsub(x1, x2), b, fsub(y1, y2)),
{
    let ri = radix_inv();
    lemma_lin_cong(a, x1, b, y1);
    lemma_lin_cong(a, x2, b, y2);
    lemma_cong_sub(lin(a, x1, b, y1), a * x1 * ri + b * y1 * ri, lin(a, x2, b, y2), a * x2 * ri + b * y2 * ri);
    lemma_cong_mod(lin(a, x1, b, y1) - lin(a, x2, b, y2));
    lemma_lin_cong(a, fsub(x1, x2), b, fsub(y1, y2));
    lemma_cong_mod(x1 - x2);
    lemma_cong_mod(y1 - y2);
    lemma_cong_scale(fsub(x1, x2), x1 - x2, a, ri);
    lemma_cong_scale(fsub(y1, y2), y1 - y2, b, ri);
    lemma_cong_add(a * fsub(x1, x2) * ri, a * (x1 - x2) * ri, b * fsub(y1, y2) * ri, b * (y1 - y2) * ri);
    assert(a * (x1 - x2) * ri + b * (y1 - y2) * ri == (a * x1 * ri + b * y1 * ri) - (a * x2 * ri + b * y2 * ri)) by (nonlinear_arith);
    lemma_cong_canonical(fsub(lin(a, x1, b, y1), lin(a, x2, b, y2)), lin(a, fsub(x1, x2), b, fsub(y1, y2)));
}

/// Multiplying by a constant commutes with a * _ + b * _.
pub proof fn lemma_lin_fmul(a: int, b: int, x: int, y: int, t: int)
    ensures
        fmul(lin(a, x, b, y), t) == lin(a, fmul(x, t), b, fmul(y, t)),
{
    let ri = radix_inv();
    lemma_lin_cong(a, x, b, y);
    lemma_cong_scale(lin(a, x, b, y), a * x * ri + b * y * ri, 1, t * ri);
    assert(lin(a, x, b, y) * t * ri == 1 * lin(a, x, b, y) * (t * ri)) by (nonlinear_arith);
    lemma_cong_mod(lin(a, x, b, y) * t * ri);
    lemma_lin_cong(a, fmul(x, t), b, fmul(y, t));
    lemma_cong_mod(x * t * ri);
    lemma_cong_mod(y * t * ri);
    lemma_cong_scale(fmul(x, t), x * t * ri, a, ri);
    lemma_cong_scale(fmul(y, t), y * t * ri, b, ri);
    lemma_cong_add(a * fmul(x, t) * ri, a * (x * t * ri) * ri, b * fmul(y, t) * ri, b * (y * t * ri) * ri);
    let px = a * x * ri;
    let py = b * y * ri;
    let tr = t * ri;
    assert(a * (x * t * ri) * ri == px * tr) by (nonlinear_arith)
        requires
            px == a * x * ri,
            tr == t * ri,
    ;
    assert(b * (y * t * ri) * ri == py * tr) by (nonlinear_arith)
        requires
            py == b * y * ri,
            tr == t * ri,
    ;
    assert(1 * (px + py) * tr == px * tr + py * tr) by (nonlinear_arith);
    lemma_cong_canonical(fmul(lin(a, x, b, y), t), lin(a, fmul(x, t), b, fmul(y, t)));
}

} // verus!
