//! Arithmetic in GF(2^8) modulo x^8 + x^4 + x^3 + x + 1.
use vstd::prelude::*;

verus! {

/// Multiplication by x, reduced modulo 0x11B.
pub open spec fn xtime(a: u8) -> u8 {
    ((a << 1u8) as u8) ^ (((0u8 - (a >> 7u8)) as u8) & 0x1Bu8)
}

/// The term that bit `i` of `b` contributes to a product: `a` or zero.
pub open spec fn pick(b: u8, i: u8, a: u8) -> u8 {
    ((0u8 - ((b >> i) & 1u8)) as u8) & a
}

/// The field product: the carry-less product of `a` and `b`, reduced.
pub closed spec fn gf_mul(a: u8, b: u8) -> u8 {
    let a1 = xtime(a);
    let a2 = xtime(a1);
    let a3 = xtime(a2);
    let a4 = xtime(a3);
    let a5 = xtime(a4);
    let a6 = xtime(a5);
    let a7 = xtime(a6);
    pick(b, 0u8, a) ^ pick(b, 1u8, a1) ^ pick(b, 2u8, a2) ^ pick(b, 3u8, a3) ^ pick(b, 4u8, a4)
        ^ pick(b, 5u8, a5) ^ pick(b, 6u8, a6) ^ pick(b, 7u8, a7)
}

/// The multiplicative inverse of a nonzero element, as `a` to the power 254.
pub closed spec fn gf_inv(a: u8) -> u8 {
    let a2 = gf_mul(a, a);
    let a4 = gf_mul(a2, a2);
    let a8 = gf_mul(a4, a4);
    let a16 = gf_mul(a8, a8);
    let a32 = gf_mul(a16, a16);
    let a64 = gf_mul(a32, a32);
    let a128 = gf_mul(a64, a64);
    gf_mul(gf_mul(gf_mul(a2, a4), gf_mul(a8, a16)), gf_mul(gf_mul(a32, a64), a128))
}

/// What the field product is: bit `i` of `b` adds `a` times x to the power `i`.
pub proof fn lemma_gf_mul_definition(a: u8, b: u8)
    ensures
        gf_mul(a, b) == ({
            let a1 = xtime(a);
            let a2 = xtime(a1);
            let a3 = xtime(a2);
            let a4 = xtime(a3);
            let a5 = xtime(a4);
            let a6 = xtime(a5);
            let a7 = xtime(a6);
            pick(b, 0u8, a) ^ pick(b, 1u8, a1) ^ pick(b, 2u8, a2) ^ pick(b, 3u8, a3) ^ pick(b, 4u8, a4)
                ^ pick(b, 5u8, a5) ^ pick(b, 6u8, a6) ^ pick(b, 7u8, a7)
        }),
{
}

/// What the inverse is: `a` to the power 254, by repeated squaring.
pub proof fn lemma_gf_inv_definition(a: u8)
    ensures
        gf_inv(a) == ({
            let a2 = gf_mul(a, a);
            let a4 = gf_mul(a2, a2);
            let a8 = gf_mul(a4, a4);
            let a16 = gf_mul(a8, a8);
            let a32 = gf_mul(a16, a16);
            let a64 = gf_mul(a32, a32);
            let a128 = gf_mul(a64, a64);
            gf_mul(gf_mul(gf_mul(a2, a4), gf_mul(a8, a16)), gf_mul(gf_mul(a32, a64), a128))
        }),
{
}

/// The field quotient `a / b`, for nonzero `b`.
pub open spec fn gf_div(a: u8, b: u8) -> u8 {
    gf_mul(a, gf_inv(b))
}

/// Multiplication is commutative.
#[verifier::rlimit(100)]
pub proof fn lemma_mul_commutative(a: u8, b: u8)
    ensures
        gf_mul(a, b) == gf_mul(b, a),
{
    assert(gf_mul(a, b) == gf_mul(b, a)) by (bit_vector);
}

/// Multiplication distributes over addition (exclusive or).
#[verifier::rlimit(100)]
pub proof fn lemma_mul_distributive(a: u8, b: u8, c: u8)
    ensures
        gf_mul(a, b ^ c) == gf_mul(a, b) ^ gf_mul(a, c),
{
    assert(gf_mul(a, b ^ c) == gf_mul(a, b) ^ gf_mul(a, c)) by (bit_vector);
}

/// One is the multiplicative identity and zero annihilates.
pub proof fn lemma_mul_one_zero(a: u8)
    ensures
        gf_mul(a, 1) == a,
        gf_mul(a, 0) == 0,
{
    assert(gf_mul(a, 1) == a) by (bit_vector);
    assert(gf_mul(a, 0) == 0) by (bit_vector);
}

/// Every nonzero element times its inverse is one.
#[verifier::rlimit(100)]
pub proof fn lemma_mul_inverse(a: u8)
    requires
        a != 0,
    ensures
        gf_mul(a, gf_inv(a)) == 1,
{
    let a2 = gf_mul(a, a);
    let a4 = gf_mul(a2, a2);
    let a8 = gf_mul(a4, a4);
    let a16 = gf_mul(a8, a8);
    let a32 = gf_mul(a16, a16);
    let a64 = gf_mul(a32, a32);
    let a128 = gf_mul(a64, a64);
    let m1 = gf_mul(a2, a4);
    let m2 = gf_mul(a8, a16);
    let m3 = gf_mul(a32, a64);
    let m4 = gf_mul(m1, m2);
    let m5 = gf_mul(m3, a128);
    let r = gf_mul(m4, m5);
    assert(r == gf_inv(a));
    assert(gf_mul(a, r) == 1) by (bit_vector)
        requires
            a != 0,
            a2 == gf_mul(a, a),
            a4 == gf_mul(a2, a2),
            a8 == gf_mul(a4, a4),
            a16 == gf_mul(a8, a8),
            a32 == gf_mul(a16, a16),
            a64 == gf_mul(a32, a32),
            a128 == gf_mul(a64, a64),
            m1 == gf_mul(a2, a4),
            m2 == gf_mul(a8, a16),
            m3 == gf_mul(a32, a64),
            m4 == gf_mul(m1, m2),
            m5 == gf_mul(m3, a128),
            r == gf_mul(m4, m5),
    ;
}

/// Addition is commutative and associative, and every element is its own negative.
pub proof fn lemma_add_laws(a: u8, b: u8, c: u8)
    ensures
        a ^ b == b ^ a,
        (a ^ b) ^ c == a ^ (b ^ c),
        a ^ a == 0,
        a ^ 0 == a,
{
    assert(a ^ b == b ^ a && (a ^ b) ^ c == a ^ (b ^ c) && a ^ a == 0 && a ^ 0 == a) by (bit_vector);
}

/// Multiplication distributes over addition on the left too.
pub proof fn lemma_mul_distributive_left(a: u8, b: u8, c: u8)
    ensures
        gf_mul(a ^ b, c) == gf_mul(a, c) ^ gf_mul(b, c),
{
    lemma_mul_commutative(a ^ b, c);
    lemma_mul_commutative(a, c);
    lemma_mul_commutative(b, c);
    lemma_mul_distributive(c, a, b);
}

/// The bits of `b` below bit `i`.
pub open spec fn low_bits(b: u8, i: u8) -> u8 {
    if i >= 8 {
        b
    } else {
        b & ((((1u8 << i) as u8) - 1u8) as u8)
    }
}

#[verifier::rlimit(100)]
proof fn lemma_assoc_power_of_two(a: u8, c: u8, i: u8)
    requires
        i < 8,
    ensures
        gf_mul(gf_mul(a, (1u8 << i) as u8), c) == gf_mul(a, gf_mul((1u8 << i) as u8, c)),
{
    let m = (1u8 << i) as u8;
    let l = gf_mul(a, m);
    let r = gf_mul(m, c);
    assert(gf_mul(l, c) == gf_mul(a, r)) by (bit_vector)
        requires
            i < 8,
            m == (1u8 << i) as u8,
            l == gf_mul(a, m),
            r == gf_mul(m, c),
    ;
}

proof fn lemma_assoc_low_bits(a: u8, b: u8, c: u8, i: u8)
    requires
        i <= 8,
    ensures
        gf_mul(gf_mul(a, low_bits(b, i)), c) == gf_mul(a, gf_mul(low_bits(b, i), c)),
    decreases i,
{
    if i == 0 {
        assert(low_bits(b, 0) == 0) by (bit_vector);
        lemma_mul_one_zero(a);
        lemma_mul_commutative(0, c);
        lemma_mul_one_zero(c);
        lemma_mul_commutative(0, c);
    } else {
        let j = (i - 1) as u8;
        lemma_assoc_low_bits(a, b, c, j);
        let lo = low_bits(b, j);
        let m = (1u8 << j) as u8;
        let bit = b & m;
        assert(low_bits(b, i) == lo ^ bit && (bit == 0 || bit == m)) by (bit_vector)
            requires
                j < 8,
                i == j + 1,
                lo == low_bits(b, j),
                m == (1u8 << j) as u8,
                bit == b & m,
        ;
        lemma_mul_distributive(a, lo, bit);
        lemma_mul_distributive_left(gf_mul(a, lo), gf_mul(a, bit), c);
        lemma_mul_distributive_left(lo, bit, c);
        lemma_mul_distributive(a, gf_mul(lo, c), gf_mul(bit, c));
        if bit == 0 {
            lemma_mul_one_zero(a);
            lemma_mul_one_zero(c);
            lemma_mul_commutative(0, c);
        } else {
            lemma_assoc_power_of_two(a, c, j);
        }
    }
}

/// Multiplication is associative.
pub proof fn lemma_mul_associative(a: u8, b: u8, c: u8)
    ensures
        gf_mul(gf_mul(a, b), c) == gf_mul(a, gf_mul(b, c)),
{
    lemma_assoc_low_bits(a, b, c, 8);
}

/// An element of GF(2^8), held as its byte.
#[derive(Clone, Copy, Debug, PartialEq, Eq, Structural)]
pub struct Gf256 {
    pub poly: u8,
}

fn xtime_exec(a: u8) -> (r: u8)
    ensures
        r == xtime(a),
{
    let m: u8 = if a & 0x80u8 == 0 {
        0
    } else {
        0x1B
    };
    let r: u8 = ((a << 1u8) as u8) ^ m;
    assert(r == xtime(a)) by (bit_vector)
        requires
            m == (if a & 0x80u8 == 0 {
                0u8
            } else {
                0x1Bu8
            }),
            r == ((a << 1u8) as u8) ^ m,
    ;
    r
}

fn pick_exec(b: u8, i: u8, a: u8) -> (r: u8)
    requires
        i < 8,
    ensures
        r == pick(b, i, a),
{
    let r: u8 = if (b >> i) & 1u8 == 0 {
        0
    } else {
        a
    };
    assert(r == pick(b, i, a)) by (bit_vector)
        requires
            r == (if (b >> i) & 1u8 == 0 {
                0u8
            } else {
                a
            }),
    ;
    r
}

impl Gf256 {
    pub fn from_byte(b: u8) -> (r: Gf256)
        ensures
            r.poly == b,
    {
        Gf256 { poly: b }
    }

    pub fn to_byte(&self) -> (r: u8)
        ensures
            r == self.poly,
    {
        self.poly
    }

    pub fn zero() -> (r: Gf256)
        ensures
            r.poly == 0,
    {
        Gf256 { poly: 0 }
    }

    pub fn one() -> (r: Gf256)
        ensures
            r.poly == 1,
    {
        Gf256 { poly: 1 }
    }

    /// Field addition: exclusive or of the bytes.
    pub fn add(self, o: Gf256) -> (r: Gf256)
        ensures
            r.poly == self.poly ^ o.poly,
    {
        Gf256 { poly: self.poly ^ o.poly }
    }

    /// Field subtraction, which equals addition.
    pub fn sub(self, o: Gf256) -> (r: Gf256)
        ensures
            r.poly == self.poly ^ o.poly,
    {
        Gf256 { poly: self.poly ^ o.poly }
    }

    /// Field multiplication modulo 0x11B.
    pub fn mul(self, o: Gf256) -> (r: Gf256)
        ensures
            r.poly == gf_mul(self.poly, o.poly),
    {
        let a = self.poly;
        let b = o.poly;
        let a1 = xtime_exec(a);
        let a2 = xtime_exec(a1);
        let a3 = xtime_exec(a2);
        let a4 = xtime_exec(a3);
        let a5 = xtime_exec(a4);
        let a6 = xtime_exec(a5);
        let a7 = xtime_exec(a6);
        let p = pick_exec(b, 0, a) ^ pick_exec(b, 1, a1) ^ pick_exec(b, 2, a2) ^ pick_exec(b, 3, a3)
            ^ pick_exec(b, 4, a4) ^ pick_exec(b, 5, a5) ^ pick_exec(b, 6, a6) ^ pick_exec(b, 7, a7);
        Gf256 { poly: p }
    }

    /// The multiplicative inverse of a nonzero element.
    pub fn inverse(self) -> (r: Gf256)
        requires
            self.poly != 0,
        ensures
            r.poly == gf_inv(self.poly),
    {
        let a2 = self.mul(self);
        let a4 = a2.mul(a2);
        let a8 = a4.mul(a4);
        let a16 = a8.mul(a8);
        let a32 = a16.mul(a16);
        let a64 = a32.mul(a32);
        let a128 = a64.mul(a64);
        a2.mul(a4).mul(a8.mul(a16)).mul(a32.mul(a64).mul(a128))
    }

    /// Field division by a nonzero element.
    pub fn div(self, o: Gf256) -> (r: Gf256)
        requires
            o.poly != 0,
        ensures
            r.poly == gf_div(self.poly, o.poly),
    {
        self.mul(o.inverse())
    }
}

} // verus!
