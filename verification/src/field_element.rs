//! The scalar field element of the proof system, modelled as a 256-bit
//! unsigned integer in four little-endian 64-bit limbs.
//!
//! The codecs in this crate keep every value they produce below 2 to the 192
//! (64 sparse digits of 3 bits each), far below the characteristic of the
//! proof system's scalar field, so field reduction is never reached and the
//! integer view is exact.

use vstd::prelude::*;

verus! {

/// A field element as the integer its canonical little-endian representation
/// encodes, split into four 64-bit limbs, least significant first.
#[derive(Clone, Copy, Debug, PartialEq, Eq, Structural)]
pub struct FieldElement {
    /// Bits 0 to 63.
    pub limb0: u64,
    /// Bits 64 to 127.
    pub limb1: u64,
    /// Bits 128 to 191.
    pub limb2: u64,
    /// Bits 192 to 255.
    pub limb3: u64,
}

impl FieldElement {
    /// The integer value of the four limbs.
    pub open spec fn val(self) -> nat {
        (self.limb0 + self.limb1 * 0x10000000000000000 + self.limb2
            * 0x100000000000000000000000000000000 + self.limb3
            * 0x1000000000000000000000000000000000000000000000000) as nat
    }

    /// The zero element.
    pub fn zero() -> (r: Self)
        ensures
            r.val() == 0,
    {
        FieldElement { limb0: 0, limb1: 0, limb2: 0, limb3: 0 }
    }

    /// The element whose value is `v`.
    pub fn from_u64(v: u64) -> (r: Self)
        ensures
            r.val() == v,
    {
        FieldElement { limb0: v, limb1: 0, limb2: 0, limb3: 0 }
    }

    /// The lowest byte of the canonical little-endian representation.
    pub fn low_byte(&self) -> (r: u8)
        ensures
            r == self.val() % 256,
    {
        let l0 = self.limb0;
        proof {
            assert(l0 & 0xff == l0 % 256) by (bit_vector);
            lemma_low_mod(self.limb0 as int, self.limb1 as int, self.limb2 as int,
                self.limb3 as int);
        }
        (l0 & 0xff) as u8
    }

    /// Multiplies by a small factor and adds a digit, exactly: the result is
    /// `self.val() * base + add`, which the caller keeps below 2 to the 256.
    pub fn mul_small_add(self, base: u64, add: u64) -> (r: Self)
        requires
            self.val() * base + add
                < 0x10000000000000000000000000000000000000000000000000000000000000000,
        ensures
            r.val() == self.val() * base + add,
    {
        proof {
            lemma_mul_add_fits(self.limb0, base, add);
        }
        let p0: u128 = (self.limb0 as u128) * (base as u128) + (add as u128);
        let r0: u64 = p0 as u64;
        let c0: u64 = (p0 >> 64) as u64;
        proof {
            lemma_mul_add_fits(self.limb1, base, c0);
        }
        let p1: u128 = (self.limb1 as u128) * (base as u128) + (c0 as u128);
        let r1: u64 = p1 as u64;
        let c1: u64 = (p1 >> 64) as u64;
        proof {
            lemma_mul_add_fits(self.limb2, base, c1);
        }
        let p2: u128 = (self.limb2 as u128) * (base as u128) + (c1 as u128);
        let r2: u64 = p2 as u64;
        let c2: u64 = (p2 >> 64) as u64;
        proof {
            lemma_mul_add_fits(self.limb3, base, c2);
        }
        let p3: u128 = (self.limb3 as u128) * (base as u128) + (c2 as u128);
        let r3: u64 = p3 as u64;
        let c3: u64 = (p3 >> 64) as u64;
        let r = FieldElement { limb0: r0, limb1: r1, limb2: r2, limb3: r3 };
        proof {
            lemma_split_u128(p0);
            lemma_split_u128(p1);
            lemma_split_u128(p2);
            lemma_split_u128(p3);
            lemma_carry_chain(self.limb0 as int, self.limb1 as int, self.limb2 as int,
                self.limb3 as int, base as int, add as int, c0 as int, c1 as int, c2 as int,
                c3 as int, r0 as int, r1 as int, r2 as int, r3 as int);
            assert(r.val() + c3 * 0x10000000000000000000000000000000000000000000000000000000000000000
                == self.val() * base + add);
            assert(c3 == 0) by (nonlinear_arith)
                requires
                    r.val() + c3 * 0x10000000000000000000000000000000000000000000000000000000000000000
                        == self.val() * base + add,
                    self.val() * base + add
                        < 0x10000000000000000000000000000000000000000000000000000000000000000,
                    c3 >= 0,
                    r.val() >= 0,
            ;
        }
        r
    }

    /// Divides by the sparse base, returning the quotient and the lowest
    /// base-8 digit. The top limb must be clear, as it is for every packed
    /// sparse word.
    pub fn div8_with_digit(self) -> (r: (Self, u8))
        requires
            self.limb3 == 0,
        ensures
            r.0.val() == self.val() / 8,
            r.1 == self.val() % 8,
            r.0.limb3 == 0,
            r.1 < 8,
    {
        let l0 = self.limb0;
        let l1 = self.limb1;
        let l2 = self.limb2;
        let d: u8 = (l0 & 7) as u8;
        let n0: u64 = (l0 >> 3) | (l1 << 61);
        let n1: u64 = (l1 >> 3) | (l2 << 61);
        let n2: u64 = l2 >> 3;
        let q = FieldElement { limb0: n0, limb1: n1, limb2: n2, limb3: 0 };
        proof {
            assert((l0 & 7) == l0 % 8) by (bit_vector);
            assert(l0 == (l0 >> 3) * 8 + (l0 & 7)) by (bit_vector);
            assert(l1 == (l1 >> 3) * 8 + (l1 & 7)) by (bit_vector);
            assert(l2 == (l2 >> 3) * 8 + (l2 & 7)) by (bit_vector);
            assert((l0 >> 3) | (l1 << 61) == (l0 >> 3) + (l1 & 7) * 0x2000000000000000)
                by (bit_vector);
            assert((l1 >> 3) | (l2 << 61) == (l1 >> 3) + (l2 & 7) * 0x2000000000000000)
                by (bit_vector);
            assert(l0 >> 3 <= l0 && l1 >> 3 <= l1 && l2 >> 3 <= l2) by (bit_vector);
            assert((l0 & 7) < 8 && (l1 & 7) < 8 && (l2 & 7) < 8) by (bit_vector);
            lemma_div8_chain(l0 as int, l1 as int, l2 as int, (l0 >> 3) as int,
                (l1 >> 3) as int, (l2 >> 3) as int, (l0 & 7) as int, (l1 & 7) as int,
                (l2 & 7) as int);
            assert(self.val() == q.val() * 8 + d);
            vstd::arithmetic::div_mod::lemma_fundamental_div_mod_converse(
                self.val() as int, 8, q.val() as int, d as int);
        }
        (q, d)
    }
}

/// The value of the two low limbs of an element whose two high limbs are
/// clear, as the 128-bit integer the circuit rows carry.
pub fn extract_u128(fe: &FieldElement) -> (r: u128)
    requires
        fe.limb2 == 0,
        fe.limb3 == 0,
    ensures
        r == fe.val(),
{
    let r: u128 = (fe.limb0 as u128) | ((fe.limb1 as u128) << 64);
    proof {
        let a = fe.limb0 as u128;
        let b = fe.limb1 as u128;
        assert(a | (b << 64) == a + b * 0x10000000000000000) by (bit_vector)
            requires
                a < 0x10000000000000000,
                b < 0x10000000000000000,
        ;
    }
    r
}

/// The product of two limb-sized factors plus a limb-sized addend stays under
/// 2 to the 128.
proof fn lemma_mul_add_fits(a: u64, b: u64, c: u64)
    ensures
        a * b + c < 0x100000000000000000000000000000000,
{
    assert(a * b <= 0xffffffffffffffff * 0xffffffffffffffff) by (nonlinear_arith)
        requires
            a <= 0xffffffffffffffff,
            b <= 0xffffffffffffffff,
    ;
}

/// A 128-bit value is its high and low 64-bit halves recombined.
proof fn lemma_split_u128(p: u128)
    ensures
        p == ((p >> 64) as u64) * 0x10000000000000000 + (p as u64),
        (p >> 64) < 0x10000000000000000,
{
    assert(p == (p >> 64) * 0x10000000000000000 + (p as u64) && (p >> 64)
        < 0x10000000000000000 && ((p >> 64) as u64) == (p >> 64)) by (bit_vector);
}

/// Telescoping of the limb-wise multiply-and-carry: the output limbs and the
/// final carry recombine to the exact product plus addend.
proof fn lemma_carry_chain(
    l0: int, l1: int, l2: int, l3: int, base: int, add: int,
    c0: int, c1: int, c2: int, c3: int,
    r0: int, r1: int, r2: int, r3: int,
)
    requires
        l0 * base + add == c0 * 0x10000000000000000 + r0,
        l1 * base + c0 == c1 * 0x10000000000000000 + r1,
        l2 * base + c1 == c2 * 0x10000000000000000 + r2,
        l3 * base + c2 == c3 * 0x10000000000000000 + r3,
    ensures
        r0 + r1 * 0x10000000000000000 + r2 * 0x100000000000000000000000000000000 + r3
            * 0x1000000000000000000000000000000000000000000000000 + c3
            * 0x10000000000000000000000000000000000000000000000000000000000000000
            == (l0 + l1 * 0x10000000000000000 + l2 * 0x100000000000000000000000000000000 + l3
            * 0x1000000000000000000000000000000000000000000000000) * base + add,
{
    assert(r0 + r1 * 0x10000000000000000 + r2 * 0x100000000000000000000000000000000 + r3
        * 0x1000000000000000000000000000000000000000000000000 + c3
        * 0x10000000000000000000000000000000000000000000000000000000000000000
        == (l0 + l1 * 0x10000000000000000 + l2 * 0x100000000000000000000000000000000 + l3
        * 0x1000000000000000000000000000000000000000000000000) * base + add) by (nonlinear_arith)
        requires
            l0 * base + add == c0 * 0x10000000000000000 + r0,
            l1 * base + c0 == c1 * 0x10000000000000000 + r1,
            l2 * base + c1 == c2 * 0x10000000000000000 + r2,
            l3 * base + c2 == c3 * 0x10000000000000000 + r3,
    ;
}

/// Telescoping of the limb-wise shift by three: the shifted limbs recombine
/// to eight times less, with the lowest digit as remainder.
proof fn lemma_div8_chain(
    l0: int, l1: int, l2: int, q0: int, q1: int, q2: int, r0: int, r1: int, r2: int,
)
    requires
        l0 == q0 * 8 + r0,
        l1 == q1 * 8 + r1,
        l2 == q2 * 8 + r2,
    ensures
        l0 + l1 * 0x10000000000000000 + l2 * 0x100000000000000000000000000000000 == ((q0 + r1
            * 0x2000000000000000) + (q1 + r2 * 0x2000000000000000) * 0x10000000000000000 + q2
            * 0x100000000000000000000000000000000) * 8 + r0,
{
    assert(l0 + l1 * 0x10000000000000000 + l2 * 0x100000000000000000000000000000000 == ((q0 + r1
        * 0x2000000000000000) + (q1 + r2 * 0x2000000000000000) * 0x10000000000000000 + q2
        * 0x100000000000000000000000000000000) * 8 + r0) by (nonlinear_arith)
        requires
            l0 == q0 * 8 + r0,
            l1 == q1 * 8 + r1,
            l2 == q2 * 8 + r2,
    ;
}

/// The value of four limbs is the lowest limb modulo 256.
proof fn lemma_low_mod(l0: int, l1: int, l2: int, l3: int)
    requires
        0 <= l0,
    ensures
        (l0 + l1 * 0x10000000000000000 + l2 * 0x100000000000000000000000000000000 + l3
            * 0x1000000000000000000000000000000000000000000000000) % 256 == l0 % 256,
{
    let s = l1 * 0x100000000000000 + l2 * 0x1000000000000000000000000000000 + l3
        * 0x10000000000000000000000000000000000000000000000;
    assert(l0 + l1 * 0x10000000000000000 + l2 * 0x100000000000000000000000000000000 + l3
        * 0x1000000000000000000000000000000000000000000000000 == l0 + (l1 * 0x100000000000000
        + l2 * 0x1000000000000000000000000000000 + l3
        * 0x10000000000000000000000000000000000000000000000) * 256) by (nonlinear_arith);
    vstd::arithmetic::div_mod::lemma_mod_multiples_vanish(s, l0, 256);
}

} // verus!
