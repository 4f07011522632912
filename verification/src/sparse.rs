//! The sparse word codec: packs an array of small bit-values into one field
//! element whose base-8 digits each carry one bit of a 64-bit word, and
//! unpacks such an element back into its digits.

use vstd::prelude::*;
use vstd::arithmetic::power::pow;
use crate::BIT_SIZE;
use crate::field_element::FieldElement;
use crate::word_parts::PartInfo;

verus! {

/// The integer whose base-`base` digits, least significant first, are the
/// entries of `bits`.
pub open spec fn packed_value(bits: Seq<u8>, base: int) -> int
    decreases bits.len(),
{
    if bits.len() == 0 {
        0
    } else {
        bits[0] + base * packed_value(bits.skip(1), base)
    }
}

/// Digit `i` of `v` in base 8.
pub open spec fn sparse_digit(v: int, i: nat) -> int {
    (v / pow(8, i)) % 8
}

/// The first `n` base-8 digits of `v`, least significant first.
pub open spec fn sparse_digits(v: int, n: nat) -> Seq<u8> {
    Seq::new(n, |i: int| sparse_digit(v, i as nat) as u8)
}


/// The numeric value of 8 to the 21.
proof fn lemma_pow8_21()
    ensures
        pow(8, 21) == 0x8000000000000000,
{
    vstd::arithmetic::power2::lemma2_to64();
    vstd::arithmetic::power2::lemma2_to64_rest();
    vstd::arithmetic::power2::lemma_pow2(3);
    vstd::arithmetic::power2::lemma_pow2(63);
    vstd::arithmetic::power::lemma_pow_multiplies(2, 3, 21);
}

/// The numeric value of 8 to the 64.
proof fn lemma_pow8_64()
    ensures
        pow(8, 64) == 0x1000000000000000000000000000000000000000000000000,
{
    vstd::arithmetic::power2::lemma2_to64();
    vstd::arithmetic::power2::lemma2_to64_rest();
    vstd::arithmetic::power2::lemma_pow2(3);
    vstd::arithmetic::power2::lemma_pow2(192);
    vstd::arithmetic::power2::lemma_pow2_adds(64, 64);
    vstd::arithmetic::power2::lemma_pow2_adds(128, 64);
    vstd::arithmetic::power::lemma_pow_multiplies(2, 3, 64);
}

/// The numeric value of 16 to the 64.
proof fn lemma_pow16_64()
    ensures
        pow(16, 64) == 0x10000000000000000000000000000000000000000000000000000000000000000,
{
    vstd::arithmetic::power2::lemma2_to64();
    vstd::arithmetic::power2::lemma2_to64_rest();
    vstd::arithmetic::power2::lemma_pow2(4);
    vstd::arithmetic::power2::lemma_pow2(256);
    vstd::arithmetic::power2::lemma_pow2_adds(64, 64);
    vstd::arithmetic::power2::lemma_pow2_adds(128, 64);
    vstd::arithmetic::power2::lemma_pow2_adds(192, 64);
    vstd::arithmetic::power::lemma_pow_multiplies(2, 4, 64);
}

/// A packed value is nonnegative and below `base` to the number of digits.
pub proof fn lemma_packed_value_bound(bits: Seq<u8>, base: int)
    requires
        base >= 1,
        forall|i: int| 0 <= i < bits.len() ==> bits[i] < base,
    ensures
        0 <= packed_value(bits, base) < pow(base, bits.len()),
    decreases bits.len(),
{
    if bits.len() == 0 {
        assert(pow(base, 0) == 1) by {
            vstd::arithmetic::power::lemma_pow0(base);
        }
    } else {
        lemma_packed_value_bound(bits.skip(1), base);
        let rest = packed_value(bits.skip(1), base);
        let p = pow(base, (bits.len() - 1) as nat);
        assert(pow(base, bits.len()) == base * p) by {
            reveal(pow);
        }
        assert(bits[0] + base * rest < base * p) by (nonlinear_arith)
            requires
                bits[0] < base,
                rest < p,
                rest >= 0,
                base >= 1,
        ;
        assert(packed_value(bits, base) >= 0) by (nonlinear_arith)
            requires
                packed_value(bits, base) == bits[0] + base * rest,
                bits[0] >= 0,
                rest >= 0,
                base >= 1,
        ;
    }
}

/// A power is no larger when its base is no larger.
proof fn lemma_pow_le_base(b1: nat, b2: nat, e: nat)
    requires
        1 <= b1 <= b2,
    ensures
        pow(b1 as int, e) <= pow(b2 as int, e),
    decreases e,
{
    if e == 0 {
        vstd::arithmetic::power::lemma_pow0(b1 as int);
        vstd::arithmetic::power::lemma_pow0(b2 as int);
    } else {
        lemma_pow_le_base(b1, b2, (e - 1) as nat);
        let p1 = pow(b1 as int, (e - 1) as nat);
        let p2 = pow(b2 as int, (e - 1) as nat);
        vstd::arithmetic::power::lemma_pow_positive(b1 as int, (e - 1) as nat);
        assert(b1 * p1 <= b2 * p2) by (nonlinear_arith)
            requires
                0 <= b1 <= b2,
                0 <= p1 <= p2,
        ;
        assert(pow(b1 as int, e) == b1 * p1) by {
            reveal(pow);
        }
        assert(pow(b2 as int, e) == b2 * p2) by {
            reveal(pow);
        }
    }
}

/// Packs digit values below `base` into one field element by a Horner fold,
/// so that entry `i` contributes `base` to the `i` times its value.
pub fn pack_with_base(bits: &[u8], base: usize) -> (r: FieldElement)
    requires
        2 <= base <= 16,
        bits@.len() <= 64,
        forall|i: int| 0 <= i < bits@.len() ==> bits@[i] < base,
    ensures
        r.val() == packed_value(bits@, base as int),
{
    let len = bits.len();
    let mut acc = FieldElement::zero();
    let mut i: usize = len;
    proof {
        assert(bits@.skip(len as int) =~= Seq::<u8>::empty());
    }
    while i > 0
        invariant
            i <= len,
            len == bits@.len() <= 64,
            2 <= base <= 16,
            forall|j: int| 0 <= j < bits@.len() ==> bits@[j] < base,
            acc.val() == packed_value(bits@.skip(i as int), base as int),
        decreases i,
    {
        i = i - 1;
        proof {
            assert(bits@.skip(i as int).skip(1) =~= bits@.skip(i as int + 1));
            assert(packed_value(bits@.skip(i as int), base as int) == bits@[i as int] + base
                * packed_value(bits@.skip(i as int + 1), base as int));
            lemma_packed_value_bound(bits@.skip(i as int), base as int);
            vstd::arithmetic::power::lemma_pow_increases(base as nat, (len - i) as nat, 64);
            lemma_pow_le_base(base as nat, 16, 64);
            lemma_pow16_64();
            assert(packed_value(bits@.skip(i as int), base as int) < pow(base as int, 64));
            assert(acc.val() == packed_value(bits@.skip(i as int + 1), base as int));
            assert(acc.val() * base == base * packed_value(bits@.skip(i as int + 1),
                base as int)) by (nonlinear_arith)
                requires
                    acc.val() == packed_value(bits@.skip(i as int + 1), base as int),
            ;
            assert(acc.val() * base + bits@[i as int] == packed_value(bits@.skip(i as int),
                base as int));
        }
        acc = acc.mul_small_add(base as u64, bits[i] as u64);
    }
    proof {
        assert(bits@.skip(0) =~= bits@);
    }
    acc
}

/// Packs bits in the range `[0, BIT_SIZE)` into a sparse keccak word.
pub fn pack(bits: &[u8]) -> (r: FieldElement)
    requires
        bits@.len() <= 64,
        forall|i: int| 0 <= i < bits@.len() ==> bits@[i] < 8,
    ensures
        r.val() == packed_value(bits@, 8),
        r.val() < 0x1000000000000000000000000000000000000000000000000,
{
    proof {
        lemma_packed_value_bound(bits@, 8);
        vstd::arithmetic::power::lemma_pow_increases(8, bits@.len(), 64);
        lemma_pow8_64();
    }
    pack_with_base(bits, BIT_SIZE)
}

/// The integer whose base-8 digits are the entries of `bits` selected at
/// `positions`, least significant first.
pub open spec fn packed_part_value(bits: Seq<u8>, positions: Seq<usize>) -> int
    decreases positions.len(),
{
    if positions.len() == 0 {
        0
    } else {
        bits[positions[0] as int] + 8 * packed_part_value(bits, positions.skip(1))
    }
}

/// A part value is nonnegative and below 8 to the number of selected bits.
pub proof fn lemma_packed_part_value_bound(bits: Seq<u8>, positions: Seq<usize>)
    requires
        forall|i: int| 0 <= i < bits.len() ==> bits[i] < 8,
        forall|j: int| 0 <= j < positions.len() ==> positions[j] < bits.len(),
    ensures
        0 <= packed_part_value(bits, positions) < pow(8, positions.len()),
    decreases positions.len(),
{
    if positions.len() == 0 {
        assert(pow(8, 0) == 1) by {
            vstd::arithmetic::power::lemma_pow0(8);
        }
    } else {
        lemma_packed_part_value_bound(bits, positions.skip(1));
        let rest = packed_part_value(bits, positions.skip(1));
        let p = pow(8, (positions.len() - 1) as nat);
        assert(pow(8, positions.len()) == 8 * p) by {
            reveal(pow);
        }
        assert(bits[positions[0] as int] + 8 * rest < 8 * p && bits[positions[0] as int] + 8
            * rest >= 0) by (nonlinear_arith)
            requires
                0 <= bits[positions[0] as int] < 8,
                0 <= rest < p,
        ;
    }
}

/// Decodes the bits using the position data found in the part info.
pub fn pack_part(bits: &[u8], info: &PartInfo) -> (r: u64)
    requires
        forall|i: int| 0 <= i < bits@.len() ==> bits@[i] < 8,
        forall|j: int| 0 <= j < info.bits@.len() ==> info.bits@[j] < bits@.len(),
        info.bits@.len() <= 21,
    ensures
        r == packed_part_value(bits@, info.bits@),
{
    let len = info.bits.len();
    let mut acc: u64 = 0;
    let mut i: usize = len;
    proof {
        assert(info.bits@.skip(len as int) =~= Seq::<usize>::empty());
    }
    while i > 0
        invariant
            i <= len,
            len == info.bits@.len() <= 21,
            forall|j: int| 0 <= j < bits@.len() ==> bits@[j] < 8,
            forall|j: int| 0 <= j < info.bits@.len() ==> info.bits@[j] < bits@.len(),
            acc == packed_part_value(bits@, info.bits@.skip(i as int)),
        decreases i,
    {
        i = i - 1;
        proof {
            assert(info.bits@.skip(i as int).skip(1) =~= info.bits@.skip(i as int + 1));
            assert(packed_part_value(bits@, info.bits@.skip(i as int))
                == bits@[info.bits@[i as int] as int] + 8 * packed_part_value(bits@,
                info.bits@.skip(i as int + 1)));
            lemma_packed_part_value_bound(bits@, info.bits@.skip(i as int));
            vstd::arithmetic::power::lemma_pow_increases(8, (len - i) as nat, 21);
            lemma_pow8_21();
            assert(acc * 8 + bits@[info.bits@[i as int] as int] == packed_part_value(bits@,
                info.bits@.skip(i as int)));
        }
        acc = acc * 8 + (bits[info.bits[i]] as u64);
    }
    proof {
        assert(info.bits@.skip(0) =~= info.bits@);
    }
    acc
}

/// Unpacks a sparse keccak word into its 64 base-8 digits. The value must
/// stay below 8 to the 64, as every packed sparse word does; the digits then
/// repack to exactly the given element.
pub fn unpack(packed: &FieldElement) -> (r: Vec<u8>)
    requires
        packed.val() < 0x1000000000000000000000000000000000000000000000000,
    ensures
        r@ == sparse_digits(packed.val() as int, 64),
        r@.len() == 64,
        packed_value(r@, 8) == packed.val(),
{
    proof {
        assert(packed.limb3 == 0) by (nonlinear_arith)
            requires
                packed.val() == packed.limb0 + packed.limb1 * 0x10000000000000000 + packed.limb2
                    * 0x100000000000000000000000000000000 + packed.limb3
                    * 0x1000000000000000000000000000000000000000000000000,
                packed.val() < 0x1000000000000000000000000000000000000000000000000,
                packed.limb0 >= 0,
                packed.limb1 >= 0,
                packed.limb2 >= 0,
                packed.limb3 >= 0,
        ;
    }
    let mut digits: Vec<u8> = Vec::new();
    let mut cur = *packed;
    let mut i: usize = 0;
    proof {
        vstd::arithmetic::power::lemma_pow0(8);
        vstd::arithmetic::div_mod::lemma_div_basics(packed.val() as int);
    }
    while i < 64
        invariant
            i <= 64,
            digits@.len() == i,
            cur.limb3 == 0,
            cur.val() == packed.val() as int / pow(8, i as nat),
            forall|j: int| 0 <= j < i ==> digits@[j] == sparse_digit(packed.val() as int,
                j as nat) as u8,
        decreases 64 - i,
    {
        let (q, d) = cur.div8_with_digit();
        proof {
            vstd::arithmetic::power::lemma_pow_positive(8, i as nat);
            vstd::arithmetic::div_mod::lemma_div_denominator(packed.val() as int,
                pow(8, i as nat), 8);
            assert(pow(8, (i + 1) as nat) == pow(8, i as nat) * 8) by {
                reveal(pow);
                vstd::arithmetic::power::lemma_pow_adds(8, i as nat, 1);
                vstd::arithmetic::power::lemma_pow1(8);
            }
        }
        digits.push(d);
        cur = q;
        i += 1;
    }
    proof {
        assert(digits@ =~= sparse_digits(packed.val() as int, 64));
        lemma_sparse_digits_repack(packed.val() as int, 64);
        lemma_pow8_64();
        vstd::arithmetic::div_mod::lemma_small_mod(packed.val(), pow(8, 64) as nat);
    }
    digits
}

/// The first `n` base-8 digits of a nonnegative value repack to the value
/// modulo 8 to the `n`.
pub proof fn lemma_sparse_digits_repack(v: int, n: nat)
    requires
        v >= 0,
    ensures
        packed_value(sparse_digits(v, n), 8) == v % pow(8, n),
    decreases n,
{
    vstd::arithmetic::power::lemma_pow_positive(8, n);
    if n == 0 {
        vstd::arithmetic::power::lemma_pow0(8);
        vstd::arithmetic::div_mod::lemma_fundamental_div_mod_converse(v, 1, v, 0);
    } else {
        let s = sparse_digits(v, n);
        lemma_sparse_digits_repack(v / 8, (n - 1) as nat);
        assert(s.skip(1) =~= sparse_digits(v / 8, (n - 1) as nat)) by {
            assert forall|j: int| 0 <= j < n - 1 implies s.skip(1)[j] == sparse_digits(v / 8,
                (n - 1) as nat)[j] by {
                vstd::arithmetic::power::lemma_pow_positive(8, j as nat);
                vstd::arithmetic::div_mod::lemma_div_denominator(v, 8, pow(8, j as nat));
                assert(pow(8, (j + 1) as nat) == 8 * pow(8, j as nat)) by {
                    reveal(pow);
                }
            }
        }
        assert(s[0] == (v % 8) as u8) by {
            vstd::arithmetic::power::lemma_pow0(8);
            vstd::arithmetic::div_mod::lemma_div_basics(v);
        }
        assert(packed_value(s, 8) == v % 8 + 8 * ((v / 8) % pow(8, (n - 1) as nat)));
        vstd::arithmetic::power::lemma_pow_positive(8, (n - 1) as nat);
        vstd::arithmetic::div_mod::lemma_mod_breakdown(v, 8, pow(8, (n - 1) as nat));
        assert(pow(8, n) == 8 * pow(8, (n - 1) as nat)) by {
            reveal(pow);
        }
    }
}

/// Law: the sparse codec round-trips. Packing any 64 digit values below 8 and
/// reading the base-8 digits of the result gives back exactly those values.
pub proof fn lemma_sparse_round_trip(bits: Seq<u8>)
    requires
        bits.len() == 64,
        forall|i: int| 0 <= i < 64 ==> bits[i] < 8,
    ensures
        sparse_digits(packed_value(bits, 8), 64) == bits,
{
    lemma_sparse_digits_unpack(bits);
}

/// The base-8 digits of a packed digit string are the string itself.
proof fn lemma_sparse_digits_unpack(bits: Seq<u8>)
    requires
        forall|i: int| 0 <= i < bits.len() ==> bits[i] < 8,
    ensures
        sparse_digits(packed_value(bits, 8), bits.len()) == bits,
    decreases bits.len(),
{
    let n = bits.len();
    let v = packed_value(bits, 8);
    if n == 0 {
        assert(sparse_digits(v, 0) =~= bits);
    } else {
        let rest = packed_value(bits.skip(1), 8);
        lemma_packed_value_bound(bits.skip(1), 8);
        assert(v == bits[0] + 8 * rest);
        vstd::arithmetic::div_mod::lemma_fundamental_div_mod_converse(v, 8, rest, bits[0] as int);
        lemma_sparse_digits_unpack(bits.skip(1));
        assert(sparse_digits(v, n) =~= bits) by {
            assert forall|j: int| 0 <= j < n implies sparse_digits(v, n)[j] == bits[j] by {
                if j == 0 {
                    vstd::arithmetic::power::lemma_pow0(8);
                    vstd::arithmetic::div_mod::lemma_div_basics(v);
                } else {
                    vstd::arithmetic::power::lemma_pow_positive(8, (j - 1) as nat);
                    vstd::arithmetic::div_mod::lemma_div_denominator(v, 8,
                        pow(8, (j - 1) as nat));
                    assert(pow(8, j as nat) == 8 * pow(8, (j - 1) as nat)) by {
                        reveal(pow);
                    }
                    assert(sparse_digits(rest, (n - 1) as nat)[j - 1] == bits.skip(1)[j - 1]);
                }
            }
        }
    }
}

} // verus!
