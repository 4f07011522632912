//! The instance packing codec: raw input bytes in and out of the field
//! elements of the public-input column, eight bytes per element, packed
//! little-endian and zero-padded.

use vstd::prelude::*;
use vstd::arithmetic::power::pow;
use crate::NUM_BYTES_PER_WORD;
use crate::field_element::FieldElement;

verus! {

/// The little-endian integer value of a byte string.
pub open spec fn le_word(s: Seq<u8>) -> int
    decreases s.len(),
{
    if s.len() == 0 {
        0
    } else {
        s[0] + 256 * le_word(s.skip(1))
    }
}

/// The words of one input: its bytes in groups of eight, the last group
/// zero-padded, each read as a little-endian integer.
pub open spec fn packed_words(s: Seq<u8>) -> Seq<int>
    decreases s.len(),
{
    if s.len() == 0 {
        Seq::empty()
    } else if s.len() <= 8 {
        seq![le_word(s)]
    } else {
        seq![le_word(s.take(8))] + packed_words(s.skip(8))
    }
}

/// The public-input column for a list of inputs: all words of the first
/// input, then all words of the second, and so on.
pub open spec fn instance_of(inputs: Seq<Seq<u8>>) -> Seq<int>
    decreases inputs.len(),
{
    if inputs.len() == 0 {
        Seq::empty()
    } else {
        packed_words(inputs[0]) + instance_of(inputs.skip(1))
    }
}

/// The values of a list of field elements.
pub open spec fn element_values(s: Seq<FieldElement>) -> Seq<int> {
    Seq::new(s.len(), |i: int| s[i].val() as int)
}

/// A little-endian byte value is nonnegative and below 256 to the length.
pub proof fn lemma_le_word_bound(s: Seq<u8>)
    ensures
        0 <= le_word(s) < pow(256, s.len()),
    decreases s.len(),
{
    if s.len() == 0 {
        vstd::arithmetic::power::lemma_pow0(256);
    } else {
        lemma_le_word_bound(s.skip(1));
        let rest = le_word(s.skip(1));
        let p = pow(256, (s.len() - 1) as nat);
        assert(pow(256, s.len()) == 256 * p) by {
            reveal(pow);
        }
        assert(s[0] + 256 * rest < 256 * p && s[0] + 256 * rest >= 0) by (nonlinear_arith)
            requires
                0 <= s[0] < 256,
                0 <= rest < p,
        ;
    }
}

/// The numeric value of 256 to the 8.
pub proof fn lemma_pow256_8()
    ensures
        pow(256, 8) == 0x10000000000000000,
{
    vstd::arithmetic::power2::lemma2_to64();
    vstd::arithmetic::power2::lemma2_to64_rest();
    vstd::arithmetic::power2::lemma_pow2(8);
    vstd::arithmetic::power2::lemma_pow2(64);
    vstd::arithmetic::power::lemma_pow_multiplies(2, 8, 8);
}

/// Reads up to eight bytes at `pos` as one zero-padded little-endian word.
fn word_at(v: &Vec<u8>, pos: usize) -> (r: u64)
    requires
        pos < v@.len(),
    ensures
        v@.len() - pos >= 8 ==> r == le_word(v@.subrange(pos as int, pos + 8)),
        v@.len() - pos < 8 ==> r == le_word(v@.subrange(pos as int, v@.len() as int)),
{
    let end = if v.len() - pos >= NUM_BYTES_PER_WORD {
        pos + NUM_BYTES_PER_WORD
    } else {
        v.len()
    };
    let ghost chunk = v@.subrange(pos as int, end as int);
    let mut w: u64 = 0;
    let mut k: usize = end - pos;
    proof {
        assert(chunk.skip(k as int) =~= Seq::<u8>::empty());
    }
    while k > 0
        invariant
            k <= end - pos <= 8,
            pos < end <= v@.len(),
            chunk == v@.subrange(pos as int, end as int),
            w == le_word(chunk.skip(k as int)),
        decreases k,
    {
        k = k - 1;
        proof {
            assert(chunk.skip(k as int).skip(1) =~= chunk.skip(k as int + 1));
            lemma_le_word_bound(chunk.skip(k as int));
            vstd::arithmetic::power::lemma_pow_increases(256, (chunk.len() - k) as nat, 8);
            lemma_pow256_8();
            assert(chunk[k as int] == v@[pos + k]);
        }
        w = w * 256 + (v[pos + k] as u64);
    }
    proof {
        assert(chunk.skip(0) =~= chunk);
    }
    w
}

/// One more input appends its words to the instance.
pub proof fn lemma_instance_push(inputs: Seq<Seq<u8>>, v: Seq<u8>)
    ensures
        instance_of(inputs.push(v)) == instance_of(inputs) + packed_words(v),
    decreases inputs.len(),
{
    assert(instance_of(inputs.push(v)) == packed_words(inputs.push(v)[0]) + instance_of(
        inputs.push(v).skip(1)));
    if inputs.len() == 0 {
        assert(inputs.push(v).skip(1) =~= Seq::<Seq<u8>>::empty());
        assert(inputs.push(v)[0] == v);
        assert(instance_of(Seq::<Seq<u8>>::empty()) == Seq::<int>::empty());
        assert(instance_of(inputs) == Seq::<int>::empty());
        assert(instance_of(inputs.push(v)) =~= instance_of(inputs) + packed_words(v));
    } else {
        assert(inputs.push(v).skip(1) =~= inputs.skip(1).push(v));
        lemma_instance_push(inputs.skip(1), v);
        assert(inputs.push(v)[0] == inputs[0]);
        assert(instance_of(inputs) == packed_words(inputs[0]) + instance_of(inputs.skip(1)));
        assert(instance_of(inputs.push(v)) =~= instance_of(inputs) + packed_words(v));
    }
}

/// Packs each input byte array into field elements, eight bytes per element,
/// zero-padding the final partial group, each group read as a little-endian
/// 64-bit integer, with all words of one input preceding those of the next.
pub fn pack_input_to_instance(input: &Vec<Vec<u8>>) -> (r: Vec<FieldElement>)
    ensures
        element_values(r@) == instance_of(input.deep_view()),
{
    let mut out: Vec<FieldElement> = Vec::new();
    let mut i: usize = 0;
    proof {
        assert(input.deep_view().take(0) =~= Seq::<Seq<u8>>::empty());
        assert(element_values(out@) =~= instance_of(input.deep_view().take(0)));
    }
    while i < input.len()
        invariant
            i <= input@.len(),
            input.deep_view().len() == input@.len(),
            forall|l: int| 0 <= l < input@.len() ==> input.deep_view()[l] == #[trigger] input@[l]@,
            element_values(out@) == instance_of(input.deep_view().take(i as int)),
        decreases input@.len() - i,
    {
        let v = &input[i];
        let ghost vs = v@;
        let mut pos: usize = 0;
        proof {
            assert(vs.skip(0) =~= vs);
            assert(element_values(out@) + packed_words(vs.skip(0)) =~= instance_of(
                input.deep_view().take(i as int)) + packed_words(vs));
        }
        while pos < v.len()
            invariant
                pos <= vs.len(),
                vs == v@,
                v == &input[i as int],
                i < input@.len(),
                input.deep_view().len() == input@.len(),
                forall|l: int| 0 <= l < input@.len() ==> input.deep_view()[l] == #[trigger]
                    input@[l]@,
                element_values(out@) + packed_words(vs.skip(pos as int)) == instance_of(
                    input.deep_view().take(i as int)) + packed_words(vs),
            decreases vs.len() - pos,
        {
            let w = word_at(v, pos);
            let fe = FieldElement::from_u64(w);
            let ghost rem = vs.skip(pos as int);
            proof {
                if vs.len() - pos >= 8 {
                    assert(rem.take(8) =~= vs.subrange(pos as int, pos + 8));
                    assert(rem.skip(8) =~= vs.skip(pos + 8));
                    if rem.len() == 8 {
                        assert(rem.take(8) =~= rem);
                        assert(vs.skip(pos + 8) =~= Seq::<u8>::empty());
                        assert(packed_words(rem) =~= seq![le_word(rem.take(8))]);
                    } else {
                        assert(packed_words(rem) == seq![le_word(rem.take(8))] + packed_words(
                            rem.skip(8)));
                    }
                } else {
                    assert(rem =~= vs.subrange(pos as int, vs.len() as int));
                    assert(rem.len() > 0);
                    assert(packed_words(rem) =~= seq![le_word(rem)]);
                    assert(vs.skip(vs.len() as int) =~= Seq::<u8>::empty());
                }
                assert(element_values(out@.push(fe)) =~= element_values(out@) + seq![
                    fe.val() as int]);
            }
            out.push(fe);
            pos = if v.len() - pos >= NUM_BYTES_PER_WORD {
                pos + NUM_BYTES_PER_WORD
            } else {
                v.len()
            };
            proof {
                assert(element_values(out@) + packed_words(vs.skip(pos as int)) =~= instance_of(
                    input.deep_view().take(i as int)) + packed_words(vs));
            }
        }
        proof {
            assert(vs.skip(vs.len() as int) =~= Seq::<u8>::empty());
            lemma_instance_push(input.deep_view().take(i as int), vs);
            assert(input.deep_view().take(i as int).push(vs) =~= input.deep_view().take(
                i as int + 1));
            assert(element_values(out@) =~= instance_of(input.deep_view().take(i as int + 1)));
        }
        i += 1;
    }
    proof {
        assert(input.deep_view().take(input@.len() as int) =~= input.deep_view());
    }
    out
}

/// Converts field elements to a vector of bytes, one byte per element: the
/// lowest byte of each element's little-endian representation.
pub fn unpack_input(instance: &Vec<FieldElement>) -> (r: Vec<u8>)
    ensures
        r@.len() == instance@.len(),
        forall|i: int| 0 <= i < r@.len() ==> r@[i] == instance@[i].val() % 256,
{
    let mut out: Vec<u8> = Vec::new();
    let mut i: usize = 0;
    while i < instance.len()
        invariant
            i <= instance@.len(),
            out@.len() == i,
            forall|l: int| 0 <= l < i ==> out@[l] == instance@[l].val() % 256,
        decreases instance@.len() - i,
    {
        out.push(instance[i].low_byte());
        i += 1;
    }
    out
}

/// Byte `k` of the little-endian encoding of a word value.
pub open spec fn le_byte(w: int, k: int) -> int {
    (w / pow(256, k as nat)) % 256
}

/// Law: the eight-byte packing loses nothing. Each packed word of a byte
/// string gives back, byte for byte, the eight bytes of its group, with the
/// final group read as zero-padded.
pub proof fn lemma_instance_round_trip(s: Seq<u8>)
    ensures
        forall|i: int| 0 <= i < s.len() ==> #[trigger] le_byte(packed_words(s)[i / 8], i % 8)
            == s[i],
        forall|i: int| s.len() <= i < 8 * packed_words(s).len() ==> #[trigger] le_byte(
            packed_words(s)[i / 8], i % 8) == 0,
        8 * packed_words(s).len() < s.len() + 8,
        s.len() <= 8 * packed_words(s).len(),
    decreases s.len(),
{
    if s.len() == 0 {
    } else if s.len() <= 8 {
        lemma_le_word_digits(s);
        assert forall|i: int| 0 <= i < 8 * packed_words(s).len() implies #[trigger] (packed_words(s)[i / 8])
            == le_word(s) && 0 <= i % 8 < 8 && i / 8 == 0 by {
            vstd::arithmetic::div_mod::lemma_fundamental_div_mod_converse(i, 8, 0, i);
        }
    } else {
        lemma_le_word_digits(s.take(8));
        lemma_instance_round_trip(s.skip(8));
        let w = packed_words(s);
        let rest = packed_words(s.skip(8));
        assert(w == seq![le_word(s.take(8))] + rest);
        assert(w.len() == 1 + rest.len());
        assert forall|i: int| 0 <= i < s.len() implies #[trigger] le_byte(w[i / 8], i % 8)
            == s[i] by {
            vstd::arithmetic::div_mod::lemma_fundamental_div_mod(i, 8);
            if i < 8 {
                vstd::arithmetic::div_mod::lemma_fundamental_div_mod_converse(i, 8, 0, i);
                assert(w[0] == le_word(s.take(8)));
                assert(le_byte(le_word(s.take(8)), i) == s.take(8)[i]);
                assert(s.take(8)[i] == s[i]);
            } else {
                vstd::arithmetic::div_mod::lemma_fundamental_div_mod_converse(i - 8, 8, i / 8
                    - 1, i % 8);
                assert(1 <= i / 8 < w.len());
                assert(w[i / 8] == rest[i / 8 - 1]);
                assert(le_byte(rest[(i - 8) / 8], (i - 8) % 8) == s.skip(8)[i - 8]);
                assert(s.skip(8)[i - 8] == s[i]);
            }
        }
        assert forall|i: int| s.len() <= i < 8 * w.len() implies #[trigger] le_byte(w[i / 8],
            i % 8) == 0 by {
            vstd::arithmetic::div_mod::lemma_fundamental_div_mod(i, 8);
            vstd::arithmetic::div_mod::lemma_fundamental_div_mod_converse(i - 8, 8, i / 8 - 1,
                i % 8);
            assert(1 <= i / 8 < w.len());
            assert(w[i / 8] == rest[i / 8 - 1]);
            assert(i - 8 >= s.skip(8).len() && i - 8 < 8 * rest.len());
            assert(le_byte(rest[(i - 8) / 8], (i - 8) % 8) == 0);
        }
    }
}

/// The little-endian bytes of a short byte string's word are the string's
/// bytes, zero-padded.
proof fn lemma_le_word_digits(s: Seq<u8>)
    requires
        s.len() <= 8,
    ensures
        forall|k: int| 0 <= k < s.len() ==> le_byte(le_word(s), k) == s[k],
        forall|k: int| s.len() <= k < 8 ==> le_byte(le_word(s), k) == 0,
    decreases s.len(),
{
    vstd::arithmetic::power::lemma_pow0(256);
    if s.len() == 0 {
        assert forall|k: int| 0 <= k < 8 implies le_byte(0, k) == 0 by {
            vstd::arithmetic::power::lemma_pow_positive(256, k as nat);
            vstd::arithmetic::div_mod::lemma_div_basics(pow(256, k as nat));
            assert(0int / pow(256, k as nat) == 0) by {
                vstd::arithmetic::div_mod::lemma_div_basics_1(pow(256, k as nat));
            }
        }
    } else {
        lemma_le_word_digits(s.skip(1));
        let v = le_word(s);
        let rest = le_word(s.skip(1));
        lemma_le_word_bound(s.skip(1));
        vstd::arithmetic::div_mod::lemma_fundamental_div_mod_converse(v, 256, rest,
            s[0] as int);
        assert forall|k: int| 0 <= k < 8 implies (k < s.len() ==> #[trigger] le_byte(v, k)
            == s[k]) && (s.len() <= k ==> le_byte(v, k) == 0) by {
            if k == 0 {
                vstd::arithmetic::div_mod::lemma_div_basics(v);
                assert(v / pow(256, 0) == v);
                assert(le_byte(v, 0) == v % 256);
            } else {
                vstd::arithmetic::power::lemma_pow_positive(256, (k - 1) as nat);
                vstd::arithmetic::div_mod::lemma_div_denominator(v, 256,
                    pow(256, (k - 1) as nat));
                assert(pow(256, k as nat) == 256 * pow(256, (k - 1) as nat)) by {
                    reveal(pow);
                }
                assert(v / pow(256, k as nat) == rest / pow(256, (k - 1) as nat));
                assert(le_byte(v, k) == le_byte(rest, k - 1));
                if k < s.len() {
                    assert(le_byte(rest, k - 1) == s.skip(1)[k - 1]);
                    assert(s.skip(1)[k - 1] == s[k]);
                } else {
                    assert(le_byte(rest, k - 1) == 0);
                }
            }
        }
    }
}

} // verus!
