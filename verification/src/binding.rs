//! The circuit binding layer: walks the fixed per-round row layout that the
//! external witness engine fills, checks the rows against the inputs and the
//! reference digest, and selects the word cells that are bound to
//! public-input slots.

use vstd::prelude::*;
use vstd::arithmetic::power::pow;
use sha3::Digest;
use crate::{NUM_ROUNDS, NUM_WORDS_TO_ABSORB, NUM_BYTES_PER_WORD};
use crate::instance::{le_word, lemma_le_word_bound};

verus! {

/// The circuit shape parameters: the log2 row capacity and how many rows one
/// Keccak round occupies.
#[derive(Clone, Copy, Debug, PartialEq, Eq, Structural)]
pub struct ConfigParams {
    /// Log2 of the number of rows available to the circuit.
    pub k: u32,
    /// Rows used per Keccak round.
    pub rows_per_round: usize,
}

/// A modest default circuit shape.
pub fn default_config() -> (r: ConfigParams)
    ensures
        r.k == 14,
        r.rows_per_round == 25,
{
    ConfigParams { k: 14, rows_per_round: 25 }
}

/// One circuit row's cells, as the binding layer reads them: the finality
/// flag, the digest halves, the absorbed word and the remaining-byte counter.
#[derive(Clone, Copy, Debug, PartialEq, Eq, Structural)]
pub struct AssignedRow {
    /// Whether this row closes the hash of one input.
    pub is_final: bool,
    /// The low 16 digest bytes, big-endian, valid where `is_final` is set.
    pub hash_lo: u128,
    /// The high 16 digest bytes, big-endian, valid where `is_final` is set.
    pub hash_hi: u128,
    /// The word absorbed at this round, little-endian packed.
    pub word_value: u128,
    /// How many input bytes remain to be absorbed, this word included.
    pub bytes_left: u128,
}

/// The Keccak-256 digest, as the outside hash implementation computes it: a
/// function of the input bytes alone, 32 bytes long.
pub uninterp spec fn keccak256_of(input: Seq<u8>) -> Seq<u8>;

/// Relies on sha3's `Keccak256::digest`: the digest depends on the input
/// bytes alone and is 32 bytes long.
#[verifier::external_body]
fn keccak256_digest(input: &Vec<u8>) -> (r: Vec<u8>)
    ensures
        r@ == keccak256_of(input@),
        r@.len() == 32,
{
    sha3::Keccak256::digest(input.as_slice()).to_vec()
}

/// The big-endian integer value of a byte string.
pub open spec fn be_value(s: Seq<u8>) -> int
    decreases s.len(),
{
    if s.len() == 0 {
        0
    } else {
        be_value(s.drop_last()) * 256 + s.last()
    }
}

/// The numeric value of 256 to the 16.
proof fn lemma_pow256_16()
    ensures
        pow(256, 16) == 0x100000000000000000000000000000000,
{
    vstd::arithmetic::power2::lemma2_to64();
    vstd::arithmetic::power2::lemma2_to64_rest();
    vstd::arithmetic::power2::lemma_pow2(8);
    vstd::arithmetic::power2::lemma_pow2(128);
    vstd::arithmetic::power2::lemma_pow2_adds(64, 64);
    vstd::arithmetic::power::lemma_pow_multiplies(2, 8, 16);
}

/// A big-endian byte value is nonnegative and below 256 to the length.
proof fn lemma_be_value_bound(s: Seq<u8>)
    ensures
        0 <= be_value(s) < pow(256, s.len()),
    decreases s.len(),
{
    if s.len() == 0 {
        vstd::arithmetic::power::lemma_pow0(256);
    } else {
        lemma_be_value_bound(s.drop_last());
        let rest = be_value(s.drop_last());
        let p = pow(256, (s.len() - 1) as nat);
        assert(pow(256, s.len()) == 256 * p) by {
            vstd::arithmetic::power::lemma_pow_adds(256, (s.len() - 1) as nat, 1);
            vstd::arithmetic::power::lemma_pow1(256);
        }
        assert(rest * 256 + s.last() < 256 * p && rest * 256 + s.last() >= 0)
            by (nonlinear_arith)
            requires
                0 <= rest < p,
                0 <= s.last() < 256,
        ;
    }
}

/// Reads sixteen bytes at `start` as one big-endian 128-bit integer.
fn be_u128_at(bytes: &Vec<u8>, start: usize) -> (r: u128)
    requires
        start + 16 <= bytes@.len(),
        bytes@.len() <= usize::MAX,
    ensures
        r == be_value(bytes@.subrange(start as int, start + 16)),
{
    let ghost chunk = bytes@.subrange(start as int, start + 16);
    let mut r: u128 = 0;
    let mut k: usize = 0;
    proof {
        assert(chunk.take(0) =~= Seq::<u8>::empty());
    }
    while k < 16
        invariant
            k <= 16,
            start + 16 <= bytes@.len(),
            bytes@.len() <= usize::MAX,
            chunk == bytes@.subrange(start as int, start + 16),
            r == be_value(chunk.take(k as int)),
        decreases 16 - k,
    {
        proof {
            assert(chunk.take(k as int + 1).drop_last() =~= chunk.take(k as int));
            assert(chunk.take(k as int + 1).last() == chunk[k as int]);
            assert(chunk[k as int] == bytes@[start + k]);
            lemma_be_value_bound(chunk.take(k as int + 1));
            vstd::arithmetic::power::lemma_pow_increases(256, (k + 1) as nat, 16);
            lemma_pow256_16();
        }
        r = r * 256 + (bytes[start + k] as u128);
        k += 1;
    }
    proof {
        assert(chunk.take(16) =~= chunk);
    }
    r
}

/// Whether a final row's digest halves equal the reference Keccak-256 digest
/// of the input: bytes 16 to 31 as the low half, bytes 0 to 15 as the high
/// half, both big-endian.
pub open spec fn digest_matches(row: AssignedRow, input: Seq<u8>) -> bool {
    let d = keccak256_of(input);
    row.hash_lo == be_value(d.subrange(16, 32)) && row.hash_hi == be_value(d.subrange(0, 16))
}

/// The output self-check from row `g` on: every examined row (one per
/// absorption block, stepping a whole block of rows at a time) whose
/// finality flag is set while an input remains must carry that input's
/// reference digest.
pub open spec fn output_check_from(
    rows: Seq<AssignedRow>,
    inputs: Seq<Seq<u8>>,
    stride: int,
    g: int,
    off: int,
) -> bool
    decreases rows.len() - g when stride >= 1
{
    if g >= rows.len() {
        true
    } else {
        let g2 = if g + stride <= rows.len() {
            g + stride
        } else {
            rows.len() as int
        };
        if off < inputs.len() && rows[g].is_final {
            digest_matches(rows[g], inputs[off]) && output_check_from(rows, inputs, stride,
                g2, off + 1)
        } else {
            output_check_from(rows, inputs, stride, g2, off)
        }
    }
}

/// Where the byte cursor stands after a row-0 cell of the given round: eight
/// more bytes within the absorbing rounds, capped at the input length, and
/// unmoved in the remaining rounds.
pub open spec fn cursor_end(input_len: int, cur: int, round_idx: int) -> int {
    if round_idx < NUM_WORDS_TO_ABSORB {
        if cur + 8 <= input_len {
            cur + 8
        } else {
            input_len
        }
    } else {
        cur
    }
}

/// What one row must show in the input self-check: padding rows carry zero
/// word and zero counter; a row-0 cell carries the remaining-byte count and
/// the little-endian packed word of the input bytes at the cursor.
pub open spec fn row_input_ok(
    row: AssignedRow,
    inputs: Seq<Seq<u8>>,
    off: int,
    cur: int,
    round_idx: int,
    row_idx: int,
) -> bool {
    if off >= inputs.len() {
        row.word_value == 0 && row.bytes_left == 0
    } else if row_idx == 0 {
        let input_len = inputs[off].len() as int;
        let end = cursor_end(input_len, cur, round_idx);
        row.bytes_left == input_len - cur && row.word_value == le_word(inputs[off].subrange(
            cur, end))
    } else {
        true
    }
}

/// The input self-check from row `g` on, with the walk's state: the current
/// input, its byte cursor, and whether this block saw the finality flag.
/// Rounds are grouped 25 per absorption block; when a block ends after its
/// finality flag fired, the walk moves to the next input.
pub open spec fn input_check_from(
    rows: Seq<AssignedRow>,
    inputs: Seq<Seq<u8>>,
    rpr: int,
    g: int,
    off: int,
    cur: int,
    absorbed: bool,
) -> bool
    decreases rows.len() - g when rpr >= 1
{
    if g >= rows.len() {
        true
    } else {
        let round_idx = (g / rpr - 1) % 25;
        let row_idx = g % rpr;
        let ok = row_input_ok(rows[g], inputs, off, cur, round_idx, row_idx);
        let absorbed2 = absorbed || (off < inputs.len() && round_idx == NUM_ROUNDS && row_idx
            == 0 && rows[g].is_final);
        let cur2 = if off < inputs.len() && row_idx == 0 {
            cursor_end(inputs[off].len() as int, cur, round_idx)
        } else {
            cur
        };
        ok && (if (g + 1 - rpr) % (25 * rpr) == 0 {
            if absorbed2 {
                input_check_from(rows, inputs, rpr, g + 1, off + 1, 0, false)
            } else {
                input_check_from(rows, inputs, rpr, g + 1, off, cur2, false)
            }
        } else {
            input_check_from(rows, inputs, rpr, g + 1, off, cur2, absorbed2)
        })
    }
}

/// The rows whose word cell is bound to a public-input slot, from row `g`
/// on: every row-0 cell of the first `NUM_WORDS_TO_ABSORB` rounds of a
/// block while the current input still has unbound bytes, in walk order;
/// slot numbers follow the order of this list. The byte cursor and the
/// advancement from one input to the next follow the input self-check's
/// walk exactly, so precisely the words carrying real payload bytes are
/// bound, never padding.
pub open spec fn binding_rows_from(
    rows: Seq<AssignedRow>,
    inputs: Seq<Seq<u8>>,
    rpr: int,
    g: int,
    off: int,
    cur: int,
    absorbed: bool,
) -> Seq<int>
    decreases rows.len() - g when rpr >= 1
{
    if g >= rows.len() {
        Seq::empty()
    } else {
        let round_idx = (g / rpr - 1) % 25;
        let row_idx = g % rpr;
        let block_ends = (g + 1 - rpr) % (25 * rpr) == 0;
        if off >= inputs.len() {
            if block_ends {
                binding_rows_from(rows, inputs, rpr, g + 1, off, cur, false)
            } else {
                binding_rows_from(rows, inputs, rpr, g + 1, off, cur, absorbed)
            }
        } else {
            let absorbed2 = absorbed || (round_idx == NUM_ROUNDS && row_idx == 0
                && rows[g].is_final);
            let cur2 = if row_idx == 0 {
                cursor_end(inputs[off].len() as int, cur, round_idx)
            } else {
                cur
            };
            let here = if row_idx == 0 && round_idx < NUM_WORDS_TO_ABSORB && cur
                < inputs[off].len() {
                seq![g]
            } else {
                Seq::<int>::empty()
            };
            here + (if block_ends && absorbed2 {
                binding_rows_from(rows, inputs, rpr, g + 1, off + 1, 0, false)
            } else if block_ends {
                binding_rows_from(rows, inputs, rpr, g + 1, off, cur2, false)
            } else {
                binding_rows_from(rows, inputs, rpr, g + 1, off, cur2, absorbed2)
            })
        }
    }
}


/// Law: the binding walk selects only cells the codec packs. Every bound
/// row lies in the row matrix at or after the walk's position, stands at
/// row offset 0 of its round, and its round index is among the first
/// `NUM_WORDS_TO_ABSORB` of its block; and the bound rows are strictly
/// increasing, so slot numbers follow the walk order.
pub proof fn lemma_binding_rows_are_absorb_cells(
    rows: Seq<AssignedRow>,
    inputs: Seq<Seq<u8>>,
    rpr: int,
    g: int,
    off: int,
    cur: int,
    absorbed: bool,
)
    requires
        rpr >= 1,
        g >= rpr,
    ensures
        ({
            let s = binding_rows_from(rows, inputs, rpr, g, off, cur, absorbed);
            &&& (forall|i: int| 0 <= i < s.len() ==> g <= #[trigger] s[i] < rows.len())
            &&& (forall|i: int| 0 <= i < s.len() ==> #[trigger] s[i] % rpr == 0)
            &&& (forall|i: int| 0 <= i < s.len() ==> (#[trigger] s[i] / rpr - 1) % 25
                < NUM_WORDS_TO_ABSORB)
            &&& (forall|i: int, j: int| 0 <= i < j < s.len() ==> s[i] < s[j])
        }),
    decreases rows.len() - g,
{
    let s = binding_rows_from(rows, inputs, rpr, g, off, cur, absorbed);
    if g >= rows.len() {
    } else {
        let round_idx = (g / rpr - 1) % 25;
        let row_idx = g % rpr;
        let block_ends = (g + 1 - rpr) % (25 * rpr) == 0;
        let nxt = if off >= inputs.len() {
            if block_ends {
                binding_rows_from(rows, inputs, rpr, g + 1, off, cur, false)
            } else {
                binding_rows_from(rows, inputs, rpr, g + 1, off, cur, absorbed)
            }
        } else {
            let absorbed2 = absorbed || (round_idx == NUM_ROUNDS && row_idx == 0
                && rows[g].is_final);
            let cur2 = if row_idx == 0 {
                cursor_end(inputs[off].len() as int, cur, round_idx)
            } else {
                cur
            };
            if block_ends && absorbed2 {
                binding_rows_from(rows, inputs, rpr, g + 1, off + 1, 0, false)
            } else if block_ends {
                binding_rows_from(rows, inputs, rpr, g + 1, off, cur2, false)
            } else {
                binding_rows_from(rows, inputs, rpr, g + 1, off, cur2, absorbed2)
            }
        };
        if off >= inputs.len() {
            if block_ends {
                lemma_binding_rows_are_absorb_cells(rows, inputs, rpr, g + 1, off, cur, false);
            } else {
                lemma_binding_rows_are_absorb_cells(rows, inputs, rpr, g + 1, off, cur,
                    absorbed);
            }
            assert(s == nxt);
        } else {
            let absorbed2 = absorbed || (round_idx == NUM_ROUNDS && row_idx == 0
                && rows[g].is_final);
            let cur2 = if row_idx == 0 {
                cursor_end(inputs[off].len() as int, cur, round_idx)
            } else {
                cur
            };
            if block_ends && absorbed2 {
                lemma_binding_rows_are_absorb_cells(rows, inputs, rpr, g + 1, off + 1, 0,
                    false);
            } else if block_ends {
                lemma_binding_rows_are_absorb_cells(rows, inputs, rpr, g + 1, off, cur2,
                    false);
            } else {
                lemma_binding_rows_are_absorb_cells(rows, inputs, rpr, g + 1, off, cur2,
                    absorbed2);
            }
            if row_idx == 0 && round_idx < NUM_WORDS_TO_ABSORB && cur < inputs[off].len() {
                assert(s == seq![g] + nxt);
                assert(s[0] == g);
                assert(forall|i: int| 1 <= i < s.len() ==> s[i] == #[trigger] nxt[i - 1]);
            } else {
                assert(s =~= Seq::<int>::empty() + nxt);
                assert(s == nxt);
            }
        }
    }
}

/// One proof instance: the inputs to hash and the binding-layer switches.
#[derive(Clone, Debug)]
pub struct KeccakCircuit {
    /// The circuit shape.
    pub config: ConfigParams,
    /// The byte inputs, one per hash instance.
    pub inputs: Vec<Vec<u8>>,
    /// The row capacity, where one is imposed.
    pub num_rows: Option<usize>,
    /// Whether to run the prover-side self-checks on the witness rows.
    pub verify_output: bool,
    /// Whether the instance column is bound to the input words.
    pub use_instance: bool,
}

impl KeccakCircuit {
    /// Creates a new circuit instance.
    pub fn new(
        config: ConfigParams,
        num_rows: Option<usize>,
        inputs: Vec<Vec<u8>>,
        verify_output: bool,
        use_instance: bool,
    ) -> (r: Self)
        ensures
            r.config == config,
            r.num_rows == num_rows,
            r.inputs == inputs,
            r.verify_output == verify_output,
            r.use_instance == use_instance,
    {
        KeccakCircuit { config, inputs, num_rows, verify_output, use_instance }
    }

    /// The output self-check: steps one absorption block of rows at a time,
    /// skipping the dummy leading block, and compares each final row's
    /// digest halves with the reference Keccak-256 digest of the input it
    /// closes. Returns whether every examined row agreed.
    pub fn verify_output_witnesses(&self, rows: &Vec<AssignedRow>) -> (r: bool)
        requires
            1 <= self.config.rows_per_round,
            self.config.rows_per_round * (NUM_ROUNDS + 1) <= usize::MAX - rows@.len(),
        ensures
            r == output_check_from(rows@, self.inputs.deep_view(),
                self.config.rows_per_round * (NUM_ROUNDS + 1) as int,
                self.config.rows_per_round * (NUM_ROUNDS + 1) as int, 0),
    {
        let stride = self.config.rows_per_round * (NUM_ROUNDS + 1);
        let ghost inputs = self.inputs.deep_view();
        let mut g: usize = stride;
        let mut off: usize = 0;
        proof {
            assert(inputs.len() == self.inputs@.len());
            assert(forall|l: int| 0 <= l < inputs.len() ==> inputs[l] == #[trigger]
                self.inputs@[l]@);
            assert(stride >= 1) by (nonlinear_arith)
                requires
                    stride == self.config.rows_per_round * 25,
                    self.config.rows_per_round >= 1,
            ;
        }
        while g < rows.len()
            invariant
                1 <= stride,
                stride == self.config.rows_per_round * (NUM_ROUNDS + 1) as int,
                stride <= usize::MAX - rows@.len(),
                off <= inputs.len(),
                inputs == self.inputs.deep_view(),
                inputs.len() == self.inputs@.len(),
                forall|l: int| 0 <= l < inputs.len() ==> inputs[l] == #[trigger]
                    self.inputs@[l]@,
                g <= rows@.len() + stride,
                output_check_from(rows@, inputs, stride as int, stride as int, 0)
                    == output_check_from(rows@, inputs, stride as int, g as int, off as int),
            decreases rows@.len() + stride - g,
        {
            let row = rows[g];
            let ghost g2 = if g as int + stride <= rows@.len() {
                g as int + stride
            } else {
                rows@.len() as int
            };
            if off < self.inputs.len() && row.is_final {
                let digest = keccak256_digest(&self.inputs[off]);
                let lo = be_u128_at(&digest, 16);
                let hi = be_u128_at(&digest, 0);
                proof {
                    assert(digest@.subrange(16, 32) == keccak256_of(inputs[off as
                        int]).subrange(16, 32));
                    assert(digest@.subrange(0, 16) == keccak256_of(inputs[off as int]).subrange(
                        0, 16));
                }
                if row.hash_lo != lo || row.hash_hi != hi {
                    proof {
                        assert(!digest_matches(rows@[g as int], inputs[off as int]));
                        assert(!output_check_from(rows@, inputs, stride as int, g as int,
                            off as int));
                    }
                    return false;
                }
                proof {
                    assert(output_check_from(rows@, inputs, stride as int, g as int,
                        off as int) == output_check_from(rows@, inputs, stride as int, g2,
                        off + 1));
                }
                off += 1;
            } else {
                proof {
                    assert(output_check_from(rows@, inputs, stride as int, g as int,
                        off as int) == output_check_from(rows@, inputs, stride as int, g2,
                        off as int));
                }
            }
            proof {
                if g + stride > rows@.len() {
                    assert(output_check_from(rows@, inputs, stride as int, g2, off as int));
                    assert(output_check_from(rows@, inputs, stride as int, g as int + stride,
                        off as int));
                }
            }
            g += stride;
        }
        true
    }

    /// The input self-check: walks every row after the dummy leading block
    /// and holds each row-0 word and remaining-byte cell, and each padding
    /// row, to the actual input bytes. Returns whether every row agreed.
    pub fn verify_input_witnesses(&self, rows: &Vec<AssignedRow>) -> (r: bool)
        requires
            1 <= self.config.rows_per_round,
            rows@.len() < usize::MAX,
            self.config.rows_per_round * 25 <= usize::MAX,
        ensures
            r == input_check_from(rows@, self.inputs.deep_view(),
                self.config.rows_per_round as int, self.config.rows_per_round as int, 0, 0,
                false),
    {
        let rpr = self.config.rows_per_round;
        let n_inputs = self.inputs.len();
        let ghost inputs = self.inputs.deep_view();
        let mut g: usize = rpr;
        let mut off: usize = 0;
        let mut cur: usize = 0;
        let mut absorbed = false;
        proof {
            assert(inputs.len() == self.inputs@.len());
            assert(forall|l: int| 0 <= l < inputs.len() ==> inputs[l] == #[trigger]
                self.inputs@[l]@);
        }
        while g < rows.len()
            invariant
                1 <= rpr,
                rpr == self.config.rows_per_round,
                rpr <= g,
                rows@.len() < usize::MAX,
                rpr * 25 <= usize::MAX,
                n_inputs == inputs.len(),
                off <= n_inputs,
                absorbed ==> off < n_inputs,
                off < n_inputs ==> cur <= inputs[off as int].len(),
                inputs == self.inputs.deep_view(),
                inputs.len() == self.inputs@.len(),
                forall|l: int| 0 <= l < inputs.len() ==> inputs[l] == #[trigger]
                    self.inputs@[l]@,
                input_check_from(rows@, inputs, rpr as int, rpr as int, 0, 0, false)
                    == input_check_from(rows@, inputs, rpr as int, g as int, off as int,
                    cur as int, absorbed),
            decreases rows@.len() - g,
        {
            let row = rows[g];
            proof {
                lemma_div_at_least_one(g as int, rpr as int);
            }
            let round_idx = (g / rpr - 1) % 25;
            let row_idx = g % rpr;
            let ghost off0 = off;
            let ghost cur0 = cur;
            let ghost abs0 = absorbed;
            let mut ok = true;
            if off >= n_inputs {
                ok = row.word_value == 0 && row.bytes_left == 0;
            } else {
                let input_len = self.inputs[off].len();
                if round_idx == NUM_ROUNDS && row_idx == 0 && row.is_final {
                    absorbed = true;
                }
                if row_idx == 0 {
                    let expected_left = (input_len - cur) as u128;
                    let end = if round_idx < NUM_WORDS_TO_ABSORB {
                        if input_len - cur >= NUM_BYTES_PER_WORD {
                            cur + NUM_BYTES_PER_WORD
                        } else {
                            input_len
                        }
                    } else {
                        cur
                    };
                    let expected_word = le_word_range(&self.inputs[off], cur, end);
                    ok = row.bytes_left == expected_left && row.word_value == (expected_word
                        as u128);
                    cur = end;
                }
            }
            proof {
                assert(ok == row_input_ok(rows@[g as int], inputs, off0 as int, cur0 as int,
                    (g as int / rpr as int - 1) % 25, g as int % rpr as int));
            }
            if !ok {
                proof {
                    assert(!input_check_from(rows@, inputs, rpr as int, g as int, off0 as int,
                        cur0 as int, abs0));
                }
                return false;
            }
            if (g + 1 - rpr) % (25 * rpr) == 0 {
                if absorbed {
                    off += 1;
                    cur = 0;
                }
                absorbed = false;
            }
            proof {
                assert(input_check_from(rows@, inputs, rpr as int, g as int, off0 as int,
                    cur0 as int, abs0) == input_check_from(rows@, inputs, rpr as int,
                    g as int + 1, off as int, cur as int, absorbed));
            }
            g += 1;
        }
        true
    }

    /// The decision core of one synthesis pass, after the witness engine
    /// has filled the rows: where the self-checks are enabled, holds the
    /// rows to the inputs and the reference digest; where the instance
    /// column is used, picks the cells to bind. A failed self-check aborts
    /// proof generation, reported here as a false first component.
    pub fn synthesize_checks(&self, rows: &Vec<AssignedRow>) -> (r: (bool, Option<Vec<usize>>))
        requires
            1 <= self.config.rows_per_round,
            rows@.len() < usize::MAX,
            self.config.rows_per_round * (NUM_ROUNDS + 1) <= usize::MAX - rows@.len(),
        ensures
            r.0 == (!self.verify_output || (output_check_from(rows@, self.inputs.deep_view(),
                self.config.rows_per_round * (NUM_ROUNDS + 1) as int,
                self.config.rows_per_round * (NUM_ROUNDS + 1) as int, 0) && input_check_from(
                rows@, self.inputs.deep_view(), self.config.rows_per_round as int,
                self.config.rows_per_round as int, 0, 0, false))),
            r.1.is_some() == self.use_instance,
            (r.1 matches Some(b) ==> b@.map_values(|x: usize| x as int) == binding_rows_from(
                rows@, self.inputs.deep_view(), self.config.rows_per_round as int,
                self.config.rows_per_round as int, 0, 0, false)),
    {
        let ok = if self.verify_output {
            self.verify_output_witnesses(rows) && self.verify_input_witnesses(rows)
        } else {
            true
        };
        let bindings = if self.use_instance {
            Some(self.public_input_bindings(rows))
        } else {
            None
        };
        (ok, bindings)
    }

    /// The public-input binding decisions: the row indices, in slot order,
    /// whose word cell is constrained to the public-input column: the row-0
    /// cells of the first `NUM_WORDS_TO_ABSORB` rounds of each block while
    /// the current input still has unbound bytes. The byte cursor and the
    /// advancement from one input to the next mirror the input self-check's
    /// walk exactly, so precisely the words carrying real payload bytes are
    /// bound, never padding.
    pub fn public_input_bindings(&self, rows: &Vec<AssignedRow>) -> (r: Vec<usize>)
        requires
            1 <= self.config.rows_per_round,
            rows@.len() < usize::MAX,
            self.config.rows_per_round * 25 <= usize::MAX,
        ensures
            r@.map_values(|x: usize| x as int) == binding_rows_from(rows@,
                self.inputs.deep_view(), self.config.rows_per_round as int,
                self.config.rows_per_round as int, 0, 0, false),
    {
        let rpr = self.config.rows_per_round;
        let n_inputs = self.inputs.len();
        let ghost inputs = self.inputs.deep_view();
        let mut g: usize = rpr;
        let mut off: usize = 0;
        let mut cur: usize = 0;
        let mut absorbed = false;
        let mut out: Vec<usize> = Vec::new();
        proof {
            assert(inputs.len() == self.inputs@.len());
            assert(forall|l: int| 0 <= l < inputs.len() ==> inputs[l] == #[trigger]
                self.inputs@[l]@);
            assert(out@.map_values(|x: usize| x as int) =~= Seq::<int>::empty());
        }
        while g < rows.len()
            invariant
                1 <= rpr,
                rpr == self.config.rows_per_round,
                rpr <= g,
                rows@.len() < usize::MAX,
                rpr * 25 <= usize::MAX,
                n_inputs == inputs.len(),
                off <= n_inputs,
                absorbed ==> off < n_inputs,
                off < n_inputs ==> cur <= inputs[off as int].len(),
                inputs == self.inputs.deep_view(),
                inputs.len() == self.inputs@.len(),
                forall|l: int| 0 <= l < inputs.len() ==> inputs[l] == #[trigger]
                    self.inputs@[l]@,
                binding_rows_from(rows@, inputs, rpr as int, rpr as int, 0, 0, false)
                    == out@.map_values(|x: usize| x as int) + binding_rows_from(rows@, inputs,
                    rpr as int, g as int, off as int, cur as int, absorbed),
            decreases rows@.len() - g,
        {
            let row = rows[g];
            proof {
                lemma_div_at_least_one(g as int, rpr as int);
            }
            let round_idx = (g / rpr - 1) % 25;
            let row_idx = g % rpr;
            let ghost off0 = off;
            let ghost cur0 = cur;
            let ghost abs0 = absorbed;
            let ghost acc0 = out@.map_values(|x: usize| x as int);
            let mut bound = false;
            if off < n_inputs {
                let input_len = self.inputs[off].len();
                if round_idx == NUM_ROUNDS && row_idx == 0 && row.is_final {
                    absorbed = true;
                }
                if row_idx == 0 {
                    if round_idx < NUM_WORDS_TO_ABSORB && cur < input_len {
                        bound = true;
                        out.push(g);
                        proof {
                            assert(out@.map_values(|x: usize| x as int) =~= acc0 + seq![
                                g as int]);
                        }
                    }
                    cur = if round_idx < NUM_WORDS_TO_ABSORB {
                        if input_len - cur >= NUM_BYTES_PER_WORD {
                            cur + NUM_BYTES_PER_WORD
                        } else {
                            input_len
                        }
                    } else {
                        cur
                    };
                }
            }
            if (g + 1 - rpr) % (25 * rpr) == 0 {
                if absorbed {
                    off += 1;
                    cur = 0;
                }
                absorbed = false;
            }
            proof {
                let ghost mid = binding_rows_from(rows@, inputs, rpr as int, g as int,
                    off0 as int, cur0 as int, abs0);
                let ghost rest = binding_rows_from(rows@, inputs, rpr as int, g as int + 1,
                    off as int, cur as int, absorbed);
                if bound {
                    assert(mid =~= seq![g as int] + rest);
                } else if off0 < inputs.len() {
                    assert(mid =~= Seq::<int>::empty() + rest);
                    assert(mid == rest);
                } else {
                    assert(mid == rest);
                }
                assert(acc0 + (seq![g as int] + rest) =~= (acc0 + seq![g as int]) + rest);
            }
            g += 1;
        }
        out
    }
}

/// A value at least the divisor divides to at least one.
proof fn lemma_div_at_least_one(g: int, rpr: int)
    requires
        rpr >= 1,
        g >= rpr,
    ensures
        g / rpr >= 1,
{
    vstd::arithmetic::div_mod::lemma_fundamental_div_mod(g, rpr);
    assert(g / rpr >= 1) by (nonlinear_arith)
        requires
            g == rpr * (g / rpr) + g % rpr,
            0 <= g % rpr < rpr,
            g >= rpr,
            rpr >= 1,
    ;
}

/// The little-endian word of the input bytes between two cursor positions,
/// as the circuit packs it, zero-padded to eight bytes.
fn le_word_range(v: &Vec<u8>, start: usize, end: usize) -> (r: u64)
    requires
        start <= end <= v@.len(),
        end - start <= 8,
    ensures
        r == le_word(v@.subrange(start as int, end as int)),
{
    let ghost chunk = v@.subrange(start as int, end as int);
    let mut w: u64 = 0;
    let mut k: usize = end - start;
    proof {
        assert(chunk.skip(k as int) =~= Seq::<u8>::empty());
    }
    while k > 0
        invariant
            k <= end - start <= 8,
            start <= end <= v@.len(),
            chunk == v@.subrange(start as int, end as int),
            w == le_word(chunk.skip(k as int)),
        decreases k,
    {
        k = k - 1;
        proof {
            assert(chunk.skip(k as int).skip(1) =~= chunk.skip(k as int + 1));
            lemma_le_word_bound(chunk.skip(k as int));
            vstd::arithmetic::power::lemma_pow_increases(256, (chunk.len() - k) as nat, 8);
            crate::instance::lemma_pow256_8();
            assert(chunk[k as int] == v@[start + k]);
        }
        w = w * 256 + (v[start + k] as u64);
    }
    proof {
        assert(chunk.skip(0) =~= chunk);
    }
    w
}

} // verus!
