//! The proof pipeline's verified front: takes the named proof inputs, finds
//! the entry named "in", recovers its bytes, packs them into the
//! public-input column and builds the circuit instance that the external
//! prover is run on. The prover and verifier themselves are outside
//! collaborators and consume what this module prepares.

use vstd::prelude::*;
use vstd::string::StrSliceExecFns;
use crate::binding::{ConfigParams, KeccakCircuit, default_config};
use crate::field_element::FieldElement;
use crate::instance::{element_values, instance_of, pack_input_to_instance, unpack_input};

verus! {

/// The bytes the legacy one-byte-per-element path reads out of a list of
/// field elements: the lowest byte of each.
pub open spec fn legacy_bytes(elems: Seq<FieldElement>) -> Seq<u8> {
    Seq::new(elems.len(), |i: int| (elems[i].val() % 256) as u8)
}

/// Whether a named entry carries the proof input.
pub open spec fn is_input_name(name: Seq<char>) -> bool {
    name == "in"@
}

/// Whether some entry is named "in".
pub open spec fn has_input_entry(entries: Seq<(String, Vec<FieldElement>)>) -> bool {
    exists|i: int| 0 <= i < entries.len() && is_input_name(#[trigger] entries[i].0@)
}

/// The position of the first entry named "in".
pub open spec fn input_entry_index(entries: Seq<(String, Vec<FieldElement>)>) -> int
    decreases entries.len(),
{
    if entries.len() == 0 {
        0
    } else if is_input_name(entries[0].0@) {
        0
    } else {
        1 + input_entry_index(entries.skip(1))
    }
}

/// When the first match stands at `i`, the index function finds it there.
proof fn lemma_input_entry_index(entries: Seq<(String, Vec<FieldElement>)>, i: int)
    requires
        0 <= i < entries.len(),
        is_input_name(entries[i].0@),
        forall|j: int| 0 <= j < i ==> !is_input_name(#[trigger] entries[j].0@),
    ensures
        input_entry_index(entries) == i,
    decreases i,
{
    if i > 0 {
        lemma_input_entry_index(entries.skip(1), i - 1);
        assert(entries.skip(1)[i - 1] == entries[i]);
        assert(forall|j: int| 0 <= j < i - 1 ==> entries.skip(1)[j] == #[trigger] entries[j
            + 1]);
    }
}

/// Character-for-character string equality.
fn str_eq_chars(a: &str, b: &str) -> (r: bool)
    ensures
        r == (a@ == b@),
{
    let la = a.unicode_len();
    let lb = b.unicode_len();
    if la != lb {
        proof {
            assert(a@ != b@);
        }
        return false;
    }
    let mut i: usize = 0;
    while i < la
        invariant
            i <= la,
            la == a@.len(),
            la == b@.len(),
            forall|j: int| 0 <= j < i ==> a@[j] == b@[j],
        decreases la - i,
    {
        if a.get_char(i) != b.get_char(i) {
            return false;
        }
        i += 1;
    }
    proof {
        assert(a@ =~= b@);
    }
    true
}

/// Prepares one proof run from the named inputs: looks up the entry named
/// "in", reads one byte out of each of its field elements, packs those bytes
/// into the public-input column, and builds the circuit over that single
/// input with the self-checks and the instance binding switched on. A
/// missing "in" entry is a configuration error, reported to the caller; the
/// public-input vector returned is exactly the instance packing of the
/// recovered bytes, so the constrained cells match an externally computed
/// packing of the same bytes.
pub fn prepare_proof_instance(
    inputs: &Vec<(String, Vec<FieldElement>)>,
    config: Option<ConfigParams>,
) -> (r: Result<(Vec<FieldElement>, KeccakCircuit), String>)
    requires
        (config matches Some(c) ==> c.k < 32),
    ensures
        r.is_ok() == has_input_entry(inputs@),
        (r matches Ok(p) ==> {
            let raw = inputs@[input_entry_index(inputs@)].1@;
            &&& element_values(p.0@) == instance_of(seq![legacy_bytes(raw)])
            &&& p.1.inputs.deep_view() == seq![legacy_bytes(raw)]
            &&& p.1.verify_output == true
            &&& p.1.use_instance == true
            &&& p.1.num_rows == Some((1usize << p.1.config.k))
            &&& (match config {
                Some(c) => p.1.config == c,
                None => p.1.config.k == 14 && p.1.config.rows_per_round == 25,
            })
        }),
        (r matches Err(m) ==> m@ == "`in` value not found in proof input"@),
{
    let n = inputs.len();
    let mut i: usize = 0;
    while i < n
        invariant
            i <= n,
            n == inputs@.len(),
            (config matches Some(c) ==> c.k < 32),
            forall|j: int| 0 <= j < i ==> !is_input_name(#[trigger] inputs@[j].0@),
        decreases n - i,
    {
        if str_eq_chars(inputs[i].0.as_str(), "in") {
            proof {
                assert(is_input_name(inputs@[i as int].0@));
                assert(has_input_entry(inputs@));
                lemma_input_entry_index(inputs@, i as int);
            }
            let raw = &inputs[i].1;
            let bytes = unpack_input(raw);
            proof {
                assert(bytes@ =~= legacy_bytes(raw@));
            }
            let mut wrapped: Vec<Vec<u8>> = Vec::new();
            wrapped.push(bytes);
            proof {
                assert(wrapped@.len() == 1);
                assert(wrapped.deep_view().len() == 1);
                assert(wrapped.deep_view()[0] == wrapped@[0].deep_view());
                assert(wrapped@[0].deep_view() =~= wrapped@[0]@);
                assert(wrapped@[0]@ == legacy_bytes(raw@));
                assert(wrapped.deep_view() =~= seq![legacy_bytes(raw@)]);
            }
            let instance = pack_input_to_instance(&wrapped);
            let cfg = match config {
                Some(c) => c,
                None => default_config(),
            };
            proof {
                assert(cfg.k < 32);
            }
            let num_rows = 1usize << cfg.k;
            let circuit = KeccakCircuit::new(cfg, Some(num_rows), wrapped, true, true);
            return Ok((instance, circuit));
        }
        i += 1;
    }
    proof {
        assert(!has_input_entry(inputs@));
    }
    Err("`in` value not found in proof input".to_owned())
}

} // verus!
