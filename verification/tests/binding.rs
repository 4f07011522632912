use keccak_circuit::binding::{AssignedRow, ConfigParams, KeccakCircuit};
use keccak_circuit::instance::pack_input_to_instance;
use sha3::{Digest, Keccak256};

const RATE: usize = 136;
const ROUNDS_PER_BLOCK: usize = 25;
const WORDS_TO_ABSORB: usize = 17;

fn zero_row() -> AssignedRow {
    AssignedRow { is_final: false, hash_lo: 0, hash_hi: 0, word_value: 0, bytes_left: 0 }
}

/// Builds the row matrix a well-behaved witness engine would hand back for
/// the given inputs: one dummy leading round, then `ROUNDS_PER_BLOCK` rounds
/// per absorption block, `rpr` rows per round, padded with all-zero blocks
/// up to `total_blocks`.
fn build_rows(inputs: &[Vec<u8>], rpr: usize, total_blocks: usize) -> Vec<AssignedRow> {
    let mut rows = vec![zero_row(); rpr * (1 + ROUNDS_PER_BLOCK * total_blocks)];
    let mut block = 0usize;
    for input in inputs {
        let len = input.len();
        let nblocks = len / RATE + 1;
        let digest = Keccak256::digest(input);
        let hi = u128::from_be_bytes(digest[..16].try_into().unwrap());
        let lo = u128::from_be_bytes(digest[16..].try_into().unwrap());
        let mut cur = 0usize;
        for b in 0..nblocks {
            for q in 0..ROUNDS_PER_BLOCK {
                let g = rpr * (1 + ROUNDS_PER_BLOCK * (block + b) + q);
                let row = &mut rows[g];
                row.bytes_left = (len - cur) as u128;
                if q < WORDS_TO_ABSORB {
                    let end = std::cmp::min(cur + 8, len);
                    let mut buf = [0u8; 8];
                    buf[..end - cur].copy_from_slice(&input[cur..end]);
                    row.word_value = u64::from_le_bytes(buf) as u128;
                    cur = end;
                } else {
                    row.word_value = 0;
                }
                if b == nblocks - 1 && q == ROUNDS_PER_BLOCK - 1 {
                    row.is_final = true;
                    row.hash_lo = lo;
                    row.hash_hi = hi;
                }
            }
        }
        block += nblocks;
    }
    rows
}

fn circuit_for(inputs: Vec<Vec<u8>>, rpr: usize) -> KeccakCircuit {
    let config = ConfigParams { k: 10, rows_per_round: rpr };
    KeccakCircuit::new(config, None, inputs, true, true)
}

#[test]
fn test_self_checks_agree_across_lengths() {
    // sub-block, exact-block and cross-block absorption sizes
    for &len in &[0usize, 1, 7, 8, 9, 135, 136, 137] {
        let input: Vec<u8> = (0..len).map(|i| (i % 251) as u8).collect();
        let blocks = len / RATE + 2;
        let rows = build_rows(&[input.clone()], 1, blocks);
        let circuit = circuit_for(vec![input], 1);
        assert!(circuit.verify_output_witnesses(&rows), "output check failed at {}", len);
        assert!(circuit.verify_input_witnesses(&rows), "input check failed at {}", len);
    }
}

#[test]
fn test_self_checks_agree_multiple_rows_per_round() {
    let input: Vec<u8> = (0..30).map(|i| i as u8).collect();
    let rows = build_rows(&[input.clone()], 3, 2);
    let circuit = circuit_for(vec![input], 3);
    assert!(circuit.verify_output_witnesses(&rows));
    assert!(circuit.verify_input_witnesses(&rows));
}

#[test]
fn test_output_check_rejects_wrong_digest() {
    let input: Vec<u8> = vec![1, 10, 100];
    let mut rows = build_rows(&[input.clone()], 1, 2);
    let circuit = circuit_for(vec![input], 1);
    assert!(circuit.verify_output_witnesses(&rows));
    // flip one bit of the reported digest
    for row in rows.iter_mut() {
        if row.is_final {
            row.hash_lo ^= 1;
        }
    }
    assert!(!circuit.verify_output_witnesses(&rows));
}

#[test]
fn test_input_check_rejects_wrong_word() {
    let input: Vec<u8> = (0..20).map(|i| i as u8).collect();
    let mut rows = build_rows(&[input.clone()], 1, 2);
    let circuit = circuit_for(vec![input], 1);
    assert!(circuit.verify_input_witnesses(&rows));
    rows[2].word_value ^= 0xff;
    assert!(!circuit.verify_input_witnesses(&rows));
}

#[test]
fn test_input_check_rejects_nonzero_padding() {
    let input: Vec<u8> = vec![5u8; 10];
    let mut rows = build_rows(&[input.clone()], 1, 3);
    let circuit = circuit_for(vec![input], 1);
    assert!(circuit.verify_input_witnesses(&rows));
    // a padding row after the input's final block must report zeros
    let last = rows.len() - 1;
    rows[last].bytes_left = 1;
    assert!(!circuit.verify_input_witnesses(&rows));
}

#[test]
fn test_input_check_rejects_wrong_bytes_left() {
    let input: Vec<u8> = (0..20).map(|i| i as u8).collect();
    let mut rows = build_rows(&[input.clone()], 1, 2);
    let circuit = circuit_for(vec![input], 1);
    rows[1].bytes_left = 19;
    assert!(!circuit.verify_input_witnesses(&rows));
}

#[test]
fn test_two_inputs_checked_in_order() {
    let a: Vec<u8> = (0..10).map(|i| i as u8).collect();
    let b: Vec<u8> = (0..150).map(|i| (i % 7) as u8).collect();
    let rows = build_rows(&[a.clone(), b.clone()], 1, 4);
    let circuit = circuit_for(vec![a, b], 1);
    assert!(circuit.verify_output_witnesses(&rows));
    assert!(circuit.verify_input_witnesses(&rows));
}

#[test]
fn test_bindings_cover_exactly_the_payload_words() {
    // 30 bytes need ceil(30/8) = 4 public-input slots
    let input: Vec<u8> = [1u8, 10, 100].repeat(10);
    let rows = build_rows(&[input.clone()], 1, 2);
    let circuit = circuit_for(vec![input.clone()], 1);
    let bindings = circuit.public_input_bindings(&rows);
    assert_eq!(bindings, vec![1, 2, 3, 4]);
    // slot count matches the instance packing of the same bytes
    let instance = pack_input_to_instance(&vec![input]);
    assert_eq!(bindings.len(), instance.len());
}

#[test]
fn test_bindings_skip_non_absorb_rounds_across_blocks() {
    // 137 bytes span two absorption blocks: rounds 0..16 of the first block
    // and round 0 of the second carry payload; rounds 17..24 never bind
    let input: Vec<u8> = (0..137).map(|i| (i % 256) as u8).collect();
    let rows = build_rows(&[input.clone()], 1, 3);
    let circuit = circuit_for(vec![input.clone()], 1);
    let bindings = circuit.public_input_bindings(&rows);
    let mut expected: Vec<usize> = (1..=17).collect();
    expected.push(26);
    assert_eq!(bindings, expected);
    let instance = pack_input_to_instance(&vec![input]);
    assert_eq!(bindings.len(), instance.len());
    assert_eq!(instance.len(), (137 + 7) / 8);
}

#[test]
fn test_bindings_advance_to_the_second_input() {
    // the binding walk moves on to the next input exactly as the input
    // self-check does, so both inputs' words are bound in packing order
    let a: Vec<u8> = (0..10).map(|i| i as u8).collect();
    let b: Vec<u8> = (0..150).map(|i| (i % 7) as u8).collect();
    let rows = build_rows(&[a.clone(), b.clone()], 1, 4);
    let circuit = circuit_for(vec![a.clone(), b.clone()], 1);
    let bindings = circuit.public_input_bindings(&rows);
    let mut expected: Vec<usize> = vec![1, 2];
    expected.extend(26..=42);
    expected.extend([51, 52]);
    assert_eq!(bindings, expected);
    let instance = pack_input_to_instance(&vec![a, b]);
    assert_eq!(bindings.len(), instance.len());
}

#[test]
fn test_synthesize_checks_combines_both() {
    let input: Vec<u8> = (0..12).map(|i| i as u8).collect();
    let rows = build_rows(&[input.clone()], 1, 2);
    let circuit = circuit_for(vec![input], 1);
    let (ok, bindings) = circuit.synthesize_checks(&rows);
    assert!(ok);
    assert_eq!(bindings, Some(vec![1, 2]));
    // with the switches off, nothing is checked and nothing is bound
    let quiet = KeccakCircuit::new(ConfigParams { k: 10, rows_per_round: 1 }, None,
        vec![vec![9u8; 4]], false, false);
    let (ok2, bindings2) = quiet.synthesize_checks(&rows);
    assert!(ok2);
    assert_eq!(bindings2, None);
}

#[test]
fn test_bindings_empty_input_binds_nothing() {
    let rows = build_rows(&[vec![]], 1, 2);
    let circuit = circuit_for(vec![vec![]], 1);
    let bindings = circuit.public_input_bindings(&rows);
    assert!(bindings.is_empty());
}
