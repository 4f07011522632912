use keccak_circuit::field_element::{extract_u128, FieldElement};
use keccak_circuit::instance::{pack_input_to_instance, unpack_input};
use keccak_circuit::sparse::{pack, pack_with_base, pack_part, unpack};
use keccak_circuit::word_parts::PartInfo;

fn fe(v: u64) -> FieldElement {
    FieldElement::from_u64(v)
}

#[test]
fn test_unpack_input() {
    let input: Vec<u8> = vec![0u8, 151u8, 200u8, 255u8];
    let f_input: Vec<FieldElement> = input.iter().map(|x| fe(*x as u64)).collect();
    let output = unpack_input(&f_input);
    assert_eq!(input, output);
}

#[test]
fn test_unpack_input_empty() {
    let input: Vec<u8> = vec![];
    let f_input: Vec<FieldElement> = input.iter().map(|x| fe(*x as u64)).collect();
    let output = unpack_input(&f_input);
    assert_eq!(input, output);
}

#[test]
fn test_pack_input_to_instance_zero() {
    let f_input = pack_input_to_instance(&vec![vec![0u8, 0u8, 0u8, 0u8]]);
    assert_eq!(f_input, vec![fe(0u64)]);
}

#[test]
fn test_pack_input_to_instance_single() {
    let f_input = pack_input_to_instance(&vec![vec![1u8, 0, 0, 0, 1, 0, 0, 0]]);
    assert_eq!(f_input, vec![fe(4294967297u64)]);
}

#[test]
fn test_pack_input_to_instance_two_words() {
    let f_input = pack_input_to_instance(&vec![vec![1u8, 0, 0, 0, 1, 0, 0, 0, 10]]);
    assert_eq!(f_input, vec![fe(4294967297u64), fe(10u64)]);
}

#[test]
fn test_pack_input_to_instance_two_inputs_order() {
    let f_input = pack_input_to_instance(&vec![vec![7u8], vec![9u8, 1u8]]);
    assert_eq!(f_input, vec![fe(7u64), fe(9u64 + (1u64 << 8))]);
}

#[test]
fn test_instance_round_trip_full_words() {
    // the eight-byte packing loses nothing: each element's little-endian
    // bytes give back the input, zero-padded to a multiple of eight
    let input: Vec<u8> = vec![1, 2, 3, 4, 5, 6, 7, 8, 9, 10, 11];
    let elems = pack_input_to_instance(&vec![input.clone()]);
    let mut recovered: Vec<u8> = Vec::new();
    for e in &elems {
        recovered.extend_from_slice(&e.limb0.to_le_bytes());
        assert_eq!(e.limb1, 0);
        assert_eq!(e.limb2, 0);
        assert_eq!(e.limb3, 0);
    }
    let mut padded = input.clone();
    while padded.len() % 8 != 0 {
        padded.push(0);
    }
    assert_eq!(recovered, padded);
}

#[test]
fn test_sparse_round_trip_of_word_bits() {
    // digits 0 or 1, one per bit of a 64-bit value
    let v: u64 = 0x0123456789abcdef;
    let bits: Vec<u8> = (0..64).map(|i| ((v >> i) & 1) as u8).collect();
    let packed = pack(&bits);
    let digits = unpack(&packed);
    assert_eq!(digits, bits);
}

#[test]
fn test_sparse_round_trip_of_larger_digits() {
    let bits: Vec<u8> = (0..64).map(|i| (i % 8) as u8).collect();
    let packed = pack(&bits);
    let digits = unpack(&packed);
    assert_eq!(digits, bits);
}

#[test]
fn test_pack_exact_value() {
    // bit i contributes 8^i
    let mut bits = vec![0u8; 64];
    bits[0] = 1;
    bits[1] = 3;
    bits[2] = 7;
    let packed = pack(&bits);
    assert_eq!(packed, fe(1 + 3 * 8 + 7 * 64));
}

#[test]
fn test_pack_with_base_two() {
    let bits: Vec<u8> = vec![1, 0, 1, 1];
    let packed = pack_with_base(&bits, 2);
    assert_eq!(packed, fe(0b1101));
}

#[test]
fn test_pack_part_selects_positions() {
    let bits: Vec<u8> = (0..64).map(|i| (i % 8) as u8).collect();
    let info = PartInfo { bits: vec![3usize, 10, 1] };
    // Horner over the selected positions: bits[3] + 8*(bits[10] + 8*bits[1])
    let expected = 3u64 + 8 * (2 + 8 * 1);
    assert_eq!(pack_part(&bits, &info), expected);
}

#[test]
fn test_extract_u128() {
    let f = FieldElement { limb0: 0xdeadbeef, limb1: 7, limb2: 0, limb3: 0 };
    assert_eq!(extract_u128(&f), 0xdeadbeefu128 + ((7u128) << 64));
}

#[test]
fn test_unpack_rejects_nothing_in_range() {
    // a packed value unpacks to exactly 64 digits
    let packed = pack(&vec![7u8; 64]);
    let digits = unpack(&packed);
    assert_eq!(digits.len(), 64);
    assert!(digits.iter().all(|d| *d == 7));
}
