use keccak_circuit::binding::ConfigParams;
use keccak_circuit::field_element::FieldElement;
use keccak_circuit::instance::pack_input_to_instance;
use keccak_circuit::pipeline::prepare_proof_instance;

fn fe(v: u64) -> FieldElement {
    FieldElement::from_u64(v)
}

#[test]
fn test_prepare_missing_input_key_is_reported() {
    let inputs: Vec<(String, Vec<FieldElement>)> = vec![("out".to_owned(), vec![fe(1)])];
    let r = prepare_proof_instance(&inputs, None);
    match r {
        Ok(_) => panic!("missing key must be reported"),
        Err(m) => assert_eq!(m, "`in` value not found in proof input"),
    }
}

#[test]
fn test_prepare_empty_map_is_reported() {
    let inputs: Vec<(String, Vec<FieldElement>)> = vec![];
    assert!(prepare_proof_instance(&inputs, None).is_err());
}

#[test]
fn test_prepare_packs_the_recovered_bytes() {
    // one byte per element in, eight bytes per element out
    let input: Vec<u8> = [1u8, 10, 100].repeat(10);
    let elems: Vec<FieldElement> = input.iter().map(|x| fe(*x as u64)).collect();
    let inputs = vec![("in".to_owned(), elems)];
    let config = ConfigParams { k: 12, rows_per_round: 2 };
    let (instance, circuit) = prepare_proof_instance(&inputs, Some(config)).unwrap();
    // the public-input vector equals the instance packing of the same bytes
    let expected = pack_input_to_instance(&vec![input.clone()]);
    assert_eq!(instance, expected);
    assert!(instance.len() > 0);
    assert_eq!(instance.len(), (input.len() + 7) / 8);
    // the circuit hashes exactly the recovered bytes with checks enabled
    assert_eq!(circuit.inputs, vec![input]);
    assert!(circuit.verify_output);
    assert!(circuit.use_instance);
    assert_eq!(circuit.config, config);
    assert_eq!(circuit.num_rows, Some(1usize << 12));
}

#[test]
fn test_prepare_default_config() {
    let inputs = vec![("in".to_owned(), vec![fe(7)])];
    let (_, circuit) = prepare_proof_instance(&inputs, None).unwrap();
    assert_eq!(circuit.config.k, 14);
    assert_eq!(circuit.config.rows_per_round, 25);
}

#[test]
fn test_prepare_truncates_to_low_byte() {
    // the legacy path keeps one byte per element
    let inputs = vec![("in".to_owned(), vec![fe(0x1ff)])];
    let (instance, circuit) = prepare_proof_instance(&inputs, None).unwrap();
    assert_eq!(circuit.inputs, vec![vec![0xffu8]]);
    assert_eq!(instance, vec![fe(0xff)]);
}
