use std::collections::HashSet;

use idgen::base62::base62_decode;
use idgen::base62::base62_encode;
use idgen::ksuid::generate_ksuid;
use idgen::ksuid::ksuid_from_parts;

const KSUID_BASE62: &[u8] = b"0123456789ABCDEFGHIJKLMNOPQRSTUVWXYZabcdefghijklmnopqrstuvwxyz";

#[test]
pub fn test_generate_ksuid() {
    let ksuid_str = generate_ksuid().unwrap();

    println!("Generated KSUID: {}", ksuid_str);

    assert_eq!(ksuid_str.len(), 27);

    // Ensure the KSUID is base62 encoded
    for c in ksuid_str.chars() {
        assert!(KSUID_BASE62.contains(&(c as u8)));
    }
}

#[test]
fn test_ksuid_values_do_not_repeat() {
    let mut seen: HashSet<String> = HashSet::new();
    for _ in 0..1000 {
        let ksuid_str = generate_ksuid().unwrap();
        assert!(seen.insert(ksuid_str), "KSUID values should not repeat");
    }
}

#[test]
fn test_ksuid_from_parts_is_deterministic() {
    let zeros = vec![0u8; 16];
    assert_eq!(ksuid_from_parts(1, &zeros), "000007n42DGM5Tflk9n8mt7Fhc8");

    let ascending: Vec<u8> = (1..=16).collect();
    assert_eq!(ksuid_from_parts(1, &ascending), "000007oxwjt6WU6SempMdjpjgUy");
}

#[test]
fn test_encode_all_zero_payload() {
    let payload = [0u8; 20];
    assert_eq!(base62_encode(&payload), "000000000000000000000000000");
}

#[test]
fn test_encode_small_values() {
    assert_eq!(base62_encode(&[1]), "000000000000000000000000001");
    assert_eq!(base62_encode(&[62]), "000000000000000000000000010");
}

#[test]
fn test_base62_round_trip() {
    let mut payload = vec![0u8, 0, 0, 1];
    payload.extend(1..=16u8);
    let encoded = base62_encode(&payload);
    let decoded = base62_decode(&encoded).unwrap();
    assert_eq!(decoded, payload);

    // shorter input comes back zero-padded to 20 bytes, same value
    let encoded = base62_encode(&[62]);
    let mut expected = vec![0u8; 19];
    expected.push(62);
    assert_eq!(base62_decode(&encoded).unwrap(), expected);
}

#[test]
fn test_decode_rejects_bad_input() {
    // a character outside the alphabet
    assert_eq!(base62_decode("00000000000000000000000000!"), None);
    // a value that needs more than 20 bytes
    assert_eq!(base62_decode("1000000000000000000000000000"), None);
}
