//! The serialized forms: round trips through JSON and binary, the
//! validation rules, and each rejection reason.

use cardinality_estimator_safe::{DeserializeError, Element, Representation, Sketch};
use wyhash::WyHash;

fn filled(n: usize) -> Sketch<12, 6> {
    let mut s = Sketch::<12, 6>::default();
    for i in 0..n {
        s.insert(Element::from_hasher_default::<WyHash, _>(&i));
    }
    s
}

#[test]
fn test_deserialize_invalid_json() {
    let invalid_json = "{ invalid_json_string }";
    let result: Result<Sketch<12, 6>, _> = Sketch::from_json(invalid_json.as_bytes());

    assert!(
        result.is_err(),
        "Deserialization should fail for invalid JSON"
    );
}

#[test]
fn json_round_trip_preserves_every_tier() {
    for n in [0usize, 1, 2, 3, 57, 128, 129, 500] {
        let s = filled(n);
        let text = s.to_json();
        let back: Sketch<12, 6> = Sketch::from_json(&text).expect("round trip failed");
        assert_eq!(back.estimate(), s.estimate(), "estimate changed for n={}", n);
        assert_eq!(back.to_json(), text, "text changed for n={}", n);
    }
}

#[test]
fn binary_round_trip_preserves_every_tier() {
    for n in [0usize, 1, 2, 3, 57, 128, 129, 500] {
        let s = filled(n);
        let bytes = s.to_bytes();
        let back: Sketch<12, 6> = Sketch::from_bytes(&bytes).expect("round trip failed");
        assert_eq!(back.estimate(), s.estimate(), "estimate changed for n={}", n);
        // the register words survive bitwise
        assert_eq!(back.to_bytes(), bytes, "bytes changed for n={}", n);
    }
}

#[test]
fn round_trip_of_the_overflowed_sketch_keeps_the_estimate() {
    let s = filled(129);
    assert_eq!(s.estimate(), 130);
    let from_json: Sketch<12, 6> = Sketch::from_json(&s.to_json()).unwrap();
    assert_eq!(from_json.estimate(), 130);
    let from_bin: Sketch<12, 6> = Sketch::from_bytes(&s.to_bytes()).unwrap();
    assert_eq!(from_bin.estimate(), 130);
}

#[test]
fn serialized_json_is_well_formed() {
    for n in [2usize, 100, 200] {
        let s = filled(n);
        let text = s.to_json();
        let value: serde_json::Value =
            serde_json::from_slice(&text).expect("the library's JSON must parse");
        let object = value.as_object().expect("an object");
        assert_eq!(object.len(), 1);
        let key = object.keys().next().unwrap();
        assert!(key == "s" || key == "a" || key == "h");
    }
}

#[test]
fn json_accepts_whitespace() {
    let padded = b" { \"s\" : 12 } ";
    let s: Sketch<12, 6> = Sketch::from_json(padded).expect("whitespace must be accepted");
    let _ = s.estimate();
}

#[test]
fn unknown_tag_is_rejected() {
    let r: Result<Sketch<12, 6>, _> = Sketch::from_json(b"{\"x\":1}");
    assert_eq!(r.unwrap_err(), DeserializeError::InvalidVariantTag);
    let r: Result<Sketch<12, 6>, _> = Sketch::from_bytes(b"x123");
    assert_eq!(r.unwrap_err(), DeserializeError::InvalidVariantTag);
}

#[test]
fn short_array_is_rejected() {
    let r: Result<Sketch<12, 6>, _> = Sketch::from_json(b"{\"a\":[1,2]}");
    assert_eq!(r.unwrap_err(), DeserializeError::InvalidLength);
}

#[test]
fn long_array_is_rejected() {
    let mut text = String::from("{\"a\":[");
    for i in 0..129 {
        if i > 0 {
            text.push(',');
        }
        text.push_str(&i.to_string());
    }
    text.push_str("]}");
    let r: Result<Sketch<12, 6>, _> = Sketch::from_json(text.as_bytes());
    assert_eq!(r.unwrap_err(), DeserializeError::InvalidLength);
}

#[test]
fn truncated_binary_is_rejected() {
    let s = filled(5);
    let mut bytes = s.to_bytes();
    bytes.pop();
    let r: Result<Sketch<12, 6>, _> = Sketch::from_bytes(&bytes);
    assert_eq!(r.unwrap_err(), DeserializeError::InvalidLength);
}

#[test]
fn corrupted_zero_count_is_rejected() {
    let s = filled(129);
    let mut bytes = s.to_bytes();
    // the zero-register count sits right after the tag and the length
    bytes[5] = bytes[5].wrapping_add(1);
    let r: Result<Sketch<12, 6>, _> = Sketch::from_bytes(&bytes);
    assert_eq!(r.unwrap_err(), DeserializeError::InvalidValue);
}

#[test]
fn corrupted_harmonic_sum_is_rejected() {
    let s = filled(129);
    let mut bytes = s.to_bytes();
    // the harmonic sum bits sit after the zero count; force a huge exponent
    bytes[12] = 0x7f;
    let r: Result<Sketch<12, 6>, _> = Sketch::from_bytes(&bytes);
    assert_eq!(r.unwrap_err(), DeserializeError::InvalidValue);
}

#[test]
fn oversized_number_is_rejected() {
    let r: Result<Sketch<12, 6>, _> = Sketch::from_json(b"{\"s\":99999999999999999999999}");
    assert_eq!(r.unwrap_err(), DeserializeError::InvalidValue);
    let r: Result<Sketch<12, 6>, _> = Sketch::from_json(b"{\"a\":[5000000000,1,2]}");
    assert_eq!(r.unwrap_err(), DeserializeError::InvalidValue);
}

#[test]
fn deserialized_sketches_equal_their_source() {
    for n in [0usize, 2, 5, 129] {
        let s = filled(n);
        let from_json: Sketch<12, 6> = Sketch::from_json(&s.to_json()).unwrap();
        assert!(from_json == s, "JSON round trip changed the sketch for n={}", n);
        let from_bin: Sketch<12, 6> = Sketch::from_bytes(&s.to_bytes()).unwrap();
        assert!(from_bin == s, "binary round trip changed the sketch for n={}", n);
    }
}

#[test]
fn small_json_form_is_the_packed_word() {
    let s = filled(2);
    let text = s.to_json();
    let value: serde_json::Value = serde_json::from_slice(&text).unwrap();
    let word = value.as_object().unwrap().get("s").unwrap().as_u64().unwrap();
    if let Representation::Small(small) = s.representation() {
        assert_eq!(word, small.0);
    } else {
        panic!("two inserts must stay in the small tier");
    }
}
