use hw1::basic::{
    deserialize_from_bytes, deserialize_from_slice, serialize_to_bytes, serialize_to_string,
    vec_to_array,
};
use hw1::error::SizeMismatchError;

#[test]
fn check_serialize_to_string() {
    let integer: u32 = 2147483647;
    let integer_in_string = serialize_to_string(integer);
    assert_eq!(integer_in_string, "2147483647");
}

#[test]
fn check_serialize_to_bytes() {
    let integer: u32 = 2147483647;
    let integer_in_string = serialize_to_bytes(integer);
    assert_eq!(integer_in_string, integer.to_be_bytes());
}

#[test]
fn check_deserialize_from_bytes() {
    let integer: u32 = 2147483647;
    let integer_deser = deserialize_from_bytes(integer.to_be_bytes());
    assert_eq!(integer_deser, integer);
}

#[test]
fn bytes_are_big_endian() {
    assert_eq!(serialize_to_bytes(0x0102_0304), [1, 2, 3, 4]);
    assert_eq!(serialize_to_bytes(33), [0, 0, 0, 33]);
    assert_eq!(deserialize_from_bytes([1, 2, 3, 4]), 0x0102_0304);
    assert_eq!(deserialize_from_bytes([0xff, 0xff, 0xff, 0xff]), u32::MAX);
}

#[test]
fn bytes_round_trip_on_edge_values() {
    for v in [0u32, 1, 255, 256, 65535, 65536, 0x7fff_ffff, 0x8000_0000, u32::MAX] {
        assert_eq!(deserialize_from_bytes(serialize_to_bytes(v)), v);
        assert_eq!(serialize_to_bytes(v), v.to_be_bytes());
    }
}

#[test]
fn decimal_string_parses_back() {
    for v in [0u32, 7, 10, 33, 99, 100, 4096, 1_000_000, 2147483647, u32::MAX] {
        let text = serialize_to_string(v);
        assert_eq!(text.parse::<u32>().unwrap(), v);
        assert_eq!(text, v.to_string());
    }
}

#[test]
fn decimal_string_of_zero_and_max() {
    assert_eq!(serialize_to_string(0), "0");
    assert_eq!(serialize_to_string(u32::MAX), "4294967295");
}

#[test]
fn slice_of_wrong_length_is_rejected() {
    assert_eq!(deserialize_from_slice(&[0, 0, 1, 0]), Ok(256));
    assert_eq!(
        deserialize_from_slice(&[1, 2, 3]),
        Err(SizeMismatchError { expected: 4, actual: 3 })
    );
    assert_eq!(
        deserialize_from_slice(&[1, 2, 3, 4, 5]),
        Err(SizeMismatchError { expected: 4, actual: 5 })
    );
    assert_eq!(
        deserialize_from_slice(&[]),
        Err(SizeMismatchError { expected: 4, actual: 0 })
    );
}

#[test]
fn vector_of_four_becomes_array() {
    let array: [u8; 4] = vec_to_array(vec![9, 8, 7, 6]);
    assert_eq!(array, [9, 8, 7, 6]);
    let words: [String; 2] = vec_to_array(vec![String::from("a"), String::from("b")]);
    assert_eq!(words, [String::from("a"), String::from("b")]);
}
