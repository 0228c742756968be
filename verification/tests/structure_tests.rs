use hw1::error::{DecodeError, ParseError};
use hw1::structure::{
    deserialize_jsonstring_to_struct, deserialize_struct_from_cbor, serialize_struct_to_cbor,
    serialize_struct_to_jsonstring, Ratio, University,
};
use std::collections::HashMap;

fn rate(university: &University) -> f32 {
    university.acceptance_rate.as_str().parse::<f32>().unwrap()
}

fn same(a: &University, b: &University) -> bool {
    a.name == b.name
        && a.undergraduate_enrollment == b.undergraduate_enrollment
        && a.graduate_enrollment == b.graduate_enrollment
        && a.schools == b.schools
        && a.acceptance_rate.as_str() == b.acceptance_rate.as_str()
}

#[test]
fn test_serialize_deserialize_string_json() {
    let json_string = r#"
{
 "name": "University of Chicago",
 "undergraduate_enrollment": 10,
 "graduate_enrollment": 10,
 "schools": [
     "Biological Sciences Division",
     "Chicago Booth School of Business",
     "Crown Family School of Social Work, Policy, and Practice",
     "Divinity School",
     "Graham School of Continuing Liberal and Professional Studies",
     "Harris School of Public Policy",
     "Humanities Division",
     "Law School",
     "Physical Sciences Division",
     "Pritzker School of Medicine",
     "Pritzker School of Molecular Engineering",
     "Social Sciences Division"
 ],
 "acceptance_rate": 0.07
}"#;

    let uchicago: University = deserialize_jsonstring_to_struct(json_string).unwrap();
    assert_eq!(uchicago.undergraduate_enrollment, 10);
    assert_eq!(uchicago.schools.len(), 12);
}

#[test]
fn test_serialize_deserialize_json_cbor() {
    let json_string = r#"
{
 "name": "University of Chicago",
 "undergraduate_enrollment": 50,
 "graduate_enrollment": 50,
 "schools": [
     "Biological Sciences Division",
     "Chicago Booth School of Business",
     "Crown Family School of Social Work, Policy, and Practice",
     "Divinity School",
     "Graham School of Continuing Liberal and Professional Studies",
     "Harris School of Public Policy",
     "Humanities Division",
     "Law School",
     "Physical Sciences Division",
     "Pritzker School of Medicine",
     "Pritzker School of Molecular Engineering",
     "Social Sciences Division"
 ],
 "acceptance_rate": 0.07
}"#;

    let uchicago: University = deserialize_jsonstring_to_struct(json_string).unwrap();
    let filename = "uchicago_test.cbor";
    let mut disk: HashMap<&str, Vec<u8>> = HashMap::new();
    disk.insert(filename, serialize_struct_to_cbor(&uchicago));
    let uchicago_from_cbor: University = deserialize_struct_from_cbor(&disk[filename]).unwrap();

    assert_eq!(uchicago_from_cbor.graduate_enrollment, 50);
    assert_eq!(rate(&uchicago_from_cbor), 0.07);
}

fn chicago_json() -> &'static str {
    r#"
        {
            "name": "University of Chicago",
            "undergraduate_enrollment": 7559,
            "graduate_enrollment": 10893,
            "schools": [
                "Biological Sciences Division",
                "Chicago Booth School of Business",
                "Crown Family School of Social Work, Policy, and Practice",
                "Divinity School",
                "Graham School of Continuing Liberal and Professional Studies",
                "Harris School of Public Policy",
                "Humanities Division",
                "Law School",
                "Physical Sciences Division",
                "Pritzker School of Medicine",
                "Pritzker School of Molecular Engineering",
                "Social Sciences Division"
            ],
            "acceptance_rate": 0.07
        }"#
}

#[test]
fn chicago_from_json_and_back() {
    let uchicago = deserialize_jsonstring_to_struct(chicago_json()).unwrap();
    assert_eq!(uchicago.name, "University of Chicago");
    assert_eq!(uchicago.undergraduate_enrollment, 7559);
    assert_eq!(uchicago.graduate_enrollment, 10893);
    assert_eq!(uchicago.schools.len(), 12);
    assert_eq!(uchicago.schools[2], "Crown Family School of Social Work, Policy, and Practice");
    assert_eq!(rate(&uchicago), 0.07);

    let serialized = serialize_struct_to_jsonstring(&uchicago);
    let again = deserialize_jsonstring_to_struct(&serialized).unwrap();
    assert!(same(&again, &uchicago));
    assert!(again == uchicago);
    assert_eq!(again.schools.len(), 12);
    assert_eq!(rate(&again), 0.07);
    assert_eq!(serialize_struct_to_jsonstring(&again), serialized);
}

fn small() -> University {
    University {
        name: "A \"quoted\" \\ name\n\u{1}é😀".to_string(),
        undergraduate_enrollment: 0,
        graduate_enrollment: 65535,
        schools: vec!["x".to_string(), String::new()],
        acceptance_rate: Ratio::parse("-1.5e-3").unwrap(),
    }
}

#[test]
fn json_text_is_exact() {
    assert_eq!(
        serialize_struct_to_jsonstring(&small()),
        "{\"name\":\"A \\\"quoted\\\" \\\\ name\\n\\u0001é😀\",\"undergraduate_enrollment\":0,\
         \"graduate_enrollment\":65535,\"schools\":[\"x\",\"\"],\"acceptance_rate\":-1.5e-3}"
    );
    let mut empty = small();
    empty.schools = vec![];
    empty.name = String::new();
    assert_eq!(
        serialize_struct_to_jsonstring(&empty),
        "{\"name\":\"\",\"undergraduate_enrollment\":0,\"graduate_enrollment\":65535,\
         \"schools\":[],\"acceptance_rate\":-1.5e-3}"
    );
}

#[test]
fn json_round_trip_with_escapes() {
    let u = small();
    let back = deserialize_jsonstring_to_struct(&serialize_struct_to_jsonstring(&u)).unwrap();
    assert!(same(&back, &u));
    let mut empty = small();
    empty.schools = vec![];
    let back = deserialize_jsonstring_to_struct(&serialize_struct_to_jsonstring(&empty)).unwrap();
    assert!(same(&back, &empty));
}

#[test]
fn json_fields_in_any_order_and_escapes_read() {
    let text = " {\"acceptance_rate\":1E+2, \"schools\" : [ ] ,\"graduate_enrollment\":7,\r\n\
                \"name\":\"\\u0041\\ud83d\\ude00\\/\\b\\f\\t\",\"undergraduate_enrollment\":65535}\t";
    let u = deserialize_jsonstring_to_struct(text).unwrap();
    assert_eq!(u.name, "A😀/\u{8}\u{c}\t");
    assert_eq!(u.undergraduate_enrollment, 65535);
    assert_eq!(u.graduate_enrollment, 7);
    assert!(u.schools.is_empty());
    assert_eq!(u.acceptance_rate.as_str(), "1E+2");
    assert_eq!(rate(&u), 100.0);
}

fn refused(text: &str) -> bool {
    matches!(deserialize_jsonstring_to_struct(text), Err(ParseError))
}

fn object(name: &str, ug: &str, gr: &str, schools: &str, rate: &str) -> String {
    format!(
        "{{\"name\":{},\"undergraduate_enrollment\":{},\"graduate_enrollment\":{},\
         \"schools\":{},\"acceptance_rate\":{}}}",
        name, ug, gr, schools, rate
    )
}

#[test]
fn json_missing_or_mistyped_fields_are_refused() {
    assert!(!refused(&object("\"n\"", "1", "2", "[\"a\"]", "0.5")));
    // a string where a number is expected
    assert!(refused(&object("\"n\"", "\"1\"", "2", "[\"a\"]", "0.5")));
    assert!(refused(&object("\"n\"", "1", "2", "[\"a\"]", "\"0.5\"")));
    // a number where a string is expected
    assert!(refused(&object("5", "1", "2", "[\"a\"]", "0.5")));
    assert!(refused(&object("\"n\"", "1", "2", "[1]", "0.5")));
    assert!(refused(&object("\"n\"", "1", "2", "\"a\"", "0.5")));
    // counts that are no 16-bit unsigned integers
    assert!(refused(&object("\"n\"", "65536", "2", "[]", "0.5")));
    assert!(refused(&object("\"n\"", "-1", "2", "[]", "0.5")));
    assert!(refused(&object("\"n\"", "1.0", "2", "[]", "0.5")));
    assert!(refused(&object("\"n\"", "1e2", "2", "[]", "0.5")));
    assert!(refused(&object("\"n\"", "01", "2", "[]", "0.5")));
    // numbers that JSON does not know
    assert!(refused(&object("\"n\"", "1", "2", "[]", ".5")));
    assert!(refused(&object("\"n\"", "1", "2", "[]", "1.")));
    assert!(refused(&object("\"n\"", "1", "2", "[]", "+1")));
    assert!(refused(&object("\"n\"", "1", "2", "[]", "1e")));
    assert!(refused(&object("\"n\"", "1", "2", "[]", "NaN")));
    // a missing field
    assert!(refused(
        "{\"name\":\"n\",\"undergraduate_enrollment\":1,\"graduate_enrollment\":2,\"schools\":[]}"
    ));
    assert!(refused("{}"));
    // a field twice, and a field that the record does not have
    assert!(refused(
        "{\"name\":\"n\",\"name\":\"n\",\"undergraduate_enrollment\":1,\
         \"graduate_enrollment\":2,\"schools\":[],\"acceptance_rate\":0.5}"
    ));
    assert!(refused(
        "{\"name\":\"n\",\"undergraduate_enrollment\":1,\"graduate_enrollment\":2,\
         \"schools\":[],\"acceptance_rate\":0.5,\"mascot\":\"phoenix\"}"
    ));
}

#[test]
fn json_that_is_malformed_is_refused() {
    let good = object("\"n\"", "1", "2", "[\"a\",\"b\"]", "0.5");
    assert!(!refused(&good));
    assert!(refused(""));
    assert!(refused("   "));
    assert!(refused("[]"));
    assert!(refused(&good[..good.len() - 1]));
    assert!(refused(&format!("{} x", good)));
    assert!(refused(&format!("{}{}", good, good)));
    assert!(refused(&object("\"n\"", "1", "2", "[\"a\",]", "0.5")));
    assert!(refused(&object("\"n\"", "1", "2", "[\"a\" \"b\"]", "0.5")));
    assert!(refused(&object("\"unfinished", "1", "2", "[]", "0.5")));
    assert!(refused(&object("\"bad \\x escape\"", "1", "2", "[]", "0.5")));
    assert!(refused(&object("\"raw\nnewline\"", "1", "2", "[]", "0.5")));
    assert!(refused(&object("\"\\ud83d alone\"", "1", "2", "[]", "0.5")));
    assert!(refused(&object("\"\\ude00\"", "1", "2", "[]", "0.5")));
    assert!(refused(&object("\"\\u12g4\"", "1", "2", "[]", "0.5")));
    assert!(refused(&good.replace(':', " ")));
}

#[test]
fn ratio_is_a_json_number() {
    for literal in ["0", "-0", "0.07", "1", "10", "1.25", "1e5", "1E-5", "12.5e+10", "-3"] {
        assert_eq!(Ratio::parse(literal).unwrap().as_str(), literal);
    }
    for literal in ["", "-", "00", "01", "1.", ".1", "1e", "1e+", "0x10", "1 ", " 1", "1,0", "inf"]
    {
        assert!(Ratio::parse(literal).is_none());
    }
    let half = Ratio::parse("0.5").unwrap();
    assert_eq!(half.clone().as_str(), "0.5");
}

#[test]
fn cbor_bytes_are_exact() {
    let u = University {
        name: "é".to_string(),
        undergraduate_enrollment: 23,
        graduate_enrollment: 300,
        schools: vec!["a".to_string()],
        acceptance_rate: Ratio::parse("0.5").unwrap(),
    };
    let mut expected: Vec<u8> = vec![0xa5];
    expected.extend([0x64]);
    expected.extend(b"name");
    expected.extend([0x62, 0xc3, 0xa9]);
    expected.extend([0x78, 24]);
    expected.extend(b"undergraduate_enrollment");
    expected.extend([23]);
    expected.extend([0x73]);
    expected.extend(b"graduate_enrollment");
    expected.extend([0x19, 0x01, 0x2c]);
    expected.extend([0x67]);
    expected.extend(b"schools");
    expected.extend([0x81, 0x61, b'a']);
    expected.extend([0x6f]);
    expected.extend(b"acceptance_rate");
    expected.extend([0x63]);
    expected.extend(b"0.5");
    assert_eq!(serialize_struct_to_cbor(&u), expected);
}

#[test]
fn cbor_round_trip() {
    let mut u = small();
    u.undergraduate_enrollment = 24;
    u.graduate_enrollment = 255;
    u.schools = (0..300).map(|i| "s".repeat(i)).collect();
    let back = deserialize_struct_from_cbor(&serialize_struct_to_cbor(&u)).unwrap();
    assert!(same(&back, &u));
    let mut empty = small();
    empty.schools = vec![];
    empty.graduate_enrollment = 256;
    let back = deserialize_struct_from_cbor(&serialize_struct_to_cbor(&empty)).unwrap();
    assert!(same(&back, &empty));
}

fn cbor_error(bytes: &[u8]) -> DecodeError {
    match deserialize_struct_from_cbor(bytes) {
        Ok(_) => panic!("the bytes were accepted"),
        Err(e) => e,
    }
}

#[test]
fn cbor_errors() {
    let good = serialize_struct_to_cbor(&small());
    assert!(deserialize_struct_from_cbor(&good).is_ok());
    assert_eq!(cbor_error(&[]), DecodeError::Truncated);
    assert_eq!(cbor_error(&good[..good.len() - 1]), DecodeError::Truncated);
    assert_eq!(cbor_error(&good[..1]), DecodeError::Truncated);
    let mut longer = good.clone();
    longer.push(0);
    assert_eq!(cbor_error(&longer), DecodeError::TrailingBytes);
    // an array in place of the map, and a map of four entries
    let mut other = good.clone();
    other[0] = 0x85;
    assert_eq!(cbor_error(&other), DecodeError::Malformed);
    other[0] = 0xa4;
    assert_eq!(cbor_error(&other), DecodeError::Malformed);
    // another key in place of "name"
    let mut other = good.clone();
    other[2] = b'N';
    assert_eq!(cbor_error(&other), DecodeError::Malformed);
    // a key that is not UTF-8
    other[2] = 0xff;
    assert_eq!(cbor_error(&other), DecodeError::InvalidText);
    // a rate that is no number
    let mut other = good.clone();
    let last = other.len() - 1;
    other[last] = b'e';
    assert_eq!(cbor_error(&other), DecodeError::Malformed);
}

#[test]
fn cbor_reads_longer_heads() {
    // the same record with every argument in a wider form than needed
    let mut bytes: Vec<u8> = vec![0xb8, 5];
    bytes.extend([0x78, 4]);
    bytes.extend(b"name");
    bytes.extend([0x79, 0, 1, b'n']);
    bytes.extend([0x7a, 0, 0, 0, 24]);
    bytes.extend(b"undergraduate_enrollment");
    bytes.extend([0x18, 7]);
    bytes.extend([0x7b, 0, 0, 0, 0, 0, 0, 0, 19]);
    bytes.extend(b"graduate_enrollment");
    let at = bytes.len() + 6;
    bytes.extend([0x1b, 0, 0, 0, 0, 0, 0, 0xff, 0xff]);
    bytes.extend([0x67]);
    bytes.extend(b"schools");
    bytes.extend([0x98, 0]);
    bytes.extend([0x6f]);
    bytes.extend(b"acceptance_rate");
    bytes.extend([0x61, b'1']);
    let u = deserialize_struct_from_cbor(&bytes).unwrap();
    assert_eq!(u.name, "n");
    assert_eq!(u.undergraduate_enrollment, 7);
    assert_eq!(u.graduate_enrollment, 65535);
    assert!(u.schools.is_empty());
    assert_eq!(rate(&u), 1.0);
    // a count that does not fit in sixteen bits
    assert_eq!(&bytes[at..at + 3], &[0, 0xff, 0xff]);
    bytes[at] = 1;
    assert_eq!(cbor_error(&bytes), DecodeError::Malformed);
}

#[test]
fn records_are_equal_field_by_field() {
    let a = small();
    assert!(a == small());
    assert!(a == a.clone());
    let mut b = small();
    b.name.push('x');
    assert!(a != b);
    let mut b = small();
    b.undergraduate_enrollment = 1;
    assert!(a != b);
    let mut b = small();
    b.graduate_enrollment = 1;
    assert!(a != b);
    let mut b = small();
    b.schools.pop();
    assert!(a != b);
    let mut b = small();
    b.schools[1].push('x');
    assert!(a != b);
    let mut b = small();
    b.acceptance_rate = Ratio::parse("-0.0015").unwrap();
    assert!(a != b);
    assert!(Ratio::parse("0.5").unwrap() == Ratio::parse("0.5").unwrap());
    assert!(Ratio::parse("0.5").unwrap() != Ratio::parse("0.50").unwrap());
}
