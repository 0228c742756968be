use hw1::error::DecodeError;
use hw1::hashmap::{deserialize_data, serialize_data, Mapping};
use rand::{distributions::Alphanumeric, Rng};
use std::collections::HashMap;

fn to_mapping(map: &HashMap<String, i32>) -> Mapping {
    let mut mapping = Mapping::new();
    for (key, value) in map {
        mapping.insert(key.clone(), *value);
    }
    mapping
}

fn to_hash_map(mapping: &Mapping) -> HashMap<String, i32> {
    let mut map = HashMap::new();
    for entry in mapping.as_slice() {
        map.insert(entry.key.clone(), entry.value);
    }
    map
}

#[test]
fn test_serialize_deserialize_data_to_disk() {
    let n: i32 = generate_rand_num(1000, 2000);
    let filename = "hashmap_test.bin";
    let mut test_map: HashMap<String, i32> = HashMap::new();

    for _i in 0..n {
        let key = generate_rand_string();
        let value = generate_rand_num(1000, 20000);
        test_map.insert(key, value);
    }

    let mut disk: HashMap<&str, Vec<u8>> = HashMap::new();
    disk.insert(filename, serialize_data(&to_mapping(&test_map)));
    let return_map = to_hash_map(&deserialize_data(&disk[filename]).unwrap());

    assert_eq!(return_map == test_map, true);
}

fn generate_rand_string() -> String {
    let mut rng = rand::thread_rng();
    let str_len: usize = rng.gen_range(10..100);
    let s: String = rand::thread_rng()
        .sample_iter(&Alphanumeric)
        .take(str_len)
        .map(char::from)
        .collect();
    s
}

fn generate_rand_num(min: i32, max: i32) -> i32 {
    let mut rng = rand::thread_rng();
    let num: i32 = rng.gen_range(min..max);
    num
}

fn planets() -> Mapping {
    let mut data = Mapping::new();
    data.insert("Mercury".to_string(), 4);
    data.insert("Venus".to_string(), 7);
    data.insert("Earth".to_string(), 0);
    data.insert("Mars".to_string(), 5);
    data
}

#[test]
fn planets_round_trip() {
    let data = planets();
    let loaded = deserialize_data(&serialize_data(&data)).unwrap();
    assert_eq!(loaded.len(), 4);
    assert_eq!(loaded.get("Mercury"), Some(4));
    assert_eq!(loaded.get("Venus"), Some(7));
    assert_eq!(loaded.get("Earth"), Some(0));
    assert_eq!(loaded.get("Mars"), Some(5));
    assert_eq!(loaded.get("Pluto"), None);
    assert!(loaded.same_as(&data));
    assert!(data.same_as(&loaded));
    assert!(loaded == data);
}

#[test]
fn mapping_insert_get_and_replace() {
    let mut m = Mapping::new();
    assert_eq!(m.len(), 0);
    assert_eq!(m.insert("a".to_string(), 1), None);
    assert_eq!(m.insert("b".to_string(), -2), None);
    assert_eq!(m.insert("a".to_string(), 3), Some(1));
    assert_eq!(m.len(), 2);
    assert_eq!(m.get("a"), Some(3));
    assert_eq!(m.get("b"), Some(-2));
    assert!(m.contains_key("b"));
    assert!(!m.contains_key("c"));
    let keys: Vec<&str> = m.as_slice().iter().map(|e| e.key.as_str()).collect();
    assert_eq!(keys, vec!["a", "b"]);
}

#[test]
fn mapping_equality_ignores_order() {
    let mut a = Mapping::new();
    a.insert("x".to_string(), 1);
    a.insert("y".to_string(), 2);
    let mut b = Mapping::new();
    b.insert("y".to_string(), 2);
    b.insert("x".to_string(), 1);
    assert!(a.same_as(&b));
    assert!(a == b);
    b.insert("x".to_string(), 9);
    assert!(!a.same_as(&b));
    assert!(a != b);
    b.insert("x".to_string(), 1);
    b.insert("z".to_string(), 0);
    assert!(!a.same_as(&b));
    assert!(!b.same_as(&a));
}

#[test]
fn mapping_blob_layout() {
    let mut m = Mapping::new();
    m.insert("é".to_string(), -1);
    assert_eq!(
        serialize_data(&m),
        vec![
            0, 0, 0, 0, 0, 0, 0, 1, // one entry
            0, 0, 0, 0, 0, 0, 0, 2, // key of two bytes
            0xc3, 0xa9, // the key
            0xff, 0xff, 0xff, 0xff, // the value
        ]
    );
    assert_eq!(serialize_data(&Mapping::new()), vec![0; 8]);
}

#[test]
fn mapping_round_trip_with_negative_and_extreme_values() {
    let mut m = Mapping::new();
    m.insert(String::new(), i32::MIN);
    m.insert("max".to_string(), i32::MAX);
    m.insert("日本語".to_string(), -12345);
    m.insert("zero".to_string(), 0);
    let loaded = deserialize_data(&serialize_data(&m)).unwrap();
    assert!(loaded.same_as(&m));
    assert_eq!(loaded.get(""), Some(i32::MIN));
    assert_eq!(loaded.get("max"), Some(i32::MAX));
    assert_eq!(loaded.get("日本語"), Some(-12345));
    let keys: Vec<&str> = loaded.as_slice().iter().map(|e| e.key.as_str()).collect();
    assert_eq!(keys, vec!["", "max", "日本語", "zero"]);
}

fn blob_error(bytes: &[u8]) -> DecodeError {
    match deserialize_data(bytes) {
        Ok(_) => panic!("the blob was accepted"),
        Err(e) => e,
    }
}

#[test]
fn mapping_blob_errors() {
    assert_eq!(blob_error(&[]), DecodeError::Truncated);
    assert_eq!(blob_error(&[0, 0, 0, 0, 0, 0, 0, 1]), DecodeError::Truncated);
    // the key is announced longer than the blob
    assert_eq!(
        blob_error(&[0, 0, 0, 0, 0, 0, 0, 1, 0, 0, 0, 0, 0, 0, 0, 5, b'a', 0, 0, 0, 1]),
        DecodeError::Truncated
    );
    // bytes after the last entry
    assert_eq!(
        blob_error(&[0, 0, 0, 0, 0, 0, 0, 1, 0, 0, 0, 0, 0, 0, 0, 1, b'a', 0, 0, 0, 1, 7]),
        DecodeError::TrailingBytes
    );
    assert_eq!(blob_error(&[0, 0, 0, 0, 0, 0, 0, 0, 7]), DecodeError::TrailingBytes);
    // a key that is not UTF-8
    assert_eq!(
        blob_error(&[0, 0, 0, 0, 0, 0, 0, 1, 0, 0, 0, 0, 0, 0, 0, 1, 0xff, 0, 0, 0, 1]),
        DecodeError::InvalidText
    );
    // the same key twice
    assert_eq!(
        blob_error(&[
            0, 0, 0, 0, 0, 0, 0, 2, 0, 0, 0, 0, 0, 0, 0, 1, b'a', 0, 0, 0, 1, 0, 0, 0, 0, 0, 0,
            0, 1, b'a', 0, 0, 0, 2,
        ]),
        DecodeError::DuplicateKey
    );
}

#[test]
fn planets_are_the_four_of_the_sample() {
    let data = hw1::hashmap::planets();
    assert!(data.same_as(&planets()));
    let keys: Vec<&str> = data.as_slice().iter().map(|e| e.key.as_str()).collect();
    assert_eq!(keys, vec!["Mercury", "Venus", "Earth", "Mars"]);
    let loaded = deserialize_data(&serialize_data(&data)).unwrap();
    assert!(loaded.same_as(&data));
}
