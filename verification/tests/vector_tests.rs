use hw1::error::DecodeError;
use hw1::vector::{counting_run, deserialize_vector, random_run, serialize_vector};
use std::collections::HashMap;

#[test]
fn test_serialize_deserialize_vector_to_disk() {
    let n1: u32 = 100000;
    let mut counter = 0;
    let mut data = Vec::new();
    let filename = "vector_test.bin";

    for _i in 0..n1 {
        data.push(counter);
        counter += 1;
    }
    let mut disk: HashMap<&str, Vec<u8>> = HashMap::new();
    disk.insert(filename, serialize_vector(&data));

    let loaded = deserialize_vector(&disk[filename]).unwrap();

    assert_eq!(n1 as usize, loaded.len());
    assert_eq!(loaded, data);
}

#[test]
fn vector_blob_layout() {
    assert_eq!(serialize_vector(&[]), vec![0, 0, 0, 0, 0, 0, 0, 0]);
    assert_eq!(
        serialize_vector(&[1, 0x0a0b_0c0d]),
        vec![0, 0, 0, 0, 0, 0, 0, 2, 0, 0, 0, 1, 0x0a, 0x0b, 0x0c, 0x0d]
    );
}

#[test]
fn vector_round_trip_keeps_order() {
    let data: Vec<u32> = vec![5, 4, u32::MAX, 0, 4, 17];
    assert_eq!(deserialize_vector(&serialize_vector(&data)), Ok(data));
    assert_eq!(deserialize_vector(&serialize_vector(&[])), Ok(vec![]));
}

#[test]
fn vector_blob_errors() {
    assert_eq!(deserialize_vector(&[]), Err(DecodeError::Truncated));
    assert_eq!(deserialize_vector(&[0, 0, 0, 0, 0, 0, 0]), Err(DecodeError::Truncated));
    assert_eq!(
        deserialize_vector(&[0, 0, 0, 0, 0, 0, 0, 2, 0, 0, 0, 1]),
        Err(DecodeError::Truncated)
    );
    assert_eq!(
        deserialize_vector(&[0, 0, 0, 0, 0, 0, 0, 1, 0, 0, 0, 1, 9]),
        Err(DecodeError::TrailingBytes)
    );
    assert_eq!(
        deserialize_vector(&[0xff, 0xff, 0xff, 0xff, 0xff, 0xff, 0xff, 0xff, 1, 2, 3, 4]),
        Err(DecodeError::Truncated)
    );
}

#[test]
fn counting_run_counts_from_zero() {
    assert_eq!(counting_run(1003), vec![0, 1, 2]);
    assert_eq!(counting_run(1000), Vec::<u32>::new());
    assert_eq!(counting_run(5), Vec::<u32>::new());
    assert_eq!(counting_run(1500).len(), 500);
}

#[test]
fn random_run_is_in_range_and_counts() {
    for _ in 0..20 {
        let data = random_run();
        assert!(500 <= data.len() && data.len() < 9000);
        for (i, v) in data.iter().enumerate() {
            assert_eq!(*v as usize, i);
        }
    }
}
