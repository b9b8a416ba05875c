use motion_client::format::{count_invalid_lengths, read_config, Element, ValueArray};

fn real_record(key: i32, values: &[f32]) -> Vec<u8> {
    let mut out = key.to_le_bytes().to_vec();
    for v in values {
        out.extend_from_slice(&v.to_le_bytes());
    }
    out
}

fn reals(values: &[f32]) -> ValueArray {
    ValueArray::REAL(values.iter().map(|v| v.to_bits()).collect())
}

#[test]
fn fixed_count_real_records() {
    let mut data = real_record(1, &[1.5, 2.5]);
    data.extend(real_record(2, &[3.5, 4.5]));
    let m = read_config(&data, Some(2), true, None);
    assert_eq!(m.len(), 2);
    assert_eq!(m.get(&1), Some(&reals(&[1.5, 2.5])));
    assert_eq!(m.get(&2), Some(&reals(&[3.5, 4.5])));
    match m.get(&1) {
        Some(ValueArray::REAL(bits)) => {
            assert_eq!(f32::from_bits(bits[0]), 1.5);
            assert_eq!(f32::from_bits(bits[1]), 2.5);
        }
        other => panic!("unexpected {:?}", other),
    }
}

#[test]
fn fixed_count_non_real_short_record() {
    let mut data = 7i32.to_le_bytes().to_vec();
    data.extend_from_slice(&(-42i16).to_le_bytes());
    assert_eq!(data.len(), 6);
    let m = read_config(&data, Some(1), false, None);
    assert_eq!(m.len(), 1);
    assert_eq!(m.get(&7), Some(&ValueArray::NONREAL(vec![-42])));
}

#[test]
fn non_real_value_is_first_half_of_its_slot() {
    let mut data = 3i32.to_le_bytes().to_vec();
    data.extend_from_slice(&[0x34, 0x12, 0xAA, 0xBB]);
    data.extend_from_slice(&[0xFE, 0xFF, 0x00, 0x00]);
    let m = read_config(&data, Some(2), false, None);
    assert_eq!(m.get(&3), Some(&ValueArray::NONREAL(vec![0x1234, -2])));
}

#[test]
fn node_count_layout() {
    let mut data = Vec::new();
    for (key, declared, value) in [(10i32, 1i32, 0.25f32), (-11, 99, -8.0)] {
        data.extend_from_slice(&key.to_le_bytes());
        data.extend_from_slice(&declared.to_le_bytes());
        data.extend_from_slice(&value.to_le_bytes());
    }
    assert_eq!(data.len(), 24);
    let m = read_config(&data, None, true, Some(2));
    assert_eq!(m.len(), 2);
    assert_eq!(m.get(&10), Some(&reals(&[0.25])));
    assert_eq!(m.get(&-11), Some(&reals(&[-8.0])));
    assert_eq!(count_invalid_lengths(&data, true, 2), 0);
}

#[test]
fn later_record_replaces_earlier_one() {
    let mut data = real_record(5, &[1.0]);
    data.extend(real_record(6, &[2.0]));
    data.extend(real_record(5, &[3.0]));
    let m = read_config(&data, Some(1), true, None);
    assert_eq!(m.len(), 2);
    assert_eq!(m.get(&5), Some(&reals(&[3.0])));
    assert_eq!(m.get(&6), Some(&reals(&[2.0])));
}

#[test]
fn empty_payload_has_no_records() {
    assert!(read_config(&[], Some(3), true, None).is_empty());
    assert!(read_config(&[], None, true, Some(4)).is_empty());
    assert!(read_config(&[], Some(0), false, None).is_empty());
}

#[test]
fn payload_shorter_than_node_count_has_no_records() {
    assert!(read_config(&[1, 2, 3], None, true, Some(4)).is_empty());
    assert_eq!(count_invalid_lengths(&[1, 2, 3], true, 4), 0);
}

#[test]
fn key_only_records() {
    let mut data = 1i32.to_le_bytes().to_vec();
    data.extend_from_slice(&(-2i32).to_le_bytes());
    let m = read_config(&data, Some(0), true, None);
    assert_eq!(m.get(&1), Some(&ValueArray::REAL(vec![])));
    assert_eq!(m.get(&-2), Some(&ValueArray::REAL(vec![])));
    let m = read_config(&data, Some(0), false, None);
    assert_eq!(m.get(&-2), Some(&ValueArray::NONREAL(vec![])));
}

#[test]
fn short_last_record_reads_missing_bytes_as_zero() {
    let mut data = real_record(1, &[1.5]);
    data.extend_from_slice(&[0x02, 0x01]);
    let m = read_config(&data, Some(1), true, None);
    assert_eq!(m.len(), 2);
    assert_eq!(m.get(&1), Some(&reals(&[1.5])));
    assert_eq!(m.get(&0x0102), Some(&ValueArray::REAL(vec![])));
}

#[test]
fn short_last_slot_reads_missing_bytes_as_zero() {
    let mut data = 9i32.to_le_bytes().to_vec();
    data.extend_from_slice(&[0x78, 0x56, 0x34, 0x12, 0xEF, 0xCD]);
    let m = read_config(&data, Some(2), true, None);
    assert_eq!(m.get(&9), Some(&ValueArray::REAL(vec![0x12345678, 0xCDEF])));
    let mut data = 9i32.to_le_bytes().to_vec();
    data.extend_from_slice(&[0x80]);
    let m = read_config(&data, Some(1), false, None);
    assert_eq!(m.get(&9), Some(&ValueArray::NONREAL(vec![0x80])));
}

#[test]
fn value_count_beyond_any_payload() {
    let data = real_record(4, &[1.0, 2.0]);
    let m = read_config(&data, Some(usize::MAX), true, None);
    assert_eq!(m.len(), 1);
    assert_eq!(m.get(&4), Some(&reals(&[1.0, 2.0])));
}

#[test]
fn node_count_layout_below_header_width() {
    let data = [1u8, 0, 0, 0, 7, 2, 0, 0, 0, 7];
    let m = read_config(&data, None, true, Some(2));
    assert_eq!(m.len(), 2);
    assert_eq!(m.get(&1), Some(&ValueArray::REAL(vec![])));
    assert_eq!(m.get(&2), Some(&ValueArray::REAL(vec![])));
}

#[test]
fn node_count_remainder_is_a_last_record() {
    let mut data = Vec::new();
    for key in [1i32, 2] {
        data.extend_from_slice(&key.to_le_bytes());
        data.extend_from_slice(&0i32.to_le_bytes());
        data.extend_from_slice(&1.0f32.to_le_bytes());
    }
    data.push(3);
    let m = read_config(&data, None, true, Some(2));
    assert_eq!(m.len(), 3);
    assert_eq!(m.get(&3), Some(&ValueArray::REAL(vec![])));
    assert_eq!(count_invalid_lengths(&data, true, 2), 1);
}

#[test]
fn invalid_lengths_by_width() {
    let data = [0u8; 24];
    assert_eq!(count_invalid_lengths(&data, true, 2), 0);
    assert_eq!(count_invalid_lengths(&data, false, 2), 2);
    let data = [0u8; 20];
    assert_eq!(count_invalid_lengths(&data, false, 2), 0);
    assert_eq!(count_invalid_lengths(&data, true, 2), 2);
    let data = [0u8; 16];
    assert_eq!(count_invalid_lengths(&data, true, 2), 0);
    assert_eq!(count_invalid_lengths(&data, false, 2), 0);
    assert_eq!(count_invalid_lengths(&[], true, 1), 0);
}

#[test]
fn decoding_twice_gives_equal_mappings() {
    let mut data = real_record(1, &[1.5, 2.5]);
    data.extend(real_record(2, &[3.5, 4.5]));
    data.extend_from_slice(&[1, 2, 3]);
    for real_value in [true, false] {
        let a = read_config(&data, Some(2), real_value, None);
        let b = read_config(&data, Some(2), real_value, None);
        assert_eq!(a, b);
        let a = read_config(&data, None, real_value, Some(3));
        let b = read_config(&data, None, real_value, Some(3));
        assert_eq!(a, b);
    }
}

#[test]
fn element_new_accepts_any_payload_for_length_zero() {
    for size in [0usize, 1, 2, 7, 64, 1000] {
        let data = vec![0xA5u8; size];
        let e = Element::new(&data, 0, true);
        assert!(e.is_some());
        let e = e.unwrap();
        assert_eq!(e.data, &data[..]);
        assert!(e.real_value);
    }
}

#[test]
fn element_new_rejects_other_lengths() {
    for size in [0usize, 1, 2, 7, 64, 1000] {
        let data = vec![0u8; size];
        for length in [5i32, 3, 8, 65, 999, i32::MAX, -1, i32::MIN] {
            assert!(Element::new(&data, length, false).is_none());
        }
    }
}

#[test]
fn element_new_accepts_matching_length() {
    let data = [1u8, 2, 3, 4, 5];
    let e = Element::new(&data, 5, false).unwrap();
    assert_eq!(e.data, &data[..]);
    assert!(!e.real_value);
}

#[test]
fn element_get_data() {
    let data = [1u8, 2, 3, 4, 5];
    let e = Element::new(&data, 0, true).unwrap();
    assert_eq!(e.get_data(1, 3, true), Some(&data[1..4]));
    assert_eq!(e.get_data(0, 5, false), Some(&data[..]));
    assert_eq!(e.get_data(5, 0, true), Some(&data[5..]));
    assert_eq!(e.get_data(3, 3, true), None);
    assert_eq!(e.get_data(6, 0, true), None);
    assert_eq!(e.get_data(usize::MAX, 2, true), None);
    assert_eq!(e.get_data(2, usize::MAX, true), None);
}
