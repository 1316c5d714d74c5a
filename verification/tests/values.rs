use kite::decimal::{parse_decimal, to_decimal};
use kite::document::{DateTime, FieldValue, StoredFieldReadError};
use kite::merge_operator::merge;
use kite::schema::FieldDataType;

#[test]
fn field_values_are_written_as_bytes() {
    assert_eq!(FieldValue::String("héllo".to_string()).to_bytes(), "héllo".as_bytes().to_vec());
    assert_eq!(FieldValue::String(String::new()).to_bytes(), Vec::<u8>::new());
    assert_eq!(FieldValue::Integer(1).to_bytes(), vec![1, 0, 0, 0, 0, 0, 0, 0]);
    assert_eq!(FieldValue::Integer(-2).to_bytes(), vec![0xfe, 0xff, 0xff, 0xff, 0xff, 0xff, 0xff, 0xff]);
    assert_eq!(
        FieldValue::Integer(0x0102030405060708).to_bytes(),
        vec![8, 7, 6, 5, 4, 3, 2, 1]
    );
    assert_eq!(FieldValue::Boolean(true).to_bytes(), vec![b't']);
    assert_eq!(FieldValue::Boolean(false).to_bytes(), vec![b'f']);
    // One second and 2,500 nanoseconds: 1,000,002 microseconds.
    let time = DateTime::new(1, 2_500).unwrap();
    assert_eq!(FieldValue::DateTime(time).to_bytes(), vec![0x42, 0x42, 0x0f, 0, 0, 0, 0, 0]);
    let time = DateTime::new(-1, 999_999_000).unwrap();
    assert_eq!(FieldValue::DateTime(time).to_bytes(), vec![0xff; 8]);
}

#[test]
fn field_values_are_read_back() {
    let values = vec![
        (FieldDataType::Text, FieldValue::String("lorem ipsum".to_string())),
        (FieldDataType::PlainString, FieldValue::String("ünï".to_string())),
        (FieldDataType::Integer, FieldValue::Integer(i64::MIN)),
        (FieldDataType::Integer, FieldValue::Integer(i64::MAX)),
        (FieldDataType::Boolean, FieldValue::Boolean(true)),
        (FieldDataType::Boolean, FieldValue::Boolean(false)),
        (FieldDataType::DateTime, FieldValue::DateTime(DateTime::new(1_500_000_000, 123_456_000).unwrap())),
        (FieldDataType::DateTime, FieldValue::DateTime(DateTime::new(-5, 1_000).unwrap())),
    ];
    for (data_type, value) in values {
        assert_eq!(FieldValue::from_bytes(data_type, &value.to_bytes()), Ok(value));
    }
}

#[test]
fn time_is_stored_to_the_microsecond() {
    let time = DateTime::new(10, 1_999).unwrap();
    let back = FieldValue::from_bytes(FieldDataType::DateTime, &FieldValue::DateTime(time).to_bytes());
    assert_eq!(back, Ok(FieldValue::DateTime(DateTime::new(10, 1_000).unwrap())));
    // A leap second is read back as the second after.
    let time = DateTime::new(10, 1_000_000_000).unwrap();
    let back = FieldValue::from_bytes(FieldDataType::DateTime, &FieldValue::DateTime(time).to_bytes());
    assert_eq!(back, Ok(FieldValue::DateTime(DateTime::new(11, 0).unwrap())));
    assert_eq!(DateTime::from_timestamp_micros(-1).timestamp(), -1);
    assert_eq!(DateTime::from_timestamp_micros(-1).nanosecond(), 999_999_000);
    assert_eq!(DateTime::from_timestamp_micros(i64::MIN).timestamp_micros(), i64::MIN);
    assert_eq!(DateTime::from_timestamp_micros(i64::MAX).timestamp_micros(), i64::MAX);
    assert_eq!(DateTime::new(10, 1_999).unwrap().timestamp_micros(), 10_000_001);
}

#[test]
fn times_that_cannot_be_stored_are_no_times() {
    assert!(DateTime::new(0, 2_000_000_000).is_none());
    assert!(DateTime::new(i64::MAX, 0).is_none());
    assert!(DateTime::new(9_223_372_036_855, 0).is_none());
    assert!(DateTime::new(9_223_372_036_854, 775_807_000).is_some());
    assert!(DateTime::new(9_223_372_036_854, 775_808_000).is_none());
    assert!(DateTime::new(-9_223_372_036_855, 224_192_000).is_some());
    assert!(DateTime::new(-9_223_372_036_855, 224_191_000).is_none());
}

#[test]
fn bytes_that_are_no_value_are_refused() {
    match FieldValue::from_bytes(FieldDataType::Text, &[0xff, 0x41]) {
        Err(StoredFieldReadError::TextFieldUTF8DecodeError(bytes, _)) => {
            assert_eq!(bytes, vec![0xff, 0x41])
        }
        other => panic!("{:?}", other),
    }
    assert_eq!(
        FieldValue::from_bytes(FieldDataType::Boolean, b"x"),
        Err(StoredFieldReadError::BooleanFieldDecodeError(b"x".to_vec()))
    );
    assert_eq!(
        FieldValue::from_bytes(FieldDataType::Boolean, b"tt"),
        Err(StoredFieldReadError::BooleanFieldDecodeError(b"tt".to_vec()))
    );
    assert_eq!(
        FieldValue::from_bytes(FieldDataType::Integer, &[1, 2, 3]),
        Err(StoredFieldReadError::IntegerFieldValueSizeError(3))
    );
    assert_eq!(
        FieldValue::from_bytes(FieldDataType::DateTime, &[0; 9]),
        Err(StoredFieldReadError::IntegerFieldValueSizeError(9))
    );
}

#[test]
fn lists_are_merged_by_concatenation() {
    let operands = vec![vec![0, 1], vec![0, 2, 0, 3]];
    assert_eq!(merge(b"x\x00\x00\x00\x01", Some(&[0, 9]), &operands), Some(vec![0, 9, 0, 1, 0, 2, 0, 3]));
    assert_eq!(merge(b"x\x00\x00\x00\x01", None, &operands), Some(vec![0, 1, 0, 2, 0, 3]));
    assert_eq!(merge(b"d\x00\x01", Some(&[7]), &vec![]), Some(vec![7]));
}

#[test]
fn statistics_are_merged_by_addition() {
    let one = vec![0, 0, 0, 0, 0, 0, 0, 1];
    let minus_three = vec![0xff, 0xff, 0xff, 0xff, 0xff, 0xff, 0xff, 0xfd];
    let key = b"s\x00\x00\x00\x01total_docs";
    assert_eq!(
        merge(key, Some(&[0, 0, 0, 0, 0, 0, 1, 0]), &vec![one.clone(), one.clone()]),
        Some(vec![0, 0, 0, 0, 0, 0, 1, 2])
    );
    assert_eq!(merge(key, None, &vec![one.clone(), minus_three.clone()]), Some(vec![0xff, 0xff, 0xff, 0xff, 0xff, 0xff, 0xff, 0xfe]));
    assert_eq!(merge(key, None, &vec![]), Some(vec![0; 8]));
    // A counter that is not eight bytes, or a sum beyond 64 bits, yields nothing.
    assert_eq!(merge(key, Some(&[1]), &vec![one.clone()]), None);
    assert_eq!(merge(key, None, &vec![one.clone(), vec![1, 2]]), None);
    let largest = vec![0x7f, 0xff, 0xff, 0xff, 0xff, 0xff, 0xff, 0xff];
    assert_eq!(merge(key, Some(&largest), &vec![one.clone()]), None);
    assert_eq!(merge(key, Some(&largest), &vec![one.clone(), minus_three]), Some(vec![0x7f, 0xff, 0xff, 0xff, 0xff, 0xff, 0xff, 0xfd]));
}

#[test]
fn other_keys_keep_the_last_operand() {
    assert_eq!(merge(b"ktest", Some(&[1]), &vec![vec![2], vec![3, 4]]), Some(vec![3, 4]));
    assert_eq!(merge(b"ktest", Some(&[1]), &vec![]), Some(vec![1]));
    assert_eq!(merge(b"", None, &vec![]), Some(vec![]));
    assert_eq!(merge(b"", None, &vec![vec![5]]), Some(vec![5]));
}

#[test]
fn counters_are_stored_in_decimal() {
    assert_eq!(to_decimal(0), b"0".to_vec());
    assert_eq!(to_decimal(7), b"7".to_vec());
    assert_eq!(to_decimal(65537), b"65537".to_vec());
    assert_eq!(to_decimal(u32::MAX), b"4294967295".to_vec());
    assert_eq!(parse_decimal(b"0"), Some(0));
    assert_eq!(parse_decimal(b"007"), Some(7));
    assert_eq!(parse_decimal(b"4294967295"), Some(u32::MAX));
    assert_eq!(parse_decimal(b"4294967296"), None);
    assert_eq!(parse_decimal(b"99999999999999999999999"), None);
    assert_eq!(parse_decimal(b""), None);
    assert_eq!(parse_decimal(b"12a"), None);
    assert_eq!(parse_decimal(b"-1"), None);
}
