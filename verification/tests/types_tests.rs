use mamu_search::types::decode_le;
use mamu_search::{
    MatchError, MemoryAccessMode, SearchError, SearchMode, SearchQuery, SearchValue, ValuePair,
    ValueType,
};

#[test]
fn value_type_sizes_and_ids() {
    let all = [
        (ValueType::Byte, 1, 0),
        (ValueType::Word, 2, 1),
        (ValueType::Dword, 4, 2),
        (ValueType::Qword, 8, 3),
        (ValueType::Float, 4, 4),
        (ValueType::Double, 8, 5),
    ];
    for (value_type, size, id) in all {
        assert_eq!(value_type.size(), size);
        assert_eq!(value_type.to_id(), id);
        assert_eq!(ValueType::from_id(id), Some(value_type));
    }
    assert_eq!(ValueType::from_id(6), None);
    assert_eq!(ValueType::from_id(-1), None);
    assert!(ValueType::Float.is_float());
    assert!(ValueType::Double.is_float());
    assert!(!ValueType::Qword.is_float());
}

#[test]
fn memory_access_mode_ids() {
    assert_eq!(MemoryAccessMode::from_id(0), Some(MemoryAccessMode::NoAccess));
    assert_eq!(MemoryAccessMode::from_id(1), Some(MemoryAccessMode::NonCacheable));
    assert_eq!(MemoryAccessMode::from_id(2), Some(MemoryAccessMode::WriteThrough));
    assert_eq!(MemoryAccessMode::from_id(3), Some(MemoryAccessMode::Normal));
    assert_eq!(MemoryAccessMode::from_id(4), Some(MemoryAccessMode::PageFault));
    assert_eq!(MemoryAccessMode::from_id(5), None);
    assert_eq!(MemoryAccessMode::from_id(-1), None);
    for id in 0..5 {
        assert_eq!(MemoryAccessMode::from_id(id).unwrap().to_id(), id);
    }
}

#[test]
fn fixed_holds_little_endian_bytes() {
    match SearchValue::fixed(0x0102_0304, ValueType::Dword) {
        SearchValue::FixedInt { value, value_type } => {
            assert_eq!(value, [4, 3, 2, 1, 0, 0, 0, 0]);
            assert_eq!(value_type, ValueType::Dword);
        }
        _ => panic!("not a fixed integer"),
    }
    match SearchValue::fixed(-2, ValueType::Qword) {
        SearchValue::FixedInt { value, .. } => {
            assert_eq!(value, [0xfe, 0xff, 0xff, 0xff, 0xff, 0xff, 0xff, 0xff]);
        }
        _ => panic!("not a fixed integer"),
    }
    match SearchValue::fixed(0xDEADBEEFCAFEBABEu64 as i128, ValueType::Qword) {
        SearchValue::FixedInt { value, .. } => {
            assert_eq!(value, 0xDEADBEEFCAFEBABEu64.to_le_bytes());
        }
        _ => panic!("not a fixed integer"),
    }
    match SearchValue::fixed(i128::MIN, ValueType::Qword) {
        SearchValue::FixedInt { value, .. } => assert_eq!(value, [0; 8]),
        _ => panic!("not a fixed integer"),
    }
}

#[test]
fn fixed_int_matches_its_bytes_only() {
    let value = SearchValue::fixed(300, ValueType::Dword);
    assert_eq!(value.value_type(), ValueType::Dword);
    assert_eq!(value.matched(&300u32.to_le_bytes()), Ok(true));
    assert_eq!(value.matched(&301u32.to_le_bytes()), Ok(false));
    assert_eq!(value.matched(&[0x2c, 0x01]), Err(MatchError::LengthMismatch));
    assert_eq!(value.matched(&[0x2c, 0x01, 0, 0, 0]), Err(MatchError::LengthMismatch));
    assert_eq!(value.matched(&[]), Err(MatchError::LengthMismatch));
    let byte = SearchValue::fixed(-1, ValueType::Byte);
    assert_eq!(byte.matched(&[0xff]), Ok(true));
    assert_eq!(byte.matched(&[0x7f]), Ok(false));
}

#[test]
fn range_matches_inclusive_interval() {
    let unsigned = SearchValue::range(100, 200, ValueType::Dword, false);
    assert_eq!(unsigned.matched(&100u32.to_le_bytes()), Ok(true));
    assert_eq!(unsigned.matched(&200u32.to_le_bytes()), Ok(true));
    assert_eq!(unsigned.matched(&150u32.to_le_bytes()), Ok(true));
    assert_eq!(unsigned.matched(&99u32.to_le_bytes()), Ok(false));
    assert_eq!(unsigned.matched(&201u32.to_le_bytes()), Ok(false));
    assert_eq!(unsigned.matched(&[100]), Err(MatchError::LengthMismatch));

    let signed = SearchValue::range(-5, 5, ValueType::Word, true);
    assert_eq!(signed.matched(&(-5i16).to_le_bytes()), Ok(true));
    assert_eq!(signed.matched(&(-6i16).to_le_bytes()), Ok(false));
    assert_eq!(signed.matched(&5i16.to_le_bytes()), Ok(true));
    assert_eq!(signed.matched(&6i16.to_le_bytes()), Ok(false));
    // read without a sign, -5 is 65531
    let same_unsigned = SearchValue::range(-5, 5, ValueType::Word, false);
    assert_eq!(same_unsigned.matched(&(-5i16).to_le_bytes()), Ok(false));

    let wide = SearchValue::range(i64::MIN as i128, -1, ValueType::Qword, true);
    assert_eq!(wide.matched(&(-1i64).to_le_bytes()), Ok(true));
    assert_eq!(wide.matched(&i64::MIN.to_le_bytes()), Ok(true));
    assert_eq!(wide.matched(&0i64.to_le_bytes()), Ok(false));
    let top = SearchValue::range(u64::MAX as i128, u64::MAX as i128, ValueType::Qword, false);
    assert_eq!(top.matched(&u64::MAX.to_le_bytes()), Ok(true));
}

fn key_of_f32(value: f32) -> i64 {
    let bits = value.to_bits() as i64;
    if bits >= 0x8000_0000 {
        -(bits - 0x8000_0000)
    } else {
        bits
    }
}

fn key_of_f64(value: f64) -> i64 {
    let bits = value.to_bits();
    if bits >= 0x8000_0000_0000_0000 {
        -((bits - 0x8000_0000_0000_0000) as i64)
    } else {
        bits as i64
    }
}

#[test]
fn fixed_float_matches_the_keys_of_its_interval() {
    let exact = SearchValue::fixed_float(
        2.5f32.to_bits() as u64,
        key_of_f32(2.5),
        key_of_f32(2.5),
        ValueType::Float,
    );
    match exact {
        SearchValue::FixedFloat { pattern, .. } => {
            assert_eq!(&pattern[..4], &2.5f32.to_le_bytes());
        }
        _ => panic!("not a fixed float"),
    }
    assert_eq!(exact.matched(&2.5f32.to_le_bytes()), Ok(true));
    assert_eq!(exact.matched(&f32::from_bits(2.5f32.to_bits() + 1).to_le_bytes()), Ok(false));
    assert_eq!(exact.matched(&2.5f64.to_le_bytes()), Err(MatchError::LengthMismatch));

    let around_zero =
        SearchValue::fixed_float(0, key_of_f32(-0.5), key_of_f32(0.5), ValueType::Float);
    assert_eq!(around_zero.matched(&0.25f32.to_le_bytes()), Ok(true));
    assert_eq!(around_zero.matched(&(-0.25f32).to_le_bytes()), Ok(true));
    assert_eq!(around_zero.matched(&(-0.0f32).to_le_bytes()), Ok(true));
    assert_eq!(around_zero.matched(&0.5f32.to_le_bytes()), Ok(true));
    assert_eq!(around_zero.matched(&0.75f32.to_le_bytes()), Ok(false));
    assert_eq!(around_zero.matched(&(-0.75f32).to_le_bytes()), Ok(false));
    assert_eq!(around_zero.matched(&f32::NAN.to_le_bytes()), Ok(false));

    let double = SearchValue::fixed_float(
        1.0f64.to_bits(),
        key_of_f64(1.0 - f64::EPSILON),
        key_of_f64(1.0 + f64::EPSILON),
        ValueType::Double,
    );
    assert_eq!(double.matched(&1.0f64.to_le_bytes()), Ok(true));
    assert_eq!(double.matched(&(1.0f64 + f64::EPSILON).to_le_bytes()), Ok(true));
    assert_eq!(double.matched(&1.5f64.to_le_bytes()), Ok(false));
    assert_eq!(double.matched(&(-1.0f64).to_le_bytes()), Ok(false));
    assert_eq!(double.matched(&f64::NAN.to_le_bytes()), Ok(false));
    assert_eq!(double.matched(&f64::INFINITY.to_le_bytes()), Ok(false));
}

#[test]
fn fixed_float_of_an_integer_type_is_malformed() {
    let malformed = SearchValue::fixed_float(0, 0, 0, ValueType::Dword);
    assert_eq!(malformed.matched(&[0, 0, 0, 0]), Err(MatchError::NotAFloatType));
    assert_eq!(malformed.matched(&[0, 0]), Err(MatchError::LengthMismatch));
}

#[test]
fn float_range_compares_keys() {
    let range = SearchValue::range(
        key_of_f32(-1.0) as i128,
        key_of_f32(2.0) as i128,
        ValueType::Float,
        true,
    );
    assert_eq!(range.matched(&(-1.0f32).to_le_bytes()), Ok(true));
    assert_eq!(range.matched(&0.0f32.to_le_bytes()), Ok(true));
    assert_eq!(range.matched(&2.0f32.to_le_bytes()), Ok(true));
    assert_eq!(range.matched(&2.5f32.to_le_bytes()), Ok(false));
    assert_eq!(range.matched(&(-1.5f32).to_le_bytes()), Ok(false));
    assert_eq!(range.matched(&f32::NAN.to_le_bytes()), Ok(false));
}

#[test]
fn wildcard_matches_everything_of_its_width() {
    let any = SearchValue::wildcard(ValueType::Word);
    assert_eq!(any.matched(&[1, 2]), Ok(true));
    assert_eq!(any.matched(&[0, 0]), Ok(true));
    assert_eq!(any.matched(&[1]), Err(MatchError::LengthMismatch));
}

#[test]
fn decode_le_reads_little_endian() {
    assert_eq!(decode_le(&[]), 0);
    assert_eq!(decode_le(&[0x34, 0x12]), 0x1234);
    assert_eq!(decode_le(&[1, 2, 3, 4, 5, 6, 7, 8]), 0x0807_0605_0403_0201);
    assert_eq!(decode_le(&[0xff; 8]), u64::MAX);
}

#[test]
fn query_sizes() {
    let query = SearchQuery::new(
        vec![
            SearchValue::fixed(1, ValueType::Dword),
            SearchValue::wildcard(ValueType::Word),
            SearchValue::range(0, 9, ValueType::Qword, false),
        ],
        SearchMode::Ordered,
        64,
    );
    assert_eq!(query.total_size(), 14);
    assert_eq!(query.min_element_size(), 2);
    assert_eq!(query.range, 64);
    assert_eq!(query.mode, SearchMode::Ordered);
    let empty = SearchQuery::new(Vec::new(), SearchMode::Unordered, 0);
    assert_eq!(empty.total_size(), 0);
    assert_eq!(empty.min_element_size(), 1);
}

#[test]
fn query_validation() {
    let empty = SearchQuery::new(Vec::new(), SearchMode::Ordered, 64);
    assert_eq!(empty.validate(), Err(SearchError::EmptyQuery));
    let values = vec![
        SearchValue::fixed(1, ValueType::Dword),
        SearchValue::fixed(2, ValueType::Dword),
        SearchValue::fixed(3, ValueType::Qword),
    ];
    assert_eq!(
        SearchQuery::new(values.clone(), SearchMode::Ordered, 15).validate(),
        Err(SearchError::RangeTooSmall)
    );
    assert_eq!(SearchQuery::new(values.clone(), SearchMode::Ordered, 16).validate(), Ok(()));
    assert_eq!(SearchQuery::new(values, SearchMode::Unordered, 0).validate(),
        Err(SearchError::RangeTooSmall));
    // a single value needs no range
    let single = SearchQuery::new(
        vec![SearchValue::fixed(1, ValueType::Qword)],
        SearchMode::Ordered,
        0,
    );
    assert_eq!(single.validate(), Ok(()));
}

#[test]
fn value_pair_from_tuple() {
    let pair: ValuePair = (0x1234u64, ValueType::Word).into();
    assert_eq!(pair, ValuePair::new(0x1234, ValueType::Word));
    assert_eq!(pair.addr, 0x1234);
    assert_eq!(pair.value_type, ValueType::Word);
}

#[test]
fn value_pairs_are_ordered_by_address() {
    let low = ValuePair::new(0x10, ValueType::Qword);
    let high = ValuePair::new(0x20, ValueType::Byte);
    assert!(low < high);
    assert!(high > low);
    assert!(!(high < low));
    assert!(low <= ValuePair::new(0x10, ValueType::Byte));
    assert_eq!(
        low.partial_cmp(&ValuePair::new(0x10, ValueType::Byte)),
        Some(std::cmp::Ordering::Equal)
    );
    assert_ne!(low, ValuePair::new(0x10, ValueType::Byte));
}
