use mamu_search::{
    try_match_group_at_address, try_match_ordered, try_match_unordered, SearchMode, SearchQuery,
    SearchValue, ValueType,
};

fn dwords(values: &[u32]) -> Vec<u8> {
    let mut bytes = Vec::new();
    for value in values {
        bytes.extend_from_slice(&value.to_le_bytes());
    }
    bytes
}

fn query(values: &[i128], mode: SearchMode, range: u32) -> SearchQuery {
    SearchQuery::new(
        values.iter().map(|v| SearchValue::fixed(*v, ValueType::Dword)).collect(),
        mode,
        range,
    )
}

#[test]
fn ordered_match_takes_first_hits() {
    let window = dwords(&[100, 200, 300, 300]);
    let q = query(&[100, 200, 300], SearchMode::Ordered, 16);
    assert_eq!(try_match_ordered(&window, 0x1000, &q), Some(vec![0, 4, 8]));
}

#[test]
fn ordered_match_skips_gaps() {
    let window = dwords(&[7, 100, 8, 200, 300]);
    let q = query(&[100, 200, 300], SearchMode::Ordered, 20);
    assert_eq!(try_match_ordered(&window, 0, &q), Some(vec![4, 12, 16]));
}

#[test]
fn ordered_match_fails_on_wrong_order() {
    let window = dwords(&[100, 300, 200]);
    let q = query(&[100, 200, 300], SearchMode::Ordered, 12);
    assert_eq!(try_match_ordered(&window, 0, &q), None);
}

#[test]
fn unordered_match_finds_any_order() {
    let window = dwords(&[300, 100, 200]);
    let q = query(&[100, 200, 300], SearchMode::Unordered, 32);
    assert_eq!(try_match_unordered(&window, 0, &q), Some(vec![4, 8, 0]));
    assert_eq!(try_match_group_at_address(&window, 0, &q), Some(vec![4, 8, 0]));
}

#[test]
fn unordered_match_needs_every_value() {
    let window = dwords(&[100, 200, 5]);
    let q = query(&[100, 200, 300], SearchMode::Unordered, 32);
    assert_eq!(try_match_unordered(&window, 0, &q), None);
}
