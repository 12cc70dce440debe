//! Index key construction: short values are stored inline, long ones as
//! byte vectors, and equality is decided by the serialized bytes.

use entity_store::index::IndexValue;

#[test]
fn index_test_index_value_hasher_finish2_short() {
    let value: i32 = 42;
    let bytes = value.to_le_bytes().to_vec();
    let index = IndexValue::new(&bytes);
    assert!(matches!(index, IndexValue::Fixed(_)));
}

#[test]
fn index_test_index_value_hasher_finish2_long() {
    let value = "this is a longer string that exceeds 16 bytes";
    let bytes = value.as_bytes().to_vec();
    let index = IndexValue::new(&bytes);
    assert!(matches!(index, IndexValue::Variable(_)));
}

#[test]
fn index_test_index_value_compute_same_values() {
    let value = "test value";
    let value2 = "test value";
    assert_eq!(
        IndexValue::new(&value.as_bytes().to_vec()),
        IndexValue::new(&value2.as_bytes().to_vec())
    );
}

#[test]
fn index_test_index_value_compute_different_values() {
    let value1: i32 = 42;
    let value2: i32 = 43;
    assert_ne!(
        IndexValue::new(&value1.to_le_bytes().to_vec()),
        IndexValue::new(&value2.to_le_bytes().to_vec())
    );
}

#[test]
fn index_value_sixteen_byte_boundary() {
    // A value of exactly 16 bytes stays inline; 17 bytes go variable; the
    // two never compare equal even with an equal prefix.
    let sixteen = vec![7u8; 16];
    let seventeen = {
        let mut v = vec![7u8; 16];
        v.push(0);
        v
    };
    let short = IndexValue::new(&sixteen);
    let long = IndexValue::new(&seventeen);
    assert!(matches!(short, IndexValue::Fixed(_)));
    assert!(matches!(long, IndexValue::Variable(_)));
    assert_ne!(short, long);
}

#[test]
fn index_value_equal_iff_equal_bytes() {
    let a = IndexValue::new(&vec![1u8, 2, 3]);
    let b = IndexValue::new(&vec![1u8, 2, 3]);
    let c = IndexValue::new(&vec![1u8, 2, 4]);
    assert_eq!(a, b);
    assert_ne!(a, c);
}
