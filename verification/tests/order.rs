use skipmap::order::KeyOrder;
use skipmap::order::key_cmp;

#[test]
fn byte_wise_comparison() {
    assert_eq!(key_cmp(&b"a".to_vec(), &b"b".to_vec()), KeyOrder::Less);
    assert_eq!(key_cmp(&b"b".to_vec(), &b"a".to_vec()), KeyOrder::Greater);
    assert_eq!(key_cmp(&b"abc".to_vec(), &b"abc".to_vec()), KeyOrder::Equal);
    assert_eq!(key_cmp(&Vec::new(), &Vec::new()), KeyOrder::Equal);
    assert_eq!(key_cmp(&Vec::new(), &b"a".to_vec()), KeyOrder::Less);
    assert_eq!(key_cmp(&b"a".to_vec(), &b"ab".to_vec()), KeyOrder::Less);
    assert_eq!(key_cmp(&b"ab".to_vec(), &b"a".to_vec()), KeyOrder::Greater);
    assert_eq!(key_cmp(&vec![0u8, 255], &vec![1u8, 0]), KeyOrder::Less);
}
