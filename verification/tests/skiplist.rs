use bytes::Bytes;

use skipmap::skiplist::DuplicateKeyError;
use skipmap::skiplist::SkipList;

#[test]
fn it_works() {
    let mut skip_list = SkipList::new();
    let key = Bytes::from("hello");
    let value = Bytes::from("world");
    skip_list.insert(key.to_vec(), value.to_vec()).unwrap();
    let got = skip_list.get(&key.to_vec());
    assert_eq!(value.to_vec(), got.unwrap());
    assert_eq!(skip_list.contain(&key.to_vec()), true);
}

#[test]
fn basic_scenario() {
    let mut m = SkipList::new();
    assert!(m.insert(b"hello".to_vec(), b"world".to_vec()).is_ok());
    assert_eq!(m.get(&b"hello".to_vec()), Some(b"world".to_vec()));
    assert!(m.contain(&b"hello".to_vec()));
}

#[test]
fn duplicate_rejection() {
    let mut m = SkipList::new();
    assert!(m.insert(b"a".to_vec(), b"1".to_vec()).is_ok());
    let second = m.insert(b"a".to_vec(), b"2".to_vec());
    assert_eq!(second, Err(DuplicateKeyError));
    assert_eq!(m.get(&b"a".to_vec()), Some(b"1".to_vec()));
}

#[test]
fn multi_key_ordering() {
    let mut m = SkipList::new();
    assert!(m.insert(b"c".to_vec(), b"3".to_vec()).is_ok());
    assert!(m.insert(b"a".to_vec(), b"1".to_vec()).is_ok());
    assert!(m.insert(b"b".to_vec(), b"2".to_vec()).is_ok());
    let keys = m.keys_in_order();
    assert_eq!(keys, vec![b"a".to_vec(), b"b".to_vec(), b"c".to_vec()]);
    assert_eq!(m.get(&b"a".to_vec()), Some(b"1".to_vec()));
    assert_eq!(m.get(&b"b".to_vec()), Some(b"2".to_vec()));
    assert_eq!(m.get(&b"c".to_vec()), Some(b"3".to_vec()));
}

#[test]
fn empty_map() {
    let m = SkipList::new();
    assert_eq!(m.get(&b"x".to_vec()), None);
    assert_eq!(m.contain(&b"x".to_vec()), false);
    assert_eq!(m.keys_in_order(), Vec::<Vec<u8>>::new());
}

#[test]
fn absent_key_among_present_ones() {
    let mut m = SkipList::new();
    assert!(m.insert(b"apple".to_vec(), b"1".to_vec()).is_ok());
    assert!(m.insert(b"cherry".to_vec(), b"2".to_vec()).is_ok());
    assert_eq!(m.get(&b"banana".to_vec()), None);
    assert!(!m.contain(&b"banana".to_vec()));
    assert_eq!(m.get(&b"applf".to_vec()), None);
    assert_eq!(m.get(&b"appl".to_vec()), None);
}

#[test]
fn height_stays_bounded_and_monotonic() {
    let mut m = SkipList::new();
    assert_eq!(m.current_height(), 1);
    let mut last = m.current_height();
    for i in 0..500u32 {
        let key = format!("key-{:05}", i).into_bytes();
        assert!(m.insert(key, vec![1u8]).is_ok());
        let h = m.current_height();
        assert!((1..=12).contains(&h));
        assert!(h >= last);
        last = h;
    }
}

#[test]
fn explicit_heights_are_honoured() {
    let mut m = SkipList::new();
    assert!(m.insert_with_height(b"low".to_vec(), b"1".to_vec(), 1).is_ok());
    assert_eq!(m.current_height(), 1);
    assert!(m.insert_with_height(b"high".to_vec(), b"2".to_vec(), 12).is_ok());
    assert_eq!(m.current_height(), 12);
    assert!(m.insert_with_height(b"mid".to_vec(), b"3".to_vec(), 6).is_ok());
    assert_eq!(m.current_height(), 12);
    assert_eq!(m.get(&b"low".to_vec()), Some(b"1".to_vec()));
    assert_eq!(m.get(&b"high".to_vec()), Some(b"2".to_vec()));
    assert_eq!(m.get(&b"mid".to_vec()), Some(b"3".to_vec()));
    let dup = m.insert_with_height(b"mid".to_vec(), b"9".to_vec(), 4);
    assert_eq!(dup, Err(DuplicateKeyError));
    assert_eq!(m.get(&b"mid".to_vec()), Some(b"3".to_vec()));
}

#[test]
fn bulk_reverse_insertion_keeps_order() {
    let mut m = SkipList::new();
    for i in (0..200u32).rev() {
        let key = format!("{:04}", i).into_bytes();
        let value = format!("v{}", i).into_bytes();
        assert!(m.insert(key, value).is_ok());
    }
    let keys = m.keys_in_order();
    assert_eq!(keys.len(), 200);
    for i in 0..200usize {
        assert_eq!(keys[i], format!("{:04}", i).into_bytes());
        if i > 0 {
            assert!(keys[i - 1] < keys[i]);
        }
    }
    for i in 0..200u32 {
        let key = format!("{:04}", i).into_bytes();
        assert_eq!(m.get(&key), Some(format!("v{}", i).into_bytes()));
    }
}

#[test]
fn empty_key_is_a_valid_key() {
    let mut m = SkipList::new();
    assert!(m.insert(Vec::new(), b"root".to_vec()).is_ok());
    assert!(m.insert(b"a".to_vec(), b"1".to_vec()).is_ok());
    assert_eq!(m.get(&Vec::new()), Some(b"root".to_vec()));
    let keys = m.keys_in_order();
    assert_eq!(keys, vec![Vec::<u8>::new(), b"a".to_vec()]);
    let dup = m.insert(Vec::new(), b"again".to_vec());
    assert_eq!(dup, Err(DuplicateKeyError));
}

#[test]
fn prefix_keys_order_correctly() {
    let mut m = SkipList::new();
    assert!(m.insert(b"ab".to_vec(), b"2".to_vec()).is_ok());
    assert!(m.insert(b"a".to_vec(), b"1".to_vec()).is_ok());
    assert!(m.insert(b"abc".to_vec(), b"3".to_vec()).is_ok());
    let keys = m.keys_in_order();
    assert_eq!(keys, vec![b"a".to_vec(), b"ab".to_vec(), b"abc".to_vec()]);
    assert_eq!(m.get(&b"a".to_vec()), Some(b"1".to_vec()));
    assert_eq!(m.get(&b"ab".to_vec()), Some(b"2".to_vec()));
    assert_eq!(m.get(&b"abc".to_vec()), Some(b"3".to_vec()));
}

#[test]
fn values_round_trip_through_bytes() {
    let mut m = SkipList::new();
    let key = Bytes::from_static(&[0u8, 255, 7]);
    let value = Bytes::from_static(&[9u8, 0, 1]);
    assert!(m.insert(key.to_vec(), value.to_vec()).is_ok());
    let got = m.get(&key.to_vec()).unwrap();
    assert_eq!(Bytes::from(got), value);
}
