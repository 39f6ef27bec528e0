use uwb_delay_test::SmallVec;

#[test]
fn small_vec_push_and_len() {
    let mut v: SmallVec<u32, 3> = SmallVec::new();
    assert!(v.is_empty());
    v.push(1);
    v.push(2);
    assert_eq!(v.len(), 2);
    assert!(!v.is_empty());
    assert_eq!(v.as_slice(), &[1, 2]);
}

#[test]
fn small_vec_ignores_push_when_full() {
    let mut v: SmallVec<u32, 2> = SmallVec::new();
    v.push(1);
    v.push(2);
    v.push(3);
    assert_eq!(v.len(), 2);
    assert_eq!(v.as_slice(), &[1, 2]);
}

#[test]
fn small_vec_into_iter_in_order() {
    let mut v: SmallVec<String, 4> = SmallVec::new();
    v.push("a".to_string());
    v.push("b".to_string());
    v.push("c".to_string());
    let mut it = v.into_iter();
    assert_eq!(it.next(), Some("a".to_string()));
    assert_eq!(it.next(), Some("b".to_string()));
    assert_eq!(it.next(), Some("c".to_string()));
    assert_eq!(it.next(), None);
    assert_eq!(it.next(), None);
}

#[test]
fn small_vec_series_of_pushes() {
    let mut v: SmallVec<u8, 4> = SmallVec::new();
    for x in 0u8..10 {
        v.push(x);
        assert!(v.len() <= 4);
    }
    assert_eq!(v.as_slice(), &[0, 1, 2, 3]);
}
