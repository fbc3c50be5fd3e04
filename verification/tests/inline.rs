use zipng::inline::{CAPExceeded, InlineVec};

#[test]
fn push_until_full_then_pop() {
    let mut v = InlineVec::<u8, 3>::new();
    assert!(v.is_empty());
    assert_eq!(v.capacity(), 3);
    assert_eq!(v.try_push(1), Ok(()));
    assert_eq!(v.try_push(2), Ok(()));
    assert_eq!(v.try_push(3), Ok(()));
    assert!(v.is_full());
    assert_eq!(v.try_push(4), Err(4));
    assert_eq!(v.len(), 3);
    assert_eq!(v.iter(), vec![1, 2, 3]);
    assert_eq!(v.pop(), Some(3));
    assert_eq!(v.pop(), Some(2));
    assert_eq!(v.pop(), Some(1));
    assert_eq!(v.pop(), None);
    assert!(v.is_empty());
}

#[test]
fn push_then_pop_restores() {
    let mut v = InlineVec::<u32, 4>::try_from_slice(&[5, 6]).unwrap();
    let before = v.iter();
    assert_eq!(v.try_push(7), Ok(()));
    assert_eq!(v.pop(), Some(7));
    assert_eq!(v.iter(), before);
}

#[test]
fn conversions_respect_capacity() {
    assert!(matches!(InlineVec::<u8, 2>::try_from_slice(&[1, 2, 3]), Err(CAPExceeded)));
    let v = InlineVec::<u8, 3>::try_from_vec(vec![1, 2]).unwrap();
    assert_eq!(v.iter(), vec![1, 2]);
    let full = InlineVec::<char, 2>::from_array(['a', 'b']);
    assert!(full.is_full());
    let copy = full;
    assert_eq!(copy.iter(), vec!['a', 'b']);
    assert_eq!(full.clone().len(), 2);
}

#[test]
fn default_vectors_are_empty() {
    let v: InlineVec<u16, 5> = InlineVec::default();
    assert!(v.is_empty());
    assert_eq!(v.len(), 0);
    assert_eq!(v.capacity(), 5);
    assert_eq!(v.iter(), Vec::<u16>::new());
}
