use lean_hashbrown::object::{lean_is_scalar, BorrowedLeanObject, BorrowedObject, LeanObject};
use lean_hashbrown::set::lean_hashbrown_hashset_create;

#[test]
fn scalar_words_have_low_bit_set() {
    assert!(lean_is_scalar(1));
    assert!(lean_is_scalar(0x2b));
    assert!(!lean_is_scalar(0));
    assert!(!lean_is_scalar(0x1000));
}

#[test]
fn into_raw_gives_the_word() {
    let o = LeanObject::new(0xdead_beef);
    assert_eq!(o.word(), 0xdead_beef);
    assert_eq!(o.into_raw(), 0xdead_beef);
}

#[test]
fn clone_takes_a_reference() {
    let o = LeanObject::new(3);
    assert!(o.is_exclusive());
    let c = o.clone();
    assert!(!o.is_exclusive());
    assert_eq!(c.word(), 3);
    drop(c);
    assert!(o.is_exclusive());
}

#[test]
fn borrowed_lean_object_to_owned() {
    let o = LeanObject::new(12);
    let b = BorrowedLeanObject::new(&o);
    let owned = b.to_owned();
    assert_eq!(owned.word(), 12);
    assert!(!o.is_exclusive());
}

#[test]
fn borrowed_object_to_owned() {
    let s = lean_hashbrown_hashset_create();
    let b = BorrowedObject::new(&s);
    let owned = b.to_owned();
    assert!(!s.lean_is_exclusive());
    drop(owned);
    assert!(s.lean_is_exclusive());
}
