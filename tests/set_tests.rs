use lean_hashbrown::object::{BorrowedObject, ExternalClass, HostRef, LeanObject, Object};
use lean_hashbrown::set::{
    lean_hashbrown_hashset_contains, lean_hashbrown_hashset_create,
    lean_hashbrown_hashset_get_iter, lean_hashbrown_hashset_insert,
    lean_hashbrown_hashset_iter_get_element, lean_hashbrown_hashset_iter_has_element,
    lean_hashbrown_hashset_iter_move_next, lean_hashbrown_hashset_len,
    lean_hashbrown_hashset_remove, HashSet,
};

fn len(s: &Object<HashSet>) -> usize {
    lean_hashbrown_hashset_len(BorrowedObject::new(s))
}

fn contains(s: &Object<HashSet>, hash: u64, e: u64) -> bool {
    lean_hashbrown_hashset_contains(BorrowedObject::new(s), hash, &|k: &LeanObject| {
        k.word() == e
    })
}

fn insert(s: Object<HashSet>, hash: u64, e: u64) -> Object<HashSet> {
    lean_hashbrown_hashset_insert(s, hash, LeanObject::new(e), &|k: &LeanObject| k.word() == e)
}

fn remove(s: Object<HashSet>, hash: u64, e: u64) -> Object<HashSet> {
    lean_hashbrown_hashset_remove(s, hash, &|k: &LeanObject| k.word() == e)
}

fn collect(s: &Object<HashSet>) -> Vec<u64> {
    let mut out = Vec::new();
    let mut it = lean_hashbrown_hashset_get_iter(s.clone());
    while lean_hashbrown_hashset_iter_has_element(BorrowedObject::new(&it)) {
        let e = lean_hashbrown_hashset_iter_get_element(BorrowedObject::new(&it)).unwrap();
        out.push(e.word());
        it = lean_hashbrown_hashset_iter_move_next(it);
    }
    out.sort();
    out
}

#[test]
fn set_insert_replace_remove() {
    let s0 = lean_hashbrown_hashset_create();
    assert_eq!(len(&s0), 0);
    let s1 = insert(s0, 5, 97);
    assert_eq!(len(&s1), 1);
    let s2 = insert(s1, 5, 97);
    assert_eq!(len(&s2), 1);
    assert!(contains(&s2, 5, 97));
    let s3 = remove(s2, 5, 97);
    assert_eq!(len(&s3), 0);
    assert!(!contains(&s3, 5, 97));
    let it = lean_hashbrown_hashset_get_iter(s3);
    assert!(!lean_hashbrown_hashset_iter_has_element(BorrowedObject::new(&it)));
    assert!(lean_hashbrown_hashset_iter_get_element(BorrowedObject::new(&it)).is_none());
}

#[test]
fn set_shared_handle_insert_clones() {
    let a = insert(lean_hashbrown_hashset_create(), 1, 10);
    let b = a.clone();
    let a2 = insert(a, 2, 20);
    assert_eq!(len(&b), 1);
    assert_eq!(len(&a2), 2);
    assert!(!contains(&b, 2, 20));
    assert!(contains(&a2, 2, 20));
    assert!(b.lean_is_exclusive());
}

#[test]
fn set_hash_collision_keeps_elements_apart() {
    let s = insert(insert(lean_hashbrown_hashset_create(), 9, 1), 9, 2);
    assert_eq!(len(&s), 2);
    assert!(contains(&s, 9, 1));
    assert!(!contains(&s, 9, 3));
    let s = remove(s, 9, 3);
    assert_eq!(len(&s), 2);
    let s = remove(s, 9, 2);
    assert_eq!(collect(&s), vec![1]);
}

#[test]
fn set_full_iteration_visits_each_element_once() {
    let mut s = lean_hashbrown_hashset_create();
    for i in 0..40u64 {
        s = insert(s, i.wrapping_mul(0x2545_f491_4f6c_dd1d), i);
    }
    assert_eq!(collect(&s), (0..40u64).collect::<Vec<u64>>());
    assert!(s.lean_is_exclusive());
}

#[test]
fn set_cursor_releases_set_when_done() {
    let s = insert(lean_hashbrown_hashset_create(), 3, 30);
    let it = lean_hashbrown_hashset_get_iter(s.clone());
    assert!(!s.lean_is_exclusive());
    assert_eq!(
        lean_hashbrown_hashset_iter_get_element(BorrowedObject::new(&it)).unwrap().word(),
        30
    );
    let it = lean_hashbrown_hashset_iter_move_next(it);
    assert!(!lean_hashbrown_hashset_iter_has_element(BorrowedObject::new(&it)));
    assert!(s.lean_is_exclusive());
}

#[test]
fn set_foreach_hands_out_elements() {
    let s = insert(insert(lean_hashbrown_hashset_create(), 1, 10), 2, 20);
    let mut refs: Vec<u64> = s
        .get()
        .foreach()
        .iter()
        .map(|r| match r {
            HostRef::Value(o) => o.word(),
            _ => panic!("expected a host value"),
        })
        .collect();
    refs.sort();
    assert_eq!(refs, vec![10, 20]);
}

#[test]
fn set_cursor_foreach_hands_out_its_set_once() {
    let s = insert(insert(lean_hashbrown_hashset_create(), 1, 10), 2, 20);
    let it = lean_hashbrown_hashset_get_iter(s.clone());
    let refs = it.get().foreach();
    assert_eq!(refs.len(), 1);
    match &refs[0] {
        HostRef::SetHandle(h) => assert_eq!(collect(h), vec![10, 20]),
        _ => panic!("expected the cursor's set"),
    }
    drop(refs);
    let it = lean_hashbrown_hashset_iter_move_next(lean_hashbrown_hashset_iter_move_next(it));
    assert_eq!(it.get().foreach().len(), 0);
    assert!(s.lean_is_exclusive());
}

#[test]
fn set_replaced_element_is_released() {
    let first = LeanObject::new(7);
    let s = lean_hashbrown_hashset_insert(
        lean_hashbrown_hashset_create(),
        4,
        first.clone(),
        &|k: &LeanObject| k.word() == 7,
    );
    assert!(!first.is_exclusive());
    let s = insert(s, 4, 7);
    assert!(first.is_exclusive());
    assert_eq!(len(&s), 1);
}
