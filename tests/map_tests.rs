use lean_hashbrown::map::{
    lean_hashbrown_hashmap_contains, lean_hashbrown_hashmap_create,
    lean_hashbrown_hashmap_get_iter, lean_hashbrown_hashmap_get_value,
    lean_hashbrown_hashmap_insert, lean_hashbrown_hashmap_iter_get_key,
    lean_hashbrown_hashmap_iter_get_value, lean_hashbrown_hashmap_iter_has_kv,
    lean_hashbrown_hashmap_iter_move_next, lean_hashbrown_hashmap_len,
    lean_hashbrown_hashmap_remove, HashMap,
};
use lean_hashbrown::object::{BorrowedObject, ExternalClass, HostRef, LeanObject, Object};

fn obj(w: u64) -> LeanObject {
    LeanObject::new(w)
}

fn len(m: &Object<HashMap>) -> usize {
    lean_hashbrown_hashmap_len(BorrowedObject::new(m))
}

fn get(m: &Object<HashMap>, hash: u64, key: u64) -> Option<u64> {
    lean_hashbrown_hashmap_get_value(BorrowedObject::new(m), hash, &|k: &LeanObject| {
        k.word() == key
    })
    .map(|v| v.word())
}

fn contains(m: &Object<HashMap>, hash: u64, key: u64) -> bool {
    lean_hashbrown_hashmap_contains(BorrowedObject::new(m), hash, &|k: &LeanObject| {
        k.word() == key
    })
}

fn insert(m: Object<HashMap>, hash: u64, key: u64, value: u64) -> Object<HashMap> {
    lean_hashbrown_hashmap_insert(m, hash, obj(key), obj(value), &|k: &LeanObject| {
        k.word() == key
    })
}

fn remove(m: Object<HashMap>, hash: u64, key: u64) -> Object<HashMap> {
    lean_hashbrown_hashmap_remove(m, hash, &|k: &LeanObject| k.word() == key)
}

fn collect(m: &Object<HashMap>) -> Vec<(u64, u64)> {
    let mut out = Vec::new();
    let mut it = lean_hashbrown_hashmap_get_iter(m.clone());
    while lean_hashbrown_hashmap_iter_has_kv(BorrowedObject::new(&it)) {
        let k = lean_hashbrown_hashmap_iter_get_key(BorrowedObject::new(&it)).unwrap();
        let v = lean_hashbrown_hashmap_iter_get_value(BorrowedObject::new(&it)).unwrap();
        out.push((k.word(), v.word()));
        it = lean_hashbrown_hashmap_iter_move_next(it);
    }
    out.sort();
    out
}

const A: u64 = 'a' as u64;
const X: u64 = 'x' as u64;
const Y: u64 = 'y' as u64;

#[test]
fn insert_replace_remove_scenario() {
    let m0 = lean_hashbrown_hashmap_create();
    assert_eq!(len(&m0), 0);
    let m1 = insert(m0, 5, A, X);
    assert_eq!(len(&m1), 1);
    let m2 = insert(m1, 5, A, Y);
    assert_eq!(len(&m2), 1);
    assert_eq!(get(&m2, 5, A), Some(Y));
    let m3 = remove(m2, 5, A);
    assert_eq!(len(&m3), 0);
    let it = lean_hashbrown_hashmap_get_iter(m3);
    assert!(!lean_hashbrown_hashmap_iter_has_kv(BorrowedObject::new(&it)));
}

#[test]
fn shared_handle_insert_clones() {
    let a = insert(lean_hashbrown_hashmap_create(), 1, 10, 100);
    let b = a.clone();
    assert!(!a.lean_is_exclusive());
    let before = len(&b);
    let a2 = insert(a, 2, 20, 200);
    assert_eq!(len(&b), before);
    assert_eq!(len(&a2), before + 1);
    assert!(b.lean_is_exclusive());
    assert!(a2.lean_is_exclusive());
    assert_eq!(get(&b, 2, 20), None);
    assert_eq!(get(&a2, 2, 20), Some(200));
    assert_eq!(get(&a2, 1, 10), Some(100));
}

#[test]
fn shared_handle_remove_leaves_alias() {
    let a = insert(insert(lean_hashbrown_hashmap_create(), 1, 10, 100), 2, 20, 200);
    let b = a.clone();
    let a2 = remove(a, 1, 10);
    assert_eq!(collect(&b), vec![(10, 100), (20, 200)]);
    assert_eq!(collect(&a2), vec![(20, 200)]);
}

#[test]
fn exclusive_handle_is_mutated_without_copy() {
    let a = insert(lean_hashbrown_hashmap_create(), 1, 10, 100);
    assert!(a.lean_is_exclusive());
    let a2 = insert(a, 2, 20, 200);
    assert!(a2.lean_is_exclusive());
    assert_eq!(len(&a2), 2);
}

#[test]
fn replacing_keeps_len() {
    let mut m = lean_hashbrown_hashmap_create();
    for i in 0..10u64 {
        m = insert(m, i % 3, i, i * 10);
    }
    assert_eq!(len(&m), 10);
    for i in 0..10u64 {
        m = insert(m, i % 3, i, i * 100);
    }
    assert_eq!(len(&m), 10);
    for i in 0..10u64 {
        assert_eq!(get(&m, i % 3, i), Some(i * 100));
    }
}

#[test]
fn len_counts_distinct_keys() {
    let mut m = lean_hashbrown_hashmap_create();
    let ops: [(bool, u64); 12] = [
        (true, 1),
        (true, 2),
        (true, 1),
        (true, 3),
        (false, 2),
        (false, 2),
        (true, 4),
        (false, 9),
        (true, 2),
        (false, 1),
        (true, 5),
        (true, 3),
    ];
    let mut present: Vec<u64> = Vec::new();
    for (is_insert, k) in ops {
        if is_insert {
            m = insert(m, k * 7, k, k);
            if !present.contains(&k) {
                present.push(k);
            }
        } else {
            m = remove(m, k * 7, k);
            present.retain(|&p| p != k);
        }
        assert_eq!(len(&m), present.len());
    }
}

#[test]
fn hash_collision_keeps_keys_apart() {
    let m = insert(insert(lean_hashbrown_hashmap_create(), 42, 1, 11), 42, 2, 22);
    assert_eq!(len(&m), 2);
    assert!(contains(&m, 42, 1));
    assert!(contains(&m, 42, 2));
    assert!(!contains(&m, 42, 3));
    assert!(!contains(&m, 43, 1));
    assert_eq!(get(&m, 42, 2), Some(22));
    let m = remove(m, 42, 1);
    assert_eq!(len(&m), 1);
    assert!(!contains(&m, 42, 1));
    assert!(contains(&m, 42, 2));
}

#[test]
fn remove_absent_is_noop() {
    let m = insert(lean_hashbrown_hashmap_create(), 3, 30, 300);
    let m = remove(m, 3, 31);
    let m = remove(m, 4, 30);
    assert_eq!(collect(&m), vec![(30, 300)]);
}

#[test]
fn get_on_empty_is_none() {
    let m = lean_hashbrown_hashmap_create();
    assert_eq!(get(&m, 0, 0), None);
    assert!(!contains(&m, 0, 0));
}

#[test]
fn full_iteration_visits_each_entry_once() {
    let mut m = lean_hashbrown_hashmap_create();
    for i in 0..50u64 {
        m = insert(m, i.wrapping_mul(0x9e37_79b9_7f4a_7c15), i, i + 1000);
    }
    let seen = collect(&m);
    let expected: Vec<(u64, u64)> = (0..50u64).map(|i| (i, i + 1000)).collect();
    assert_eq!(seen, expected);
    assert!(m.lean_is_exclusive());
}

#[test]
fn cursor_keeps_map_alive_and_releases_it() {
    let m = insert(insert(lean_hashbrown_hashmap_create(), 1, 10, 100), 2, 20, 200);
    let it = lean_hashbrown_hashmap_get_iter(m.clone());
    assert!(!m.lean_is_exclusive());
    drop(it);
    assert!(m.lean_is_exclusive());
    let it = lean_hashbrown_hashmap_get_iter(m.clone());
    let it = lean_hashbrown_hashmap_iter_move_next(it);
    assert!(lean_hashbrown_hashmap_iter_has_kv(BorrowedObject::new(&it)));
    let it = lean_hashbrown_hashmap_iter_move_next(it);
    assert!(!lean_hashbrown_hashmap_iter_has_kv(BorrowedObject::new(&it)));
    assert!(m.lean_is_exclusive());
    assert!(lean_hashbrown_hashmap_iter_get_key(BorrowedObject::new(&it)).is_none());
    assert!(lean_hashbrown_hashmap_iter_get_value(BorrowedObject::new(&it)).is_none());
    let it = lean_hashbrown_hashmap_iter_move_next(it);
    assert!(!lean_hashbrown_hashmap_iter_has_kv(BorrowedObject::new(&it)));
}

#[test]
fn empty_map_cursor_releases_at_once() {
    let m = lean_hashbrown_hashmap_create();
    let it = lean_hashbrown_hashmap_get_iter(m.clone());
    assert!(!lean_hashbrown_hashmap_iter_has_kv(BorrowedObject::new(&it)));
    assert!(m.lean_is_exclusive());
}

#[test]
fn shared_cursor_advances_a_copy() {
    let m = insert(insert(lean_hashbrown_hashmap_create(), 1, 10, 100), 2, 20, 200);
    let it = lean_hashbrown_hashmap_get_iter(m);
    let first = lean_hashbrown_hashmap_iter_get_key(BorrowedObject::new(&it)).unwrap().word();
    let alias = it.clone();
    let it2 = lean_hashbrown_hashmap_iter_move_next(it);
    let still = lean_hashbrown_hashmap_iter_get_key(BorrowedObject::new(&alias)).unwrap().word();
    assert_eq!(still, first);
    let second = lean_hashbrown_hashmap_iter_get_key(BorrowedObject::new(&it2)).unwrap().word();
    assert_ne!(second, first);
}

#[test]
fn replaced_entry_releases_its_references() {
    let old_value = obj(X);
    let m = lean_hashbrown_hashmap_insert(
        lean_hashbrown_hashmap_create(),
        5,
        obj(A),
        old_value.clone(),
        &|k: &LeanObject| k.word() == A,
    );
    assert!(!old_value.is_exclusive());
    let m = insert(m, 5, A, Y);
    assert!(old_value.is_exclusive());
    let m2 = m.clone();
    let m3 = insert(m, 6, 1, 2);
    assert_eq!(len(&m2), 1);
    assert_eq!(len(&m3), 2);
}

fn words(refs: &[HostRef]) -> Vec<u64> {
    refs.iter()
        .map(|r| match r {
            HostRef::Value(o) => o.word(),
            _ => panic!("expected a host value"),
        })
        .collect()
}

#[test]
fn foreach_hands_out_keys_and_values() {
    let m = insert(insert(lean_hashbrown_hashmap_create(), 1, 10, 100), 2, 20, 200);
    let refs = words(&m.get().foreach());
    assert_eq!(refs.len(), 4);
    let mut pairs: Vec<(u64, u64)> = refs.chunks(2).map(|c| (c[0], c[1])).collect();
    pairs.sort();
    assert_eq!(pairs, vec![(10, 100), (20, 200)]);
}

#[test]
fn cursor_foreach_hands_out_its_map_once() {
    let m = insert(insert(lean_hashbrown_hashmap_create(), 1, 10, 100), 2, 20, 200);
    let it = lean_hashbrown_hashmap_get_iter(m.clone());
    let refs = it.get().foreach();
    assert_eq!(refs.len(), 1);
    match &refs[0] {
        HostRef::MapHandle(h) => assert_eq!(collect(h), vec![(10, 100), (20, 200)]),
        _ => panic!("expected the cursor's map"),
    }
    drop(refs);
    let it = lean_hashbrown_hashmap_iter_move_next(lean_hashbrown_hashmap_iter_move_next(it));
    assert_eq!(it.get().foreach().len(), 0);
    assert!(m.lean_is_exclusive());
}

#[test]
fn cursor_does_not_hold_its_entry() {
    let key = obj(10);
    let value = obj(100);
    let m = lean_hashbrown_hashmap_insert(
        lean_hashbrown_hashmap_create(),
        1,
        key.clone(),
        value.clone(),
        &|k: &LeanObject| k.word() == 10,
    );
    let it = lean_hashbrown_hashmap_get_iter(m);
    assert!(lean_hashbrown_hashmap_iter_has_kv(BorrowedObject::new(&it)));
    drop(it);
    assert!(key.is_exclusive());
    assert!(value.is_exclusive());
}

#[test]
fn clone_owned_copies_entries() {
    let m = insert(insert(lean_hashbrown_hashmap_create(), 1, 10, 100), 2, 20, 200);
    let copy = Object::new(m.get().clone_owned());
    assert_eq!(collect(&copy), collect(&m));
}
