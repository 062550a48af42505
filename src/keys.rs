//! Keys kept apart by an equivalence: the facts behind the containers' count
//! of distinct keys, for entries of any shape with a key projection.
use vstd::multiset::Multiset;
use vstd::prelude::*;

verus! {

/// `rel` is reflexive, symmetric and transitive.
pub open spec fn is_equivalence(rel: spec_fn(u64, u64) -> bool) -> bool {
    &&& forall|a: u64| #[trigger] rel(a, a)
    &&& forall|a: u64, b: u64| #[trigger] rel(a, b) ==> rel(b, a)
    &&& forall|a: u64, b: u64, c: u64| #[trigger] rel(a, b) && #[trigger] rel(b, c) ==> rel(a, c)
}

/// Keys that `rel` relates get the same hash from `hash_of`.
pub open spec fn hash_respects(hash_of: spec_fn(u64) -> u64, rel: spec_fn(u64, u64) -> bool) -> bool {
    forall|a: u64, b: u64| #[trigger] rel(a, b) ==> hash_of(a) == hash_of(b)
}

/// No two positions of `s` hold keys that `rel` relates.
pub open spec fn keys_apart<A>(
    s: Seq<A>,
    key: spec_fn(A) -> u64,
    rel: spec_fn(u64, u64) -> bool,
) -> bool {
    forall|i: int, j: int|
        0 <= i < s.len() && 0 <= j < s.len() && i != j ==> !rel(
            key(#[trigger] s[i]),
            key(#[trigger] s[j]),
        )
}

/// The number of keys of `s` that `rel` tells apart: each key counts unless
/// an earlier key is related to it.
pub open spec fn count_keys<A>(s: Seq<A>, key: spec_fn(A) -> u64, rel: spec_fn(u64, u64) -> bool) -> nat
    decreases s.len(),
{
    if s.len() == 0 {
        0
    } else {
        let rest = s.drop_last();
        count_keys(rest, key, rel) + if exists|j: int|
            0 <= j < rest.len() && rel(key(#[trigger] rest[j]), key(s.last())) {
            0nat
        } else {
            1nat
        }
    }
}

/// The multiset form of `keys_apart`: related keys belong to one entry that
/// occurs once.
pub open spec fn multiset_keys_apart<A>(
    m: Multiset<A>,
    key: spec_fn(A) -> u64,
    rel: spec_fn(u64, u64) -> bool,
) -> bool {
    forall|a: A, b: A|
        #[trigger] m.count(a) > 0 && #[trigger] m.count(b) > 0 && rel(key(a), key(b)) ==> a == b
            && m.count(a) == 1
}

/// When keys are apart, every entry is a distinct key.
pub proof fn lemma_apart_counts_all<A>(s: Seq<A>, key: spec_fn(A) -> u64, rel: spec_fn(u64, u64) -> bool)
    requires
        keys_apart(s, key, rel),
    ensures
        count_keys(s, key, rel) == s.len(),
    decreases s.len(),
{
    if s.len() > 0 {
        let rest = s.drop_last();
        assert(keys_apart(rest, key, rel)) by {
            assert forall|i: int, j: int|
                0 <= i < rest.len() && 0 <= j < rest.len() && i != j implies !rel(
                key(#[trigger] rest[i]),
                key(#[trigger] rest[j]),
            ) by {
                assert(rest[i] == s[i] && rest[j] == s[j]);
            }
        }
        lemma_apart_counts_all(rest, key, rel);
        assert forall|j: int| 0 <= j < rest.len() implies !rel(key(#[trigger] rest[j]), key(s.last())) by {
            assert(rest[j] == s[j] && s.last() == s[s.len() - 1]);
        }
    }
}

pub proof fn lemma_apart_to_multiset<A>(s: Seq<A>, key: spec_fn(A) -> u64, rel: spec_fn(u64, u64) -> bool)
    requires
        is_equivalence(rel),
        keys_apart(s, key, rel),
    ensures
        multiset_keys_apart(s.to_multiset(), key, rel),
{
    broadcast use vstd::seq_lib::group_to_multiset_ensures;

    assert(s.no_duplicates()) by {
        assert forall|i: int, j: int| 0 <= i < s.len() && 0 <= j < s.len() && i != j implies s[i] != s[j] by {
            assert(rel(key(s[i]), key(s[i])));
        }
    }
    s.lemma_multiset_has_no_duplicates();
    assert forall|a: A, b: A|
        #[trigger] s.to_multiset().count(a) > 0 && #[trigger] s.to_multiset().count(b) > 0 && rel(
            key(a),
            key(b),
        ) implies a == b && s.to_multiset().count(a) == 1 by {
        assert(s.contains(a) && s.contains(b));
        let i = choose|i: int| 0 <= i < s.len() && s[i] == a;
        let j = choose|j: int| 0 <= j < s.len() && s[j] == b;
        assert(i == j);
    }
}

pub proof fn lemma_multiset_to_apart<A>(s: Seq<A>, key: spec_fn(A) -> u64, rel: spec_fn(u64, u64) -> bool)
    requires
        is_equivalence(rel),
        multiset_keys_apart(s.to_multiset(), key, rel),
    ensures
        keys_apart(s, key, rel),
{
    broadcast use vstd::seq_lib::group_to_multiset_ensures;

    assert forall|x: A| s.to_multiset().contains(x) implies s.to_multiset().count(x) == 1 by {
        assert(rel(key(x), key(x)));
    }
    s.lemma_multiset_has_no_duplicates_conv();
    assert forall|i: int, j: int|
        0 <= i < s.len() && 0 <= j < s.len() && i != j implies !rel(
        key(#[trigger] s[i]),
        key(#[trigger] s[j]),
    ) by {
        assert(s.contains(s[i]) && s.contains(s[j]));
        assert(s.to_multiset().count(s[i]) > 0 && s.to_multiset().count(s[j]) > 0);
    }
}

/// Replacing the one entry whose key is related to that of `e` by `e` keeps
/// keys apart.
pub proof fn lemma_replace_apart<A>(
    m: Multiset<A>,
    x: A,
    e: A,
    key: spec_fn(A) -> u64,
    rel: spec_fn(u64, u64) -> bool,
)
    requires
        is_equivalence(rel),
        multiset_keys_apart(m, key, rel),
        m.count(x) > 0,
        forall|y: A| #[trigger] m.count(y) > 0 && rel(key(y), key(e)) ==> y == x,
    ensures
        multiset_keys_apart(m.remove(x).insert(e), key, rel),
{
    broadcast use vstd::multiset::group_multiset_axioms;

    let t = m.remove(x).insert(e);
    assert(rel(key(e), key(e)));
    assert forall|a: A, b: A|
        #[trigger] t.count(a) > 0 && #[trigger] t.count(b) > 0 && rel(key(a), key(b)) implies a == b
        && t.count(a) == 1 by {
        if m.count(e) > 0 {
            assert(e == x);
        }
        if a == e && b != e {
            assert(m.count(b) > 0);
            assert(rel(key(b), key(e)));
        } else if a != e && b == e {
            assert(m.count(a) > 0);
        } else if a != e && b != e {
            assert(m.count(a) > 0 && m.count(b) > 0);
        }
    }
}

/// Adding `e`, whose key no entry's key is related to, keeps keys apart.
pub proof fn lemma_add_apart<A>(m: Multiset<A>, e: A, key: spec_fn(A) -> u64, rel: spec_fn(u64, u64) -> bool)
    requires
        is_equivalence(rel),
        multiset_keys_apart(m, key, rel),
        forall|y: A| #[trigger] m.count(y) > 0 ==> !rel(key(y), key(e)),
    ensures
        multiset_keys_apart(m.insert(e), key, rel),
{
    broadcast use vstd::multiset::group_multiset_axioms;

    let t = m.insert(e);
    assert(rel(key(e), key(e)));
    assert forall|a: A, b: A|
        #[trigger] t.count(a) > 0 && #[trigger] t.count(b) > 0 && rel(key(a), key(b)) implies a == b
        && t.count(a) == 1 by {
        if a == e && b != e {
            assert(m.count(b) > 0);
            assert(rel(key(b), key(e)));
        } else if a != e && b == e {
            assert(m.count(a) > 0);
        } else if a != e && b != e {
            assert(m.count(a) > 0 && m.count(b) > 0);
        }
    }
}

/// Taking an entry out keeps keys apart.
pub proof fn lemma_remove_apart<A>(m: Multiset<A>, x: A, key: spec_fn(A) -> u64, rel: spec_fn(u64, u64) -> bool)
    requires
        multiset_keys_apart(m, key, rel),
    ensures
        multiset_keys_apart(m.remove(x), key, rel),
{
    broadcast use vstd::multiset::group_multiset_axioms;

    let t = m.remove(x);
    assert forall|a: A, b: A|
        #[trigger] t.count(a) > 0 && #[trigger] t.count(b) > 0 && rel(key(a), key(b)) implies a == b
        && t.count(a) == 1 by {
        assert(m.count(a) > 0 && m.count(b) > 0);
    }
}

} // verus!
