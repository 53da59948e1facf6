//! A header mapping kept as a list of key/value pairs with unique keys, in
//! insertion order; a key that is inserted again keeps its place.
use vstd::prelude::*;

verus! {

pub type Pairs = Seq<(Seq<char>, Seq<char>)>;

pub open spec fn pairs_view(v: Seq<(String, String)>) -> Pairs {
    v.map_values(|p: (String, String)| (p.0@, p.1@))
}

pub open spec fn keys_unique(s: Pairs) -> bool {
    forall|i: int, j: int| 0 <= i < j < s.len() ==> #[trigger] s[i].0 != #[trigger] s[j].0
}

pub open spec fn has_key(s: Pairs, k: Seq<char>) -> bool {
    exists|i: int| 0 <= i < s.len() && #[trigger] s[i].0 == k
}

pub open spec fn key_index(s: Pairs, k: Seq<char>) -> int {
    choose|i: int| 0 <= i < s.len() && #[trigger] s[i].0 == k
}

/// The value stored under `k`, if any.
pub open spec fn pairs_get(s: Pairs, k: Seq<char>) -> Option<Seq<char>> {
    if has_key(s, k) {
        Some(s[key_index(s, k)].1)
    } else {
        None
    }
}

/// `s` with `k` bound to `v`: in place when `k` is present, else at the end.
pub open spec fn pairs_insert(s: Pairs, k: Seq<char>, v: Seq<char>) -> Pairs {
    if has_key(s, k) {
        s.update(key_index(s, k), (k, v))
    } else {
        s.push((k, v))
    }
}

/// `s` without the entry for `k`.
pub open spec fn pairs_remove(s: Pairs, k: Seq<char>) -> Pairs {
    if has_key(s, k) {
        s.remove(key_index(s, k))
    } else {
        s
    }
}

/// The pairs read as a mapping.
pub open spec fn pairs_to_map(s: Pairs) -> Map<Seq<char>, Seq<char>> {
    Map::new(|k: Seq<char>| has_key(s, k), |k: Seq<char>| s[key_index(s, k)].1)
}

/// Inserting keeps keys unique and acts on the mapping as `Map::insert`.
pub proof fn lemma_insert_map(s: Pairs, k: Seq<char>, v: Seq<char>)
    requires
        keys_unique(s),
    ensures
        keys_unique(pairs_insert(s, k, v)),
        pairs_to_map(pairs_insert(s, k, v)) == pairs_to_map(s).insert(k, v),
        pairs_get(pairs_insert(s, k, v), k) == Some(v),
{
    let t = pairs_insert(s, k, v);
    if has_key(s, k) {
        assert(t[key_index(s, k)].0 == k);
    } else {
        assert(t[s.len() as int].0 == k);
    }
    assert(has_key(t, k));
    assert forall|q: Seq<char>| has_key(t, q) == (has_key(s, q) || q == k) by {
        if has_key(s, q) {
            let i = key_index(s, q);
            if q != k {
                assert(t[i].0 == q);
            }
        }
        if has_key(t, q) && q != k {
            let i = key_index(t, q);
            assert(s[i].0 == q);
        }
    }
    assert forall|q: Seq<char>| has_key(t, q) && q != k implies t[key_index(t, q)].1
        == s[key_index(s, q)].1 by {
        let i = key_index(t, q);
        assert(s[i].0 == q);
    }
    assert(pairs_to_map(t) =~= pairs_to_map(s).insert(k, v));
}

/// Removing keeps keys unique and acts on the mapping as `Map::remove`.
pub proof fn lemma_remove_map(s: Pairs, k: Seq<char>)
    requires
        keys_unique(s),
    ensures
        keys_unique(pairs_remove(s, k)),
        pairs_to_map(pairs_remove(s, k)) == pairs_to_map(s).remove(k),
{
    let t = pairs_remove(s, k);
    if has_key(s, k) {
        let x = key_index(s, k);
        assert forall|q: Seq<char>| has_key(t, q) == (has_key(s, q) && q != k) by {
            if has_key(s, q) && q != k {
                let i = key_index(s, q);
                if i < x {
                    assert(t[i].0 == q);
                } else {
                    assert(t[i - 1].0 == q);
                }
            }
            if has_key(t, q) {
                let i = key_index(t, q);
                if i < x {
                    assert(s[i].0 == q);
                } else {
                    assert(s[i + 1].0 == q);
                }
            }
        }
        assert forall|q: Seq<char>| has_key(t, q) implies t[key_index(t, q)].1
            == s[key_index(s, q)].1 by {
            let i = key_index(t, q);
            if i < x {
                assert(s[i].0 == q);
            } else {
                assert(s[i + 1].0 == q);
            }
        }
    }
    assert(pairs_to_map(t) =~= pairs_to_map(s).remove(k));
}

/// Inserting under a key that is already present keeps the number of
/// entries: two insertions under one key leave a single entry holding the
/// second value.
pub proof fn lemma_insert_twice_one_entry(s: Pairs, k: Seq<char>, v1: Seq<char>, v2: Seq<char>)
    requires
        keys_unique(s),
    ensures
        pairs_insert(pairs_insert(s, k, v1), k, v2).len() == pairs_insert(s, k, v1).len(),
        pairs_insert(pairs_insert(s, k, v1), k, v2).len() == s.len() + (if has_key(s, k) { 0int } else { 1int }),
        pairs_get(pairs_insert(pairs_insert(s, k, v1), k, v2), k) == Some(v2),
        pairs_to_map(pairs_insert(pairs_insert(s, k, v1), k, v2)) == pairs_to_map(s).insert(k, v2),
{
    lemma_insert_map(s, k, v1);
    let t = pairs_insert(s, k, v1);
    lemma_insert_map(t, k, v2);
    assert(pairs_get(t, k) == Some(v1));
    assert(pairs_to_map(s).insert(k, v1).insert(k, v2) =~= pairs_to_map(s).insert(k, v2));
}

/// The position of `k` among the pairs, if it is there.
pub fn find_key(v: &Vec<(String, String)>, k: &String) -> (r: Option<usize>)
    ensures
        r matches Some(i) ==> i < v@.len() && v@[i as int].0@ == k@,
        r is None ==> !has_key(pairs_view(v@), k@),
{
    let mut i: usize = 0;
    while i < v.len()
        invariant
            i <= v@.len(),
            forall|j: int| 0 <= j < i ==> (#[trigger] v@[j]).0@ != k@,
        decreases v@.len() - i,
    {
        if v[i].0 == *k {
            return Some(i);
        }
        i = i + 1;
    }
    proof {
        if has_key(pairs_view(v@), k@) {
            let j = key_index(pairs_view(v@), k@);
            assert(v@[j].0@ == k@);
        }
    }
    None
}

pub fn insert_pair(v: &mut Vec<(String, String)>, k: String, val: String)
    requires
        keys_unique(pairs_view(old(v)@)),
    ensures
        pairs_view(final(v)@) == pairs_insert(pairs_view(old(v)@), k@, val@),
        keys_unique(pairs_view(final(v)@)),
{
    let ghost s = pairs_view(v@);
    proof {
        lemma_insert_map(s, k@, val@);
    }
    match find_key(v, &k) {
        Some(i) => {
            assert(s[i as int].0 == k@);
            assert(key_index(s, k@) == i as int);
            v.set(i, (k, val));
            assert(pairs_view(v@) =~= pairs_insert(s, k@, val@));
        },
        None => {
            v.push((k, val));
            assert(pairs_view(v@) =~= pairs_insert(s, k@, val@));
        },
    }
}

pub fn remove_pair(v: &mut Vec<(String, String)>, k: &String) -> (r: Option<String>)
    requires
        keys_unique(pairs_view(old(v)@)),
    ensures
        pairs_view(final(v)@) == pairs_remove(pairs_view(old(v)@), k@),
        keys_unique(pairs_view(final(v)@)),
        r matches Some(x) ==> pairs_get(pairs_view(old(v)@), k@) == Some(x@),
        r is None ==> pairs_get(pairs_view(old(v)@), k@) is None,
{
    let ghost s = pairs_view(v@);
    proof {
        lemma_remove_map(s, k@);
    }
    match find_key(v, k) {
        Some(i) => {
            assert(s[i as int].0 == k@);
            assert(key_index(s, k@) == i as int);
            let (_, x) = v.remove(i);
            assert(pairs_view(v@) =~= pairs_remove(s, k@));
            Some(x)
        },
        None => None,
    }
}

} // verus!
