//! Association sequences: a sequence of key/value pairs with pairwise
//! distinct keys, read as a finite map. The executable containers of this
//! crate store their entries in a `Vec` of pairs and use this theory for
//! their map views.

use vstd::prelude::*;

verus! {

/// The sequence of views of a sequence of strings.
pub open spec fn views_of(s: Seq<String>) -> Seq<Seq<char>> {
    s.map_values(|x: String| x@)
}

/// No two pairs of the association sequence share a key.
pub open spec fn keys_distinct<V>(s: Seq<(Seq<char>, V)>) -> bool {
    forall|i: int, j: int| 0 <= i < j < s.len() ==> s[i].0 != s[j].0
}

/// Some pair of the association sequence carries the key `k`.
pub open spec fn assoc_has<V>(s: Seq<(Seq<char>, V)>, k: Seq<char>) -> bool {
    exists|i: int| 0 <= i < s.len() && s[i].0 == k
}

/// An index of a pair carrying the key `k` (unique when keys are distinct).
pub open spec fn assoc_at<V>(s: Seq<(Seq<char>, V)>, k: Seq<char>) -> int {
    choose|i: int| 0 <= i < s.len() && s[i].0 == k
}

/// The finite map that an association sequence represents.
pub open spec fn assoc_map<V>(s: Seq<(Seq<char>, V)>) -> Map<Seq<char>, V> {
    Map::new(|k: Seq<char>| assoc_has(s, k), |k: Seq<char>| s[assoc_at(s, k)].1)
}

/// The set of an empty sequence is empty.
pub proof fn lemma_to_set_empty<A>()
    ensures
        Seq::<A>::empty().to_set() == Set::<A>::empty(),
{
    assert(Seq::<A>::empty().to_set() =~= Set::<A>::empty());
}

/// Appending an element to a sequence inserts it into the sequence's set.
pub proof fn lemma_to_set_push<A>(s: Seq<A>, x: A)
    ensures
        s.push(x).to_set() == s.to_set().insert(x),
{
    let t = s.push(x);
    assert forall|y: A| #[trigger] t.to_set().contains(y) implies s.to_set().insert(x).contains(
        y,
    ) by {
        let i = choose|i: int| 0 <= i < t.len() && t[i] == y;
        if i < s.len() {
            assert(s[i] == y);
            assert(s.contains(y));
        }
    }
    assert forall|y: A| s.to_set().insert(x).contains(y) implies #[trigger] t.to_set().contains(
        y,
    ) by {
        if s.to_set().contains(y) {
            let i = choose|i: int| 0 <= i < s.len() && s[i] == y;
            assert(t[i] == y);
        } else {
            assert(t[s.len() as int] == x);
        }
        assert(t.contains(y));
    }
    assert(t.to_set() =~= s.to_set().insert(x));
}

/// A copy of the vector whose strings read as the originals do.
pub fn clone_string_vec(v: &Vec<String>) -> (r: Vec<String>)
    ensures
        views_of(r@) == views_of(v@),
{
    let len = v.len();
    let mut r: Vec<String> = Vec::new();
    let mut i: usize = 0;
    while i < len
        invariant
            len == v@.len(),
            0 <= i <= len,
            r@.len() == i,
            forall|j: int| 0 <= j < i ==> (#[trigger] r@[j])@ == v@[j]@,
        decreases len - i,
    {
        r.push(v[i].clone());
        i = i + 1;
    }
    proof {
        assert(views_of(r@) =~= views_of(v@));
    }
    r
}

/// Whether some string of the vector reads as `x` does.
pub fn contains_string(v: &Vec<String>, x: &String) -> (b: bool)
    ensures
        b == views_of(v@).contains(x@),
{
    let len = v.len();
    let mut i: usize = 0;
    while i < len
        invariant
            len == v@.len(),
            0 <= i <= len,
            forall|j: int| 0 <= j < i ==> #[trigger] views_of(v@)[j] != x@,
        decreases len - i,
    {
        if v[i] == *x {
            assert(views_of(v@)[i as int] == x@);
            return true;
        }
        i = i + 1;
    }
    false
}

/// With distinct keys, the index chosen for the key of pair `i` is `i` itself.
pub proof fn lemma_assoc_at_unique<V>(s: Seq<(Seq<char>, V)>, i: int)
    requires
        keys_distinct(s),
        0 <= i < s.len(),
    ensures
        assoc_has(s, s[i].0),
        assoc_at(s, s[i].0) == i,
        assoc_map(s).contains_key(s[i].0),
        assoc_map(s)[s[i].0] == s[i].1,
{
    let k = s[i].0;
    assert(assoc_has(s, k));
    let j = assoc_at(s, k);
    assert(0 <= j < s.len() && s[j].0 == k);
    if i < j {
        assert(s[i].0 != s[j].0);
    } else if j < i {
        assert(s[j].0 != s[i].0);
    }
}

/// Appending a pair with a fresh key inserts it into the represented map.
pub proof fn lemma_assoc_push_new<V>(s: Seq<(Seq<char>, V)>, k: Seq<char>, v: V)
    requires
        keys_distinct(s),
        !assoc_has(s, k),
    ensures
        keys_distinct(s.push((k, v))),
        assoc_map(s.push((k, v))) == assoc_map(s).insert(k, v),
{
    let t = s.push((k, v));
    assert forall|i: int, j: int| 0 <= i < j < t.len() implies t[i].0 != t[j].0 by {
        if j < s.len() {
            assert(s[i].0 != s[j].0);
        } else {
            assert(t[j].0 == k);
            assert(t[i].0 == s[i].0);
            if s[i].0 == k {
                assert(assoc_has(s, k));
            }
        }
    }
    assert forall|k2: Seq<char>| #[trigger] assoc_has(t, k2) == assoc_map(s).insert(k, v).contains_key(k2) by {
        if k2 == k {
            assert(t[s.len() as int].0 == k);
            assert(assoc_has(t, k));
        } else {
            if assoc_has(t, k2) {
                let i = choose|i: int| 0 <= i < t.len() && t[i].0 == k2;
                assert(i < s.len());
                assert(s[i].0 == k2);
                assert(assoc_has(s, k2));
            }
            if assoc_has(s, k2) {
                let i = choose|i: int| 0 <= i < s.len() && s[i].0 == k2;
                assert(t[i].0 == k2);
                assert(assoc_has(t, k2));
            }
        }
    }
    assert forall|k2: Seq<char>| assoc_has(t, k2) implies #[trigger] assoc_map(t)[k2]
        == assoc_map(s).insert(k, v)[k2] by {
        let j = assoc_at(t, k2);
        assert(0 <= j < t.len() && t[j].0 == k2);
        if k2 == k {
            lemma_assoc_at_unique(t, s.len() as int);
            assert(assoc_map(t)[k2] == v);
        } else {
            assert(j < s.len());
            assert(s[j].0 == k2);
            lemma_assoc_at_unique(s, j);
            lemma_assoc_at_unique(t, j);
        }
    }
    assert(assoc_map(t) =~= assoc_map(s).insert(k, v));
}

/// Replacing the value of pair `i`, keeping its key, updates the map at that key.
pub proof fn lemma_assoc_update<V>(s: Seq<(Seq<char>, V)>, i: int, v: V)
    requires
        keys_distinct(s),
        0 <= i < s.len(),
    ensures
        keys_distinct(s.update(i, (s[i].0, v))),
        assoc_map(s.update(i, (s[i].0, v))) == assoc_map(s).insert(s[i].0, v),
{
    let k = s[i].0;
    let t = s.update(i, (k, v));
    assert forall|a: int, b: int| 0 <= a < b < t.len() implies t[a].0 != t[b].0 by {
        assert(t[a].0 == s[a].0);
        assert(t[b].0 == s[b].0);
    }
    assert forall|k2: Seq<char>| #[trigger] assoc_has(t, k2) == assoc_has(s, k2) by {
        if assoc_has(t, k2) {
            let j = choose|j: int| 0 <= j < t.len() && t[j].0 == k2;
            assert(s[j].0 == k2);
        }
        if assoc_has(s, k2) {
            let j = choose|j: int| 0 <= j < s.len() && s[j].0 == k2;
            assert(t[j].0 == k2);
        }
    }
    assert forall|k2: Seq<char>| assoc_has(t, k2) implies #[trigger] assoc_map(t)[k2]
        == assoc_map(s).insert(k, v)[k2] by {
        let j = assoc_at(t, k2);
        assert(0 <= j < t.len() && t[j].0 == k2);
        lemma_assoc_at_unique(t, j);
        if k2 == k {
            lemma_assoc_at_unique(t, i);
        } else {
            assert(j != i);
            assert(s[j].0 == k2);
            lemma_assoc_at_unique(s, j);
        }
    }
    assert(assoc_map(t) =~= assoc_map(s).insert(k, v));
}

} // verus!
