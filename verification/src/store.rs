//! A small theory of sequences used as key-value tables: elements carry a
//! textual key, lookups are by key, and the tables keep keys unique.
use vstd::prelude::*;

verus! {

/// An element stored under a textual key.
pub trait Keyed {
    spec fn key(&self) -> Seq<char>;
}

pub open spec fn spec_has<T: Keyed>(s: Seq<T>, id: Seq<char>) -> bool {
    exists|i: int| 0 <= i < s.len() && (#[trigger] s[i]).key() == id
}

pub open spec fn spec_index_of<T: Keyed>(s: Seq<T>, id: Seq<char>) -> int {
    choose|i: int| 0 <= i < s.len() && (#[trigger] s[i]).key() == id
}

pub open spec fn spec_at<T: Keyed>(s: Seq<T>, id: Seq<char>) -> T {
    s[spec_index_of(s, id)]
}

pub open spec fn spec_unique<T: Keyed>(s: Seq<T>) -> bool {
    forall|i: int, j: int| 0 <= i < j < s.len() ==> (#[trigger] s[i]).key() != (#[trigger] s[j]).key()
}

pub proof fn lemma_at_index<T: Keyed>(s: Seq<T>, i: int)
    requires
        spec_unique(s),
        0 <= i < s.len(),
    ensures
        spec_has(s, s[i].key()),
        spec_index_of(s, s[i].key()) == i,
        spec_at(s, s[i].key()) == s[i],
{
    let id = s[i].key();
    assert(spec_has(s, id));
    let j = spec_index_of(s, id);
    assert(0 <= j < s.len() && s[j].key() == id);
    if i < j {
        assert(s[i].key() != s[j].key());
    }
    if j < i {
        assert(s[j].key() != s[i].key());
    }
}

pub proof fn lemma_update_store<T: Keyed>(s: Seq<T>, i: int, v: T)
    requires
        spec_unique(s),
        0 <= i < s.len(),
        v.key() == s[i].key(),
    ensures
        spec_unique(s.update(i, v)),
        spec_has(s.update(i, v), v.key()),
        spec_at(s.update(i, v), v.key()) == v,
        forall|id: Seq<char>| id != v.key() ==> spec_has(s.update(i, v), id) == spec_has(s, id),
        forall|id: Seq<char>|
            id != v.key() && spec_has(s, id) ==> spec_at(s.update(i, v), id) == spec_at(s, id),
{
    let t = s.update(i, v);
    assert(forall|k: int| 0 <= k < s.len() && k != i ==> t[k] == s[k]);
    assert(t[i] == v);
    lemma_at_index(t, i);
    assert forall|id: Seq<char>| id != v.key() implies spec_has(t, id) == spec_has(s, id) by {
        if spec_has(s, id) {
            let k = choose|k: int| 0 <= k < s.len() && (#[trigger] s[k]).key() == id;
            assert(k != i);
            assert(t[k].key() == id);
        }
        if spec_has(t, id) {
            let k = choose|k: int| 0 <= k < t.len() && (#[trigger] t[k]).key() == id;
            assert(k != i);
            assert(s[k].key() == id);
        }
    }
    assert forall|id: Seq<char>| id != v.key() && spec_has(s, id) implies spec_at(t, id) == spec_at(
        s,
        id,
    ) by {
        let k = spec_index_of(s, id);
        assert(0 <= k < s.len() && s[k].key() == id);
        assert(k != i);
        lemma_at_index(s, k);
        lemma_at_index(t, k);
    }
}

pub proof fn lemma_remove_store<T: Keyed>(s: Seq<T>, i: int)
    requires
        spec_unique(s),
        0 <= i < s.len(),
    ensures
        spec_unique(s.remove(i)),
        !spec_has(s.remove(i), s[i].key()),
        forall|id: Seq<char>| id != s[i].key() ==> spec_has(s.remove(i), id) == spec_has(s, id),
        forall|id: Seq<char>|
            id != s[i].key() && spec_has(s, id) ==> spec_at(s.remove(i), id) == spec_at(s, id),
{
    let t = s.remove(i);
    assert(forall|k: int| 0 <= k < i ==> t[k] == s[k]);
    assert(forall|k: int| i <= k < t.len() ==> t[k] == s[k + 1]);
    assert forall|id: Seq<char>| id != s[i].key() implies spec_has(t, id) == spec_has(s, id) by {
        if spec_has(s, id) {
            let k = choose|k: int| 0 <= k < s.len() && (#[trigger] s[k]).key() == id;
            assert(k != i);
            if k < i {
                assert(t[k].key() == id);
            } else {
                assert(t[k - 1].key() == id);
            }
        }
        if spec_has(t, id) {
            let k = choose|k: int| 0 <= k < t.len() && (#[trigger] t[k]).key() == id;
            if k < i {
                assert(s[k].key() == id);
            } else {
                assert(s[k + 1].key() == id);
            }
        }
    }
    if spec_has(t, s[i].key()) {
        let k = choose|k: int| 0 <= k < t.len() && (#[trigger] t[k]).key() == s[i].key();
        if k < i {
            assert(s[k].key() == s[i].key());
        } else {
            assert(s[k + 1].key() == s[i].key());
        }
    }
    assert forall|id: Seq<char>| id != s[i].key() && spec_has(s, id) implies spec_at(t, id)
        == spec_at(s, id) by {
        let k = spec_index_of(s, id);
        assert(0 <= k < s.len() && s[k].key() == id);
        assert(k != i);
        lemma_at_index(s, k);
        if k < i {
            lemma_at_index(t, k);
        } else {
            lemma_at_index(t, k - 1);
        }
    }
}

pub proof fn lemma_push_store<T: Keyed>(s: Seq<T>, v: T)
    requires
        spec_unique(s),
        !spec_has(s, v.key()),
    ensures
        spec_unique(s.push(v)),
        spec_has(s.push(v), v.key()),
        spec_at(s.push(v), v.key()) == v,
        forall|id: Seq<char>| id != v.key() ==> spec_has(s.push(v), id) == spec_has(s, id),
        forall|id: Seq<char>|
            id != v.key() && spec_has(s, id) ==> spec_at(s.push(v), id) == spec_at(s, id),
{
    let t = s.push(v);
    assert(forall|k: int| 0 <= k < s.len() ==> t[k] == s[k]);
    assert(t[s.len() as int] == v);
    assert forall|i: int, j: int| 0 <= i < j < t.len() implies (#[trigger] t[i]).key() != (
    #[trigger] t[j]).key() by {
        if j == s.len() {
            assert(s[i].key() == t[i].key());
            if t[i].key() == v.key() {
                assert(spec_has(s, v.key()));
            }
        }
    }
    lemma_at_index(t, s.len() as int);
    assert forall|id: Seq<char>| id != v.key() implies spec_has(t, id) == spec_has(s, id) by {
        if spec_has(s, id) {
            let k = choose|k: int| 0 <= k < s.len() && (#[trigger] s[k]).key() == id;
            assert(t[k].key() == id);
        }
        if spec_has(t, id) {
            let k = choose|k: int| 0 <= k < t.len() && (#[trigger] t[k]).key() == id;
            assert(k != s.len());
            assert(s[k].key() == id);
        }
    }
    assert forall|id: Seq<char>| id != v.key() && spec_has(s, id) implies spec_at(t, id) == spec_at(
        s,
        id,
    ) by {
        let k = spec_index_of(s, id);
        lemma_at_index(s, k);
        lemma_at_index(t, k);
    }
}

} // verus!
