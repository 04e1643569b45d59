//! Sorting by a text.
use vstd::prelude::*;
use crate::text::{before, is_before, lemma_before_total, lemma_before_transitive};

verus! {

/// `s`, which is sorted, with `x` behind everything that does not belong behind it.
pub open spec fn inserted<T>(s: Seq<T>, x: T, key: spec_fn(T) -> Seq<char>) -> Seq<T>
    decreases s.len(),
{
    if s.len() == 0 || !before(key(x), key(s.last())) {
        s.push(x)
    } else {
        inserted(s.drop_last(), x, key).push(s.last())
    }
}

/// `s` sorted by a text; what has the same text stays in order.
pub open spec fn sorted_by<T>(s: Seq<T>, key: spec_fn(T) -> Seq<char>) -> Seq<T>
    decreases s.len(),
{
    if s.len() == 0 {
        s
    } else {
        inserted(sorted_by(s.drop_last(), key), s.last(), key)
    }
}

/// Whether no element stands behind one that belongs behind it.
pub open spec fn is_sorted_by<T>(s: Seq<T>, key: spec_fn(T) -> Seq<char>) -> bool {
    forall|i: int, j: int|
        0 <= i < j < s.len() ==> !before(#[trigger] key(s[j]), #[trigger] key(s[i]))
}

pub open spec fn text_key() -> spec_fn(Seq<char>) -> Seq<char> {
    |t: Seq<char>| t
}

proof fn lemma_inserted<T>(s: Seq<T>, x: T, key: spec_fn(T) -> Seq<char>)
    ensures
        inserted(s, x, key).len() == s.len() + 1,
        inserted(s, x, key).to_multiset() =~= s.to_multiset().insert(x),
    decreases s.len(),
{
    broadcast use vstd::seq_lib::group_to_multiset_ensures;

    if s.len() > 0 && before(key(x), key(s.last())) {
        lemma_inserted(s.drop_last(), x, key);
        assert(s =~= s.drop_last().push(s.last()));
    }
}

proof fn lemma_inserted_is_sorted<T>(s: Seq<T>, x: T, key: spec_fn(T) -> Seq<char>)
    requires
        is_sorted_by(s, key),
    ensures
        is_sorted_by(inserted(s, x, key), key),
        forall|i: int|
            0 <= i < inserted(s, x, key).len() ==> #[trigger] inserted(s, x, key)[i] == x || exists|
                j: int,
            |
                0 <= j < s.len() && s[j] == inserted(s, x, key)[i],
    decreases s.len(),
{
    let r = inserted(s, x, key);
    lemma_inserted(s, x, key);
    if s.len() == 0 {
    } else if !before(key(x), key(s.last())) {
        assert forall|i: int, j: int| 0 <= i < j < r.len() implies !before(
            #[trigger] key(r[j]),
            #[trigger] key(r[i]),
        ) by {
            if j == s.len() {
                assert(r[i] == s[i]);
                lemma_before_total(key(s[i]), key(x));
                lemma_before_total(key(s.last()), key(x));
                if before(key(x), key(s[i])) {
                    if i < s.len() - 1 {
                        assert(!before(key(s[s.len() - 1]), key(s[i])));
                        lemma_before_total(key(s.last()), key(s[i]));
                        if before(key(s[i]), key(s.last())) {
                            lemma_before_transitive(key(x), key(s[i]), key(s.last()));
                        }
                    }
                }
            } else {
                assert(r[i] == s[i] && r[j] == s[j]);
            }
        }
        assert forall|i: int| 0 <= i < r.len() implies #[trigger] r[i] == x || exists|j: int|
            0 <= j < s.len() && s[j] == r[i] by {
            if i < s.len() {
                assert(s[i] == r[i]);
            }
        }
    } else {
        let t = s.drop_last();
        let u = inserted(t, x, key);
        assert(is_sorted_by(t, key)) by {
            assert forall|i: int, j: int| 0 <= i < j < t.len() implies !before(
                #[trigger] key(t[j]),
                #[trigger] key(t[i]),
            ) by {
                assert(t[i] == s[i] && t[j] == s[j]);
            }
        }
        lemma_inserted_is_sorted(t, x, key);
        lemma_inserted(t, x, key);
        assert forall|i: int, j: int| 0 <= i < j < r.len() implies !before(
            #[trigger] key(r[j]),
            #[trigger] key(r[i]),
        ) by {
            if j == u.len() {
                assert(r[j] == s.last());
                assert(r[i] == u[i]);
                if u[i] == x {
                    lemma_before_total(key(x), key(s.last()));
                } else {
                    let k = choose|k: int| 0 <= k < t.len() && t[k] == u[i];
                    assert(s[k] == u[i]);
                    assert(!before(key(s[s.len() - 1]), key(s[k])));
                }
            } else {
                assert(r[i] == u[i] && r[j] == u[j]);
            }
        }
        assert forall|i: int| 0 <= i < r.len() implies #[trigger] r[i] == x || exists|j: int|
            0 <= j < s.len() && s[j] == r[i] by {
            if i < u.len() {
                assert(r[i] == u[i]);
                if u[i] != x {
                    let k = choose|k: int| 0 <= k < t.len() && t[k] == u[i];
                    assert(s[k] == r[i]);
                }
            } else {
                assert(s[s.len() - 1] == r[i]);
            }
        }
    }
}

/// Sorting puts the elements in order and neither loses nor adds any.
pub proof fn law_sorted_by<T>(s: Seq<T>, key: spec_fn(T) -> Seq<char>)
    ensures
        is_sorted_by(sorted_by(s, key), key),
        sorted_by(s, key).len() == s.len(),
        sorted_by(s, key).to_multiset() == s.to_multiset(),
    decreases s.len(),
{
    broadcast use vstd::seq_lib::group_to_multiset_ensures;

    if s.len() > 0 {
        let t = s.drop_last();
        law_sorted_by(t, key);
        lemma_inserted(sorted_by(t, key), s.last(), key);
        lemma_inserted_is_sorted(sorted_by(t, key), s.last(), key);
        assert(s =~= t.push(s.last()));
        assert(sorted_by(s, key).to_multiset() =~= s.to_multiset());
    }
}

/// Sorting leaves what is in order as it is.
pub proof fn law_sorted_by_of_sorted<T>(s: Seq<T>, key: spec_fn(T) -> Seq<char>)
    requires
        is_sorted_by(s, key),
    ensures
        sorted_by(s, key) == s,
    decreases s.len(),
{
    if s.len() > 0 {
        let t = s.drop_last();
        assert forall|i: int, j: int| 0 <= i < j < t.len() implies !before(
            #[trigger] key(t[j]),
            #[trigger] key(t[i]),
        ) by {
            assert(t[i] == s[i] && t[j] == s[j]);
        }
        law_sorted_by_of_sorted(t, key);
        if t.len() > 0 {
            assert(t.last() == s[s.len() - 2]);
            assert(!before(key(s[s.len() - 1]), key(s[s.len() - 2])));
        }
        assert(t.push(s.last()) =~= s);
    }
}

/// Every element of the sorted sequence is one of the sequence, and the other way round.
pub proof fn lemma_sorted_by_contains<T>(s: Seq<T>, key: spec_fn(T) -> Seq<char>, x: T)
    ensures
        sorted_by(s, key).contains(x) <==> s.contains(x),
{
    broadcast use vstd::seq_lib::group_to_multiset_ensures;

    law_sorted_by(s, key);
    assert(s.contains(x) <==> s.to_multiset().count(x) > 0);
    assert(sorted_by(s, key).contains(x) <==> sorted_by(s, key).to_multiset().count(x) > 0);
}

/// Where an element goes when it is inserted from the back.
pub proof fn lemma_inserted_at<T>(s: Seq<T>, x: T, key: spec_fn(T) -> Seq<char>, at: int)
    requires
        0 <= at <= s.len(),
        at == 0 || !before(key(x), key(s[at - 1])),
        forall|i: int| at <= i < s.len() ==> before(key(x), key(#[trigger] s[i])),
    ensures
        inserted(s, x, key) == s.insert(at, x),
    decreases s.len(),
{
    if at < s.len() {
        lemma_inserted_at(s.drop_last(), x, key, at);
        assert(s.drop_last().insert(at, x).push(s.last()) =~= s.insert(at, x));
    } else {
        assert(s.insert(at, x) =~= s.push(x));
    }
}

/// Sorts texts.
pub fn sort_texts(v: &Vec<String>) -> (r: Vec<String>)
    ensures
        r.deep_view() == sorted_by(v.deep_view(), text_key()),
{
    let mut r: Vec<String> = Vec::new();
    let mut i: usize = 0;
    assert(r.deep_view() =~= sorted_by(v.deep_view().take(0), text_key()));
    while i < v.len()
        invariant
            i <= v@.len(),
            r.deep_view() == sorted_by(v.deep_view().take(i as int), text_key()),
        decreases v@.len() - i,
    {
        let mut at: usize = r.len();
        while at > 0 && is_before(v[i].as_str(), r[at - 1].as_str())
            invariant
                i < v@.len(),
                at <= r@.len(),
                forall|j: int| at <= j < r@.len() ==> before(v@[i as int]@, #[trigger] r@[j]@),
            decreases at,
        {
            at -= 1;
        }
        proof {
            let s = r.deep_view();
            let x = v@[i as int]@;
            assert forall|j: int| at <= j < s.len() implies before(x, #[trigger] s[j]) by {
                assert(s[j] == r@[j]@);
            }
            assert(at > 0 ==> s[at - 1] == r@[at - 1]@);
            lemma_inserted_at(s, x, text_key(), at as int);
            let t = v.deep_view().take(i + 1);
            assert(t.drop_last() =~= v.deep_view().take(i as int));
            assert(t.last() == x);
        }
        let ghost s = r@;
        r.insert(at, v[i].clone());
        assert(r.deep_view() =~= Seq::new(s.len(), |j: int| s[j]@).insert(at as int, v@[i as int]@));
        i += 1;
    }
    assert(v.deep_view().take(i as int) =~= v.deep_view());
    r
}

} // verus!
