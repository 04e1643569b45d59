//! A map from names, such as nicknames, to values.
use vstd::prelude::*;
use crate::text::str_eq;

verus! {

/// Values by name. Every name is there once.
pub struct NameMap<V> {
    entries: Vec<(String, V)>,
}

/// Whether no name is there twice.
pub open spec fn are_distinct<V>(entries: Seq<(String, V)>) -> bool {
    forall|i: int, j: int|
        #![trigger entries[i], entries[j]]
        0 <= i < j < entries.len() ==> entries[i].0@ != entries[j].0@
}

/// Whether a name is there, at `i`.
pub open spec fn is_at<V>(entries: Seq<(String, V)>, name: Seq<char>, i: int) -> bool {
    0 <= i < entries.len() && entries[i].0@ == name
}

pub open spec fn is_there<V>(entries: Seq<(String, V)>, name: Seq<char>) -> bool {
    exists|i: int| is_at(entries, name, i)
}

/// The map that entries stand for.
pub open spec fn map_of<V: View>(entries: Seq<(String, V)>) -> Map<Seq<char>, V::V> {
    Map::new(
        |name: Seq<char>| is_there(entries, name),
        |name: Seq<char>| entries[choose|i: int| is_at(entries, name, i)].1@,
    )
}

proof fn lemma_map_of<V: View>(entries: Seq<(String, V)>, i: int)
    requires
        are_distinct(entries),
        0 <= i < entries.len(),
    ensures
        map_of(entries).dom().contains(entries[i].0@),
        map_of(entries)[entries[i].0@] == entries[i].1@,
{
    let name = entries[i].0@;
    assert(is_at(entries, name, i));
    let j = choose|j: int| is_at(entries, name, j);
    assert(is_at(entries, name, j));
    if i < j {
        assert(entries[i].0@ != entries[j].0@);
    } else if j < i {
        assert(entries[j].0@ != entries[i].0@);
    }
}

impl<V: View> View for NameMap<V> {
    type V = Map<Seq<char>, V::V>;

    closed spec fn view(&self) -> Map<Seq<char>, V::V> {
        map_of(self.entries@)
    }
}

impl<V> NameMap<V> {
    #[verifier::type_invariant]
    spec fn type_inv(&self) -> bool {
        are_distinct(self.entries@)
    }
}

impl<V: View> NameMap<V> {
    pub fn new() -> (m: NameMap<V>)
        ensures
            m@ == Map::<Seq<char>, V::V>::empty(),
    {
        let m = NameMap { entries: Vec::new() };
        assert(m@ =~= Map::<Seq<char>, V::V>::empty());
        m
    }

    fn find(&self, name: &str) -> (r: Option<usize>)
        ensures
            match r {
                Some(i) => is_at(self.entries@, name@, i as int),
                None => !is_there(self.entries@, name@),
            },
    {
        let mut i: usize = 0;
        while i < self.entries.len()
            invariant
                i <= self.entries@.len(),
                forall|k: int| 0 <= k < i ==> !is_at(self.entries@, name@, k),
            decreases self.entries@.len() - i,
        {
            if str_eq(self.entries[i].0.as_str(), name) {
                return Some(i);
            }
            i += 1;
        }
        None
    }

    pub fn contains_key(&self, name: &str) -> (r: bool)
        ensures
            r == self@.dom().contains(name@),
    {
        match self.find(name) {
            Some(i) => {
                assert(is_at(self.entries@, name@, i as int));
                true
            },
            None => false,
        }
    }

    pub fn get(&self, name: &str) -> (r: Option<&V>)
        ensures
            match r {
                Some(v) => self@.dom().contains(name@) && v@ == self@[name@],
                None => !self@.dom().contains(name@),
            },
    {
        proof {
            use_type_invariant(self);
        }
        match self.find(name) {
            Some(i) => {
                proof {
                    lemma_map_of(self.entries@, i as int);
                }
                Some(&self.entries[i].1)
            },
            None => None,
        }
    }

    /// Takes a value out.
    pub fn remove(&mut self, name: &str) -> (r: Option<V>)
        ensures
            final(self)@ == old(self)@.remove(name@),
            match r {
                Some(v) => old(self)@.dom().contains(name@) && v@ == old(self)@[name@],
                None => !old(self)@.dom().contains(name@),
            },
    {
        proof {
            use_type_invariant(&*self);
        }
        let ghost before = self.entries@;
        let r = match self.find(name) {
            Some(i) => {
                let mut entries: Vec<(String, V)> = Vec::new();
                std::mem::swap(&mut entries, &mut self.entries);
                let entry = entries.remove(i);
                proof {
                    let after = entries@;
                    lemma_map_of(before, i as int);
                    assert(are_distinct(after)) by {
                        assert forall|a: int, b: int|
                            #![trigger after[a], after[b]]
                            0 <= a < b < after.len() implies after[a].0@ != after[b].0@ by {
                            let x = if a < i {
                                a
                            } else {
                                a + 1
                            };
                            let y = if b < i {
                                b
                            } else {
                                b + 1
                            };
                            assert(after[a] == before[x] && after[b] == before[y]);
                        }
                    }
                    lemma_removed(before, after, i as int);
                }
                self.entries = entries;
                Some(entry.1)
            },
            None => {
                assert(map_of(before) =~= map_of(before).remove(name@));
                None
            },
        };
        r
    }

    /// Puts a value in, in place of one that is there under the name.
    pub fn insert(&mut self, name: String, value: V)
        ensures
            final(self)@ == old(self)@.insert(name@, value@),
    {
        let removed = self.remove(name.as_str());
        proof {
            use_type_invariant(&*self);
        }
        let ghost before = self.entries@;
        let ghost map = map_of(before);
        assert(!map.dom().contains(name@));
        let mut entries: Vec<(String, V)> = Vec::new();
        std::mem::swap(&mut entries, &mut self.entries);
        entries.push((name, value));
        proof {
            let after = entries@;
            assert(are_distinct(after)) by {
                assert forall|a: int, b: int|
                    #![trigger after[a], after[b]]
                    0 <= a < b < after.len() implies after[a].0@ != after[b].0@ by {
                    assert(after[a] == before[a]);
                    if b < before.len() {
                        assert(after[b] == before[b]);
                    } else {
                        assert(after[a].0@ != name@) by {
                            if before[a].0@ == name@ {
                                assert(is_at(before, name@, a));
                            }
                        }
                    }
                }
            }
            lemma_added(before, after, name, value);
            assert(map.insert(name@, value@) =~= old(self)@.insert(name@, value@));
        }
        self.entries = entries;
    }

    /// All names.
    pub fn keys(&self) -> (names: Vec<String>)
        ensures
            forall|name: Seq<char>| #[trigger]
                names.deep_view().contains(name) <==> self@.dom().contains(name),
            names.deep_view().no_duplicates(),
    {
        proof {
            use_type_invariant(self);
        }
        let mut names: Vec<String> = Vec::new();
        let mut i: usize = 0;
        while i < self.entries.len()
            invariant
                i <= self.entries@.len(),
                names@.len() == i,
                forall|k: int| 0 <= k < i ==> (#[trigger] names@[k])@ == self.entries@[k].0@,
            decreases self.entries@.len() - i,
        {
            names.push(self.entries[i].0.clone());
            i += 1;
        }
        proof {
            let s = names.deep_view();
            assert forall|name: Seq<char>| #[trigger] s.contains(name) <==> self@.dom().contains(
                name,
            ) by {
                if s.contains(name) {
                    let k = choose|k: int| 0 <= k < s.len() && s[k] == name;
                    assert(names@[k]@ == self.entries@[k].0@);
                    assert(is_at(self.entries@, name, k));
                }
                if self@.dom().contains(name) {
                    let k = choose|k: int| is_at(self.entries@, name, k);
                    assert(names@[k]@ == self.entries@[k].0@);
                    assert(s[k] == name);
                }
            }
            assert forall|a: int, b: int|
                0 <= a < s.len() && 0 <= b < s.len() && a != b implies s[a] != s[b] by {
                assert(names@[a]@ == self.entries@[a].0@ && names@[b]@ == self.entries@[b].0@);
                if a < b {
                    assert(self.entries@[a].0@ != self.entries@[b].0@);
                } else {
                    assert(self.entries@[b].0@ != self.entries@[a].0@);
                }
            }
        }
        names
    }
}

proof fn lemma_removed<V: View>(before: Seq<(String, V)>, after: Seq<(String, V)>, i: int)
    requires
        are_distinct(before),
        are_distinct(after),
        0 <= i < before.len(),
        after == before.remove(i),
    ensures
        map_of(after) == map_of(before).remove(before[i].0@),
{
    let name = before[i].0@;
    let a = map_of(after);
    let b = map_of(before).remove(name);
    assert forall|k: Seq<char>| #![trigger a.dom().contains(k)] #![trigger a[k]] a.dom().contains(k) implies b.dom().contains(k) && a[k] == b[k] by {
        let x = choose|x: int| is_at(after, k, x);
        let y = if x < i {
            x
        } else {
            x + 1
        };
        assert(after[x] == before[y]);
        assert(is_at(before, k, y));
        assert(k != name) by {
            if y < i {
                assert(before[y].0@ != before[i].0@);
            } else {
                assert(before[i].0@ != before[y].0@);
            }
        }
        lemma_map_of(after, x);
        lemma_map_of(before, y);
    }
    assert forall|k: Seq<char>| b.dom().contains(k) implies a.dom().contains(k) by {
        let y = choose|y: int| is_at(before, k, y);
        assert(y != i);
        let x = if y < i {
            y
        } else {
            y - 1
        };
        assert(after[x] == before[y]);
        assert(is_at(after, k, x));
    }
    assert(a.dom() =~= b.dom());
    assert(a =~= b);
}

proof fn lemma_added<V: View>(
    before: Seq<(String, V)>,
    after: Seq<(String, V)>,
    name: String,
    value: V,
)
    requires
        are_distinct(before),
        are_distinct(after),
        after == before.push((name, value)),
        !is_there(before, name@),
    ensures
        map_of(after) == map_of(before).insert(name@, value@),
{
    let a = map_of(after);
    let b = map_of(before).insert(name@, value@);
    let n = before.len() as int;
    assert(after[n] == (name, value));
    lemma_map_of(after, n);
    assert forall|k: Seq<char>| #![trigger a.dom().contains(k)] #![trigger a[k]] a.dom().contains(k) implies b.dom().contains(k) && a[k] == b[k] by {
        let x = choose|x: int| is_at(after, k, x);
        lemma_map_of(after, x);
        if x < n {
            assert(after[x] == before[x]);
            assert(is_at(before, k, x));
            lemma_map_of(before, x);
        }
    }
    assert forall|k: Seq<char>| b.dom().contains(k) implies a.dom().contains(k) by {
        if k == name@ {
            assert(is_at(after, k, n));
        } else {
            let x = choose|x: int| is_at(before, k, x);
            assert(after[x] == before[x]);
            assert(is_at(after, k, x));
        }
    }
    assert(a.dom() =~= b.dom());
    assert(a =~= b);
}

} // verus!
