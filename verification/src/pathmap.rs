use vstd::prelude::*;
use crate::order::{
    ascending, lists_in_order, lemma_lt_irreflexive, lemma_lt_transitive, order_of, path_lt,
    Rank,
};
use crate::text::rows;

verus! {

/// A map from paths to values that keeps its paths in ascending order.
#[derive(Debug, Clone)]
pub struct PathMap<T> {
    names: Vec<Vec<char>>,
    items: Vec<T>,
}

/// Some position at which `keys` holds `k`.
pub open spec fn position(keys: Seq<Seq<char>>, k: Seq<char>) -> int {
    choose|i: int| 0 <= i < keys.len() && keys[i] == k
}

impl<T> View for PathMap<T> {
    type V = Map<Seq<char>, T>;

    open spec fn view(&self) -> Map<Seq<char>, T> {
        Map::new(
            |k: Seq<char>| self.keys().contains(k),
            |k: Seq<char>| self.values()[position(self.keys(), k)],
        )
    }
}

impl<T> PathMap<T> {
    /// The paths of the map, in the order in which they are stored.
    pub closed spec fn keys(&self) -> Seq<Seq<char>> {
        rows(self.names@)
    }

    /// The values of the map, each at the position of its path.
    pub closed spec fn values(&self) -> Seq<T> {
        self.items@
    }

    /// The invariant: one value for each path, and the paths ascending.
    pub open spec fn wf(&self) -> bool {
        &&& self.keys().len() == self.values().len()
        &&& ascending(self.keys())
    }

    /// In a well-formed map the path at a position maps to the value there.
    pub proof fn lemma_entry(&self, i: int)
        requires
            self.wf(),
            0 <= i < self.keys().len(),
        ensures
            self@.contains_key(self.keys()[i]),
            self@[self.keys()[i]] == self.values()[i],
    {
        let k = self.keys()[i];
        assert(self.keys().contains(k));
        let j = position(self.keys(), k);
        lemma_lt_irreflexive(k);
        if j < i {
            assert(path_lt(self.keys()[j], self.keys()[i]));
        }
        if i < j {
            assert(path_lt(self.keys()[i], self.keys()[j]));
        }
    }

    /// Every path of the map stands at some position.
    pub proof fn lemma_member(&self, k: Seq<char>)
        requires
            self.wf(),
            self@.contains_key(k),
        ensures
            0 <= position(self.keys(), k) < self.keys().len(),
            self.keys()[position(self.keys(), k)] == k,
            self@[k] == self.values()[position(self.keys(), k)],
    {
        assert(self.keys().contains(k));
    }

    /// An empty map.
    pub fn new() -> (m: Self)
        ensures
            m.wf(),
            m@ == Map::<Seq<char>, T>::empty(),
            m.keys().len() == 0,
    {
        let m = PathMap { names: Vec::new(), items: Vec::new() };
        assert(m@ =~= Map::<Seq<char>, T>::empty());
        m
    }

    /// The number of paths.
    pub fn len(&self) -> (n: usize)
        requires
            self.wf(),
        ensures
            n == self.keys().len(),
            n == self.values().len(),
    {
        self.names.len()
    }

    /// The path at position `i`.
    pub fn key_at(&self, i: usize) -> (k: &Vec<char>)
        requires
            self.wf(),
            i < self.keys().len(),
        ensures
            k@ == self.keys()[i as int],
    {
        &self.names[i]
    }

    /// The value at position `i`.
    pub fn value_at(&self, i: usize) -> (v: &T)
        requires
            self.wf(),
            i < self.keys().len(),
        ensures
            *v == self.values()[i as int],
    {
        &self.items[i]
    }

    /// The position at which `key` stands or would stand, and whether it is
    /// there.
    pub fn locate(&self, key: &Vec<char>) -> (r: (usize, bool))
        requires
            self.wf(),
        ensures
            r.0 <= self.keys().len(),
            forall|j: int| 0 <= j < r.0 ==> path_lt(#[trigger] self.keys()[j], key@),
            forall|j: int| r.0 < j < self.keys().len() ==> path_lt(key@, #[trigger] self.keys()[j]),
            r.1 ==> r.0 < self.keys().len() && self.keys()[r.0 as int] == key@,
            !r.1 && r.0 < self.keys().len() ==> path_lt(key@, self.keys()[r.0 as int]),
            r.1 == self@.contains_key(key@),
    {
        let mut i: usize = 0;
        while i < self.names.len()
            invariant
                self.wf(),
                i <= self.names.len(),
                self.names.len() == self.keys().len(),
                forall|j: int| 0 <= j < i ==> path_lt(#[trigger] self.keys()[j], key@),
            decreases self.names.len() - i,
        {
            let rank = order_of(&self.names[i], key);
            match rank {
                Rank::Before => {
                    i += 1;
                },
                Rank::Same => {
                    proof {
                        assert(self.keys()[i as int] == key@);
                        assert(self.keys().contains(key@));
                        assert forall|j: int| i < j < self.keys().len() implies path_lt(
                            key@,
                            #[trigger] self.keys()[j],
                        ) by {
                            assert(path_lt(self.keys()[i as int], self.keys()[j]));
                        }
                    }
                    return (i, true);
                },
                Rank::After => {
                    proof {
                        assert forall|j: int| i < j < self.keys().len() implies path_lt(
                            key@,
                            #[trigger] self.keys()[j],
                        ) by {
                            assert(path_lt(self.keys()[i as int], self.keys()[j]));
                            lemma_lt_transitive(key@, self.keys()[i as int], self.keys()[j]);
                        }
                        if self.keys().contains(key@) {
                            let j = position(self.keys(), key@);
                            lemma_lt_irreflexive(key@);
                            if j < i {
                                assert(path_lt(self.keys()[j], key@));
                            } else if j > i {
                                assert(path_lt(key@, self.keys()[j]));
                            }
                        }
                    }
                    return (i, false);
                },
            }
        }
        proof {
            if self.keys().contains(key@) {
                let j = position(self.keys(), key@);
                lemma_lt_irreflexive(key@);
                assert(path_lt(self.keys()[j], key@));
            }
        }
        (i, false)
    }

    /// Whether the map holds `key`.
    pub fn contains(&self, key: &Vec<char>) -> (r: bool)
        requires
            self.wf(),
        ensures
            r == self@.contains_key(key@),
    {
        let (_, found) = self.locate(key);
        found
    }

    /// The value of `key`, if the map holds it.
    pub fn get(&self, key: &Vec<char>) -> (r: Option<&T>)
        requires
            self.wf(),
        ensures
            r is Some <==> self@.contains_key(key@),
            r is Some ==> *r->0 == self@[key@],
    {
        let (at, found) = self.locate(key);
        if found {
            proof {
                self.lemma_entry(at as int);
            }
            Some(&self.items[at])
        } else {
            None
        }
    }

    /// Sets the value of `key`, which is added where the map lacks it.
    pub fn insert(&mut self, key: Vec<char>, value: T)
        requires
            old(self).wf(),
        ensures
            final(self).wf(),
            final(self)@ == old(self)@.insert(key@, value),
    {
        let (at, found) = self.locate(&key);
        let ghost before = *self;
        if found {
            self.items[at] = value;
            proof {
                assert(self.keys() == before.keys());
                assert forall|k: Seq<char>| self@.contains_key(k) implies #[trigger] self@[k]
                    == before@.insert(key@, value)[k] by {
                    let p = position(self.keys(), k);
                    before.lemma_entry(p);
                    before.lemma_entry(at as int);
                    self.lemma_entry(p);
                    lemma_lt_irreflexive(k);
                    if p < at {
                        assert(path_lt(self.keys()[p], self.keys()[at as int]));
                    }
                    if at < p {
                        assert(path_lt(self.keys()[at as int], self.keys()[p]));
                    }
                }
                assert(self@ =~= before@.insert(key@, value));
            }
        } else {
            self.names.insert(at, key);
            self.items.insert(at, value);
            proof {
                let old_keys = before.keys();
                let new_keys = self.keys();
                assert(new_keys =~= old_keys.insert(at as int, key@));
                assert(self.values() =~= before.values().insert(at as int, value));
                assert forall|i: int, j: int| 0 <= i < j < new_keys.len() implies path_lt(
                    #[trigger] new_keys[i],
                    #[trigger] new_keys[j],
                ) by {
                    if j < at {
                        assert(path_lt(old_keys[i], old_keys[j]));
                    } else if j == at {
                        assert(path_lt(old_keys[i], key@));
                    } else if i < at {
                        assert(path_lt(old_keys[i], old_keys[j - 1]));
                    } else if i == at {
                        if j - 1 == at {
                            assert(path_lt(key@, old_keys[at as int]));
                        } else {
                            assert(path_lt(key@, old_keys[j - 1]));
                        }
                    } else {
                        assert(path_lt(old_keys[i - 1], old_keys[j - 1]));
                    }
                }
                assert(self.wf());
                let goal = before@.insert(key@, value);
                assert forall|k: Seq<char>| self@.contains_key(k) <==> goal.contains_key(k) by {
                    if self@.contains_key(k) {
                        let p = position(new_keys, k);
                        if p < at {
                            assert(old_keys[p] == k);
                        } else if p > at {
                            assert(old_keys[p - 1] == k);
                        }
                    }
                    if before@.contains_key(k) {
                        let p = position(old_keys, k);
                        if p < at {
                            assert(new_keys[p] == k);
                        } else {
                            assert(new_keys[p + 1] == k);
                        }
                    }
                    if k == key@ {
                        assert(new_keys[at as int] == k);
                    }
                }
                assert forall|k: Seq<char>| self@.contains_key(k) implies #[trigger] self@[k]
                    == goal[k] by {
                    let p = position(new_keys, k);
                    self.lemma_entry(p);
                    if p < at {
                        before.lemma_entry(p);
                        assert(path_lt(old_keys[p], key@));
                        lemma_lt_irreflexive(k);
                    } else if p > at {
                        before.lemma_entry(p - 1);
                        if p - 1 > at {
                            assert(path_lt(key@, old_keys[p - 1]));
                        }
                        lemma_lt_irreflexive(k);
                    }
                }
                assert(self@ =~= goal);
            }
        }
    }

    /// Takes `key` and its value out of the map, and returns the value if
    /// there was one.
    pub fn remove(&mut self, key: &Vec<char>) -> (r: Option<T>)
        requires
            old(self).wf(),
        ensures
            final(self).wf(),
            final(self)@ == old(self)@.remove(key@),
            r is Some <==> old(self)@.contains_key(key@),
            r is Some ==> r->0 == old(self)@[key@],
    {
        let (at, found) = self.locate(key);
        let ghost before = *self;
        if found {
            proof {
                before.lemma_entry(at as int);
            }
            let _ = self.names.remove(at);
            let value = self.items.remove(at);
            proof {
                let old_keys = before.keys();
                let new_keys = self.keys();
                assert(new_keys =~= old_keys.remove(at as int));
                assert(self.values() =~= before.values().remove(at as int));
                assert forall|i: int, j: int| 0 <= i < j < new_keys.len() implies path_lt(
                    #[trigger] new_keys[i],
                    #[trigger] new_keys[j],
                ) by {
                    let x = if i < at { i } else { i + 1 };
                    let y = if j < at { j } else { j + 1 };
                    assert(path_lt(old_keys[x], old_keys[y]));
                }
                assert(self.wf());
                let goal = before@.remove(key@);
                assert forall|k: Seq<char>| self@.contains_key(k) <==> goal.contains_key(k) by {
                    lemma_lt_irreflexive(key@);
                    if self@.contains_key(k) {
                        let p = position(new_keys, k);
                        if p < at {
                            assert(old_keys[p] == k);
                            assert(path_lt(old_keys[p], key@));
                        } else {
                            assert(old_keys[p + 1] == k);
                            assert(path_lt(key@, old_keys[p + 1]));
                        }
                    }
                    if before@.contains_key(k) && k != key@ {
                        let p = position(old_keys, k);
                        if p < at {
                            assert(new_keys[p] == k);
                        } else {
                            assert(new_keys[p - 1] == k);
                        }
                    }
                }
                assert forall|k: Seq<char>| self@.contains_key(k) implies #[trigger] self@[k]
                    == goal[k] by {
                    let p = position(new_keys, k);
                    assert(new_keys.contains(k));
                    assert(goal.contains_key(k));
                    self.lemma_entry(p);
                    if p < at {
                        assert(old_keys[p] == k);
                        before.lemma_entry(p);
                    } else {
                        assert(old_keys[p + 1] == k);
                        before.lemma_entry(p + 1);
                    }
                }
                assert(self@ =~= goal);
            }
            Some(value)
        } else {
            assert(self@ =~= before@.remove(key@));
            None
        }
    }

    /// Takes the last path and its value out of the map; `None` where the
    /// map is empty.
    pub fn pop_last(&mut self) -> (r: Option<(Vec<char>, T)>)
        requires
            old(self).wf(),
        ensures
            final(self).wf(),
            match r {
                Some(entry) => old(self)@.contains_key(entry.0@) && entry.1 == old(self)@[entry.0@]
                    && final(self)@ == old(self)@.remove(entry.0@),
                None => old(self)@ == Map::<Seq<char>, T>::empty() && final(self)@ == old(self)@,
            },
    {
        let ghost before = *self;
        if self.names.len() == 0 {
            assert(self@ =~= Map::<Seq<char>, T>::empty());
            return None;
        }
        let ghost last = self.names.len() - 1;
        proof {
            before.lemma_entry(last);
        }
        let key = self.names.pop().unwrap();
        let value = self.items.pop().unwrap();
        proof {
            let old_keys = before.keys();
            let new_keys = self.keys();
            assert(new_keys =~= old_keys.drop_last());
            assert(self.values() =~= before.values().drop_last());
            assert forall|i: int, j: int| 0 <= i < j < new_keys.len() implies path_lt(
                #[trigger] new_keys[i],
                #[trigger] new_keys[j],
            ) by {
                assert(path_lt(old_keys[i], old_keys[j]));
            }
            let goal = before@.remove(key@);
            assert forall|k: Seq<char>| self@.contains_key(k) <==> goal.contains_key(k) by {
                lemma_lt_irreflexive(key@);
                if self@.contains_key(k) {
                    let p = position(new_keys, k);
                    assert(old_keys[p] == k);
                    assert(path_lt(old_keys[p], old_keys[last]));
                }
                if before@.contains_key(k) && k != key@ {
                    let p = position(old_keys, k);
                    assert(new_keys[p] == k);
                }
            }
            assert forall|k: Seq<char>| self@.contains_key(k) implies #[trigger] self@[k]
                == goal[k] by {
                let p = position(new_keys, k);
                assert(new_keys.contains(k));
                assert(goal.contains_key(k));
                self.lemma_entry(p);
                assert(old_keys[p] == k);
                before.lemma_entry(p);
            }
            assert(self@ =~= goal);
        }
        Some((key, value))
    }

    /// Lays `top` over the map: every path of `top` is set to its value
    /// there.
    pub fn overlay(&mut self, top: PathMap<T>)
        requires
            old(self).wf(),
            top.wf(),
        ensures
            final(self).wf(),
            final(self)@ == old(self)@.union_prefer_right(top@),
    {
        let ghost base = self@;
        let mut rest = top;
        let mut open: bool = true;
        while open
            invariant
                self.wf(),
                rest.wf(),
                !open ==> rest@ == Map::<Seq<char>, T>::empty(),
                forall|k: Seq<char>| #[trigger]
                    rest@.contains_key(k) ==> top@.contains_key(k) && rest@[k] == top@[k],
                forall|k: Seq<char>| #[trigger]
                    self@.contains_key(k) <==> base.contains_key(k) || (top@.contains_key(k)
                        && !rest@.contains_key(k)),
                forall|k: Seq<char>| #[trigger]
                    self@.contains_key(k) ==> self@[k] == (if top@.contains_key(k)
                        && !rest@.contains_key(k) {
                        top@[k]
                    } else {
                        base[k]
                    }),
            decreases rest@.dom().len() + (if open { 1int } else { 0int }),
        {
            let ghost left = rest@;
            proof {
                rest.lemma_finite();
            }
            match rest.pop_last() {
                Some((key, value)) => {
                    proof {
                        assert(left.dom().finite());
                        assert(rest@.dom() =~= left.dom().remove(key@));
                    }
                    self.insert(key, value);
                },
                None => {
                    open = false;
                },
            }
        }
        assert(self@ =~= base.union_prefer_right(top@));
    }

    /// A well-formed map holds finitely many paths.
    pub proof fn lemma_finite(&self)
        requires
            self.wf(),
        ensures
            self@.dom().finite(),
    {
        assert(self@.dom() =~= self.keys().to_set());
        vstd::seq_lib::seq_to_set_is_finite(self.keys());
    }

    /// The stored paths list the map's domain in ascending order.
    pub proof fn lemma_keys_listed(&self)
        requires
            self.wf(),
        ensures
            lists_in_order(self.keys(), self@.dom()),
    {
    }
}

} // verus!
