//! The store of the variables.
//!
//! A value is kept as the 64 bits that write it: the store hands values
//! on and never reads them.

use crate::utils::same_text;
use vstd::prelude::*;

verus! {

/// The variables of a session: every name has at most one value.
#[derive(Debug)]
pub struct Environment {
    names: Vec<String>,
    values: Vec<u64>,
}

/// The texts of a list of names, in order.
pub open spec fn texts(v: Seq<String>) -> Seq<Seq<char>> {
    Seq::new(v.len(), |i: int| v[i]@)
}

/// The map from each of `names` to the value at the same index.
pub open spec fn bindings(names: Seq<Seq<char>>, values: Seq<u64>) -> Map<Seq<char>, u64>
    decreases names.len(),
{
    if names.len() == 0 || values.len() != names.len() {
        Map::empty()
    } else {
        bindings(names.drop_last(), values.drop_last()).insert(names.last(), values.last())
    }
}

/// No name stands twice.
pub open spec fn distinct(names: Seq<Seq<char>>) -> bool {
    forall|i: int, j: int| 0 <= i < j < names.len() ==> names[i] != names[j]
}

/// A binding is found under each of the names, and under no other.
pub proof fn lemma_bindings(names: Seq<Seq<char>>, values: Seq<u64>)
    requires
        names.len() == values.len(),
        distinct(names),
    ensures
        forall|i: int|
            0 <= i < names.len() ==> bindings(names, values).contains_key(#[trigger] names[i])
                && bindings(names, values)[names[i]] == values[i],
        forall|k: Seq<char>| #[trigger]
            bindings(names, values).contains_key(k) ==> exists|i: int|
                0 <= i < names.len() && names[i] == k,
    decreases names.len(),
{
    if names.len() > 0 {
        let n = names.drop_last();
        let v = values.drop_last();
        assert(distinct(n)) by {
            assert forall|i: int, j: int| 0 <= i < j < n.len() implies n[i] != n[j] by {
                assert(n[i] == names[i] && n[j] == names[j]);
            }
        }
        lemma_bindings(n, v);
        assert forall|i: int| 0 <= i < names.len() implies bindings(names, values).contains_key(
            #[trigger] names[i],
        ) && bindings(names, values)[names[i]] == values[i] by {
            if i < names.len() - 1 {
                assert(n[i] == names[i]);
                assert(v[i] == values[i]);
                assert(names[i] != names.last());
            }
        }
        assert forall|k: Seq<char>| #[trigger]
            bindings(names, values).contains_key(k) implies exists|i: int|
            0 <= i < names.len() && names[i] == k by {
            if k == names.last() {
                assert(names[names.len() - 1] == k);
            } else {
                assert(bindings(n, v).contains_key(k));
                let i = choose|i: int| 0 <= i < n.len() && n[i] == k;
                assert(names[i] == k);
            }
        }
    }
}

impl View for Environment {
    type V = Map<Seq<char>, u64>;

    closed spec fn view(&self) -> Map<Seq<char>, u64> {
        bindings(texts(self.names@), self.values@)
    }
}

impl Environment {
    /// Every name has one value and stands once.
    pub closed spec fn wf(&self) -> bool {
        self.names@.len() == self.values@.len() && distinct(texts(self.names@))
    }

    /// A store without variables.
    pub fn new() -> (r: Environment)
        ensures
            r.wf(),
            r@ == Map::<Seq<char>, u64>::empty(),
    {
        let r = Environment { names: Vec::new(), values: Vec::new() };
        assert(texts(r.names@) =~= Seq::<Seq<char>>::empty());
        r
    }

    /// The index under which `name` is kept.
    fn find(&self, name: &str) -> (r: Option<usize>)
        requires
            self.wf(),
        ensures
            match r {
                Some(i) => i < self.names@.len() && self.names@[i as int]@ == name@,
                None => forall|i: int| 0 <= i < self.names@.len() ==> self.names@[i]@ != name@,
            },
    {
        let mut i: usize = 0;
        while i < self.names.len()
            invariant
                i <= self.names@.len(),
                forall|k: int| 0 <= k < i ==> self.names@[k]@ != name@,
            decreases self.names@.len() - i,
        {
            if same_text(self.names[i].as_str(), name) {
                return Some(i);
            }
            i += 1;
        }
        None
    }

    /// Gives the variable `name` the value `value`, whether it had one or
    /// not. All other variables keep theirs.
    pub fn set(&mut self, name: &str, value: u64)
        requires
            old(self).wf(),
        ensures
            final(self).wf(),
            final(self)@ == old(self)@.insert(name@, value),
    {
        let ghost names = texts(self.names@);
        let ghost values = self.values@;
        proof {
            lemma_bindings(names, values);
        }
        match self.find(name) {
            Some(i) => {
                self.values.set(i, value);
                proof {
                    assert(texts(self.names@) == names);
                    lemma_bindings(names, self.values@);
                    assert(self@ =~= old(self)@.insert(name@, value)) by {
                        assert forall|k: Seq<char>|
                            old(self)@.insert(name@, value).contains_key(k) implies #[trigger]
                            self@.contains_key(k) && self@[k] == old(self)@.insert(
                                name@,
                                value,
                            )[k] by {
                            if k == name@ {
                                assert(names[i as int] == k);
                            } else {
                                let j = choose|j: int| 0 <= j < names.len() && names[j] == k;
                                assert(self@.contains_key(names[j]));
                            }
                        }
                        assert forall|k: Seq<char>| #[trigger]
                            self@.contains_key(k) implies old(self)@.insert(
                            name@,
                            value,
                        ).contains_key(k) by {
                            let j = choose|j: int| 0 <= j < names.len() && names[j] == k;
                            assert(old(self)@.contains_key(names[j]));
                        }
                    }
                }
            },
            None => {
                let owned = name.to_owned();
                self.names.push(owned);
                self.values.push(value);
                proof {
                    let now = texts(self.names@);
                    assert(now =~= names.push(name@));
                    assert(now.drop_last() =~= names);
                    assert(self.values@.drop_last() =~= values);
                    assert(distinct(now)) by {
                        assert forall|a: int, b: int| 0 <= a < b < now.len() implies now[a]
                            != now[b] by {
                            if b < names.len() {
                                assert(now[a] == names[a] && now[b] == names[b]);
                            } else {
                                assert(now[a] == old(self).names@[a]@);
                            }
                        }
                    }
                }
            },
        }
    }

    /// The value of the variable `name`, if it has one.
    pub fn get(&self, name: &str) -> (r: Option<u64>)
        requires
            self.wf(),
        ensures
            r == if self@.contains_key(name@) {
                Some(self@[name@])
            } else {
                None
            },
    {
        proof {
            lemma_bindings(texts(self.names@), self.values@);
        }
        match self.find(name) {
            Some(i) => {
                assert(texts(self.names@)[i as int] == name@);
                Some(self.values[i])
            },
            None => {
                proof {
                    if self@.contains_key(name@) {
                        let j = choose|j: int|
                            0 <= j < self.names@.len() && texts(self.names@)[j] == name@;
                        assert(self.names@[j]@ == name@);
                    }
                }
                None
            },
        }
    }

    /// Whether the variable `name` has a value.
    pub fn contains(&self, name: &str) -> (r: bool)
        requires
            self.wf(),
        ensures
            r == self@.contains_key(name@),
    {
        self.get(name).is_some()
    }

    /// The names of the variables that have a value, each of them once;
    /// their order has no meaning.
    pub fn names(&self) -> (r: Vec<String>)
        requires
            self.wf(),
        ensures
            distinct(texts(r@)),
            forall|k: Seq<char>| self@.contains_key(k) <==> texts(r@).contains(k),
    {
        let mut out: Vec<String> = Vec::new();
        let mut i: usize = 0;
        while i < self.names.len()
            invariant
                i <= self.names@.len(),
                out@.len() == i,
                forall|k: int| 0 <= k < i ==> out@[k]@ == self.names@[k]@,
            decreases self.names@.len() - i,
        {
            out.push(self.names[i].clone());
            i += 1;
        }
        proof {
            assert(texts(out@) =~= texts(self.names@));
            lemma_bindings(texts(self.names@), self.values@);
            assert forall|k: Seq<char>| self@.contains_key(k) <==> texts(out@).contains(k) by {
                if texts(out@).contains(k) {
                    let j = choose|j: int| 0 <= j < texts(out@).len() && texts(out@)[j] == k;
                    assert(self@.contains_key(texts(self.names@)[j]));
                }
            }
        }
        out
    }

    /// Takes the values of all variables away.
    pub fn clear(&mut self)
        requires
            old(self).wf(),
        ensures
            final(self).wf(),
            final(self)@ == Map::<Seq<char>, u64>::empty(),
    {
        self.names.clear();
        self.values.clear();
        assert(texts(self.names@) =~= Seq::<Seq<char>>::empty());
    }
}

impl Clone for Environment {
    fn clone(&self) -> (r: Environment)
        ensures
            self.wf() ==> r.wf() && r@ == self@,
    {
        let mut names: Vec<String> = Vec::new();
        let mut values: Vec<u64> = Vec::new();
        let mut i: usize = 0;
        while i < self.names.len() && i < self.values.len()
            invariant
                i <= self.names@.len(),
                i <= self.values@.len(),
                names@.len() == i,
                values@.len() == i,
                forall|k: int| 0 <= k < i ==> names@[k]@ == self.names@[k]@,
                forall|k: int| 0 <= k < i ==> values@[k] == self.values@[k],
            decreases self.names@.len() - i,
        {
            names.push(self.names[i].clone());
            values.push(self.values[i]);
            i += 1;
        }
        let r = Environment { names, values };
        proof {
            if self.wf() {
                assert(texts(r.names@) =~= texts(self.names@));
                assert(r.values@ =~= self.values@);
            }
        }
        r
    }
}

impl Default for Environment {
    fn default() -> (r: Environment)
        ensures
            r.wf(),
            r@ == Map::<Seq<char>, u64>::empty(),
    {
        Environment::new()
    }
}

} // verus!
