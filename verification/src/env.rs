//! The environment: the values bound to names.

use vstd::prelude::*;

verus! {

/// A mapping from names to 64-bit signed integers. Each name is bound at most
/// once; a new binding of a name replaces the old one.
pub struct Environment {
    bindings: Vec<(String, i64)>,
}

impl View for Environment {
    type V = Map<Seq<char>, i64>;

    /// The mapping that the environment stands for: the names that are bound,
    /// each with its value.
    closed spec fn view(&self) -> Map<Seq<char>, i64> {
        Map::new(
            |name: Seq<char>| exists|i: int| self.binds(name, i),
            |name: Seq<char>| self.bindings[choose|i: int| self.binds(name, i)].1,
        )
    }
}

impl Environment {
    #[verifier::type_invariant]
    spec fn names_differ(&self) -> bool {
        forall|i: int, j: int|
            0 <= i < j < self.bindings.len() ==> self.bindings[i].0@ != self.bindings[j].0@
    }

    /// Whether the binding at index `i` is that of `name`.
    spec fn binds(&self, name: Seq<char>, i: int) -> bool {
        0 <= i < self.bindings.len() && self.bindings[i].0@ == name
    }

    /// An environment without bindings.
    pub fn new() -> (env: Environment)
        ensures
            env@ == Map::<Seq<char>, i64>::empty(),
    {
        let env = Environment { bindings: Vec::new() };
        assert(env@ =~= Map::<Seq<char>, i64>::empty());
        env
    }

    /// The number of names that are bound.
    pub fn len(&self) -> (n: usize)
        ensures
            n == self@.dom().len(),
            self@.dom().finite(),
    {
        proof {
            use_type_invariant(self);
            self.lemma_domain(self.bindings.len() as int);
            assert(self.names_up_to(self.bindings.len() as int) =~= self@.dom());
        }
        self.bindings.len()
    }

    /// The names of the first `n` bindings.
    spec fn names_up_to(&self, n: int) -> Set<Seq<char>> {
        Set::new(|name: Seq<char>| exists|i: int| self.binds(name, i) && i < n)
    }

    /// The first `n` bindings bind `n` names.
    proof fn lemma_domain(&self, n: int)
        requires
            self.names_differ(),
            0 <= n <= self.bindings.len(),
        ensures
            self.names_up_to(n).finite(),
            self.names_up_to(n).len() == n,
        decreases n,
    {
        if n == 0 {
            assert(self.names_up_to(n) =~= Set::<Seq<char>>::empty());
        } else {
            self.lemma_domain(n - 1);
            let last = self.bindings[n - 1].0@;
            assert(self.binds(last, n - 1));
            assert(self.names_up_to(n) =~= self.names_up_to(n - 1).insert(last));
            assert(!self.names_up_to(n - 1).contains(last));
        }
    }

    /// The index of the binding of `name`, if it is bound.
    fn find(&self, name: &String) -> (found: Option<usize>)
        ensures
            match found {
                Some(i) => self.binds(name@, i as int),
                None => forall|i: int| !self.binds(name@, i),
            },
    {
        let mut i: usize = 0;
        while i < self.bindings.len()
            invariant
                i <= self.bindings.len(),
                forall|k: int| 0 <= k < i ==> !self.binds(name@, k),
            decreases self.bindings.len() - i,
        {
            if self.bindings[i].0 == *name {
                return Some(i);
            }
            i += 1;
        }
        None
    }

    /// The value bound to `name`, if it is bound.
    pub fn get(&self, name: &String) -> (value: Option<i64>)
        ensures
            value == if self@.dom().contains(name@) {
                Some(self@[name@])
            } else {
                None
            },
    {
        proof {
            use_type_invariant(self);
        }
        match self.find(name) {
            Some(i) => {
                assert(self.binds(name@, i as int));
                Some(self.bindings[i].1)
            },
            None => None,
        }
    }

    /// Binds `name` to `value`, in place of what it was bound to before.
    pub fn insert(&mut self, name: String, value: i64)
        ensures
            final(self)@ == old(self)@.insert(name@, value),
    {
        proof {
            use_type_invariant(&*self);
        }
        let ghost before = *self;
        let ghost key = name@;
        let found = self.find(&name);
        // The bindings are taken out, changed and put back, so that the names
        // are seen to differ still when they are put back.
        let mut bindings: Vec<(String, i64)> = Vec::new();
        std::mem::swap(&mut bindings, &mut self.bindings);
        let ghost at: int;
        match found {
            Some(i) => {
                bindings[i] = (name, value);
                proof {
                    at = i as int;
                }
            },
            None => {
                bindings.push((name, value));
                proof {
                    at = before.bindings.len() as int;
                }
            },
        }
        proof {
            assert forall|i: int, j: int| 0 <= i < j < bindings.len() implies bindings[i].0@
                != bindings[j].0@ by {
                assert(!before.binds(key, i) || i == at);
                assert(!before.binds(key, j) || j == at);
            }
        }
        self.bindings = bindings;
        proof {
            assert(self.binds(key, at));
            assert forall|other: Seq<char>, k: int| k != at implies self.binds(other, k)
                == before.binds(other, k) by {}
            assert forall|other: Seq<char>|
                self@.dom().contains(other) == before@.insert(key, value).dom().contains(
                    other,
                ) by {
                if self@.dom().contains(other) {
                    let k = choose|k: int| self.binds(other, k);
                    assert(k == at || before.binds(other, k));
                }
                if other != key && before@.dom().contains(other) {
                    let k = choose|k: int| before.binds(other, k);
                    assert(self.binds(other, k));
                }
            }
            assert forall|other: Seq<char>| self@.dom().contains(other) implies self@[other]
                == before@.insert(key, value)[other] by {
                let k = choose|k: int| self.binds(other, k);
                assert(self.binds(other, k));
                if other == key {
                    assert(k == at);
                } else {
                    let old_k = choose|old_k: int| before.binds(other, old_k);
                    assert(before.binds(other, k));
                    assert(before.binds(other, old_k));
                    assert(old_k == k);
                }
            }
            assert(self@ =~= before@.insert(key, value));
        }
    }
}

} // verus!
