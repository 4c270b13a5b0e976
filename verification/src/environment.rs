//! The variable table of a run: one flat mapping from names to values.
use vstd::prelude::*;

verus! {

struct Binding {
    name: String,
    value: String,
}

/// A finite mapping from identifiers to their current values. There is one
/// table for a whole run; blocks do not open scopes of their own.
pub struct Environment {
    bindings: Vec<Binding>,
}

impl View for Environment {
    type V = Map<Seq<char>, Seq<char>>;

    closed spec fn view(&self) -> Map<Seq<char>, Seq<char>> {
        Map::new(
            |name: Seq<char>| self.slot_of(name) is Some,
            |name: Seq<char>| self.bindings@[self.slot_of(name)->0].value@,
        )
    }
}

impl Environment {
    /// Slot `i` is the first one that holds `name`.
    spec fn holds_at(&self, name: Seq<char>, i: int) -> bool {
        &&& 0 <= i < self.bindings@.len()
        &&& self.bindings@[i].name@ == name
        &&& forall|j: int| 0 <= j < i ==> (#[trigger] self.bindings@[j]).name@ != name
    }

    spec fn slot_of(&self, name: Seq<char>) -> Option<int> {
        if exists|i: int| self.holds_at(name, i) {
            Some(choose|i: int| self.holds_at(name, i))
        } else {
            None
        }
    }

    /// The table that binds nothing.
    pub fn new() -> (environment: Environment)
        ensures
            environment@ == Map::<Seq<char>, Seq<char>>::empty(),
    {
        let environment = Environment { bindings: Vec::new() };
        assert(environment@ =~= Map::<Seq<char>, Seq<char>>::empty());
        environment
    }

    /// The slot that holds `name`, if one does.
    fn find(&self, name: &String) -> (slot: Option<usize>)
        ensures
            match slot {
                Some(i) => self.holds_at(name@, i as int),
                None => forall|i: int|
                    0 <= i < self.bindings@.len() ==> (#[trigger] self.bindings@[i]).name@
                        != name@,
            },
    {
        let mut i: usize = 0;
        while i < self.bindings.len()
            invariant
                i <= self.bindings@.len(),
                forall|j: int| 0 <= j < i ==> (#[trigger] self.bindings@[j]).name@ != name@,
            decreases self.bindings@.len() - i,
        {
            if self.bindings[i].name == *name {
                return Some(i);
            }
            i = i + 1;
        }
        None
    }

    /// The value bound to `name`, if it is bound.
    pub fn lookup(&self, name: &String) -> (value: Option<String>)
        ensures
            match value {
                Some(text) => self@.contains_key(name@) && self@[name@] == text@,
                None => !self@.contains_key(name@),
            },
    {
        match self.find(name) {
            Some(i) => {
                let ghost k = self.slot_of(name@)->0;
                assert(self.holds_at(name@, k));
                assert(k == i) by {
                    if k < i {
                        assert(self.bindings@[k].name@ != name@);
                    }
                    if i < k {
                        assert(self.bindings@[i as int].name@ != name@);
                    }
                }
                Some(self.bindings[i].value.clone())
            },
            None => None,
        }
    }

    /// Binds `name` to `value`, replacing the value it had if it was bound.
    pub fn bind(&mut self, name: String, value: String)
        ensures
            final(self)@ == old(self)@.insert(name@, value@),
    {
        let ghost before = *self;
        let found = self.find(&name);
        match found {
            Some(i) => {
                self.bindings.set(i, Binding { name, value });
            },
            None => {
                self.bindings.push(Binding { name, value });
            },
        }
        proof {
            let after = *self;
            assert forall|key: Seq<char>, j: int| key != name@ implies (after.holds_at(key, j)
                <==> before.holds_at(key, j)) by {
                if after.holds_at(key, j) {
                    assert forall|k: int| 0 <= k < j implies (#[trigger] before.bindings@[k]).name@
                        != key by {
                        assert(after.bindings@[k].name@ != key);
                    }
                }
                if before.holds_at(key, j) {
                    assert forall|k: int| 0 <= k < j implies (#[trigger] after.bindings@[k]).name@
                        != key by {
                        assert(before.bindings@[k].name@ != key);
                    }
                }
            }
            let slot = if found is Some {
                found->0 as int
            } else {
                before.bindings@.len() as int
            };
            assert(after.holds_at(name@, slot)) by {
                assert forall|k: int| 0 <= k < slot implies (#[trigger] after.bindings@[k]).name@
                    != name@ by {
                    assert(before.bindings@[k].name@ != name@);
                }
            }
            assert forall|key: Seq<char>| #[trigger] after.slot_of(key) is Some <==> (key == name@
                || before.slot_of(key) is Some) by {
                if after.slot_of(key) is Some && key != name@ {
                    assert(before.holds_at(key, after.slot_of(key)->0));
                }
                if before.slot_of(key) is Some && key != name@ {
                    assert(after.holds_at(key, before.slot_of(key)->0));
                }
            }
            assert forall|key: Seq<char>| #[trigger] after.slot_of(key) is Some implies after@[key]
                == before@.insert(name@, value@)[key] by {
                let j = after.slot_of(key)->0;
                assert(after.holds_at(key, j));
                if key != name@ {
                    assert(before.holds_at(key, j));
                    let k = before.slot_of(key)->0;
                    assert(before.holds_at(key, k));
                    if k < j {
                        assert(before.bindings@[k].name@ != key);
                    }
                    if j < k {
                        assert(before.bindings@[j].name@ != key);
                    }
                } else {
                    if slot < j {
                        assert(after.bindings@[slot].name@ != key);
                    }
                    if j < slot {
                        assert(after.bindings@[j].name@ != key);
                    }
                }
            }
            assert(after@ =~= before@.insert(name@, value@));
        }
    }
}

} // verus!
