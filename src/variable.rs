//! A mutable lookup table from variable names to values.

use vstd::prelude::*;
use crate::error::GpError;
use crate::types::{binds, first_binding, lemma_first_binding_exists, lemma_lookup_first, lookup};
use crate::value::{Value, ValueView};

verus! {

/// The map that bindings `b` give: each bound name to the value of its first binding.
pub open spec fn bindings_map(b: Seq<(String, Value)>) -> Map<Seq<char>, ValueView> {
    Map::new(|k: Seq<char>| binds(b, k), |k: Seq<char>| lookup(b, k)->0)
}

/// Names bound to values; a name's type is enforced by the tree, not here.
#[derive(Debug)]
pub struct VariableContext {
    variables: Vec<(String, Value)>,
}

impl View for VariableContext {
    type V = Map<Seq<char>, ValueView>;

    closed spec fn view(&self) -> Map<Seq<char>, ValueView> {
        bindings_map(self.variables@)
    }
}

/// Index of the first binding for `name`, if any.
fn position_of(b: &Vec<(String, Value)>, name: &String) -> (r: Option<usize>)
    ensures
        match r {
            Some(i) => first_binding(b@, name@, i as int),
            None => !binds(b@, name@),
        },
{
    let mut i: usize = 0;
    while i < b.len()
        invariant
            i <= b@.len(),
            forall|k: int| 0 <= k < i ==> (#[trigger] b@[k]).0@ != name@,
        decreases b@.len() - i,
    {
        if b[i].0 == *name {
            return Some(i);
        }
        i += 1;
    }
    None
}

/// Replacing the value of the first binding for a name rebinds that name only.
proof fn lemma_replace_first(b: Seq<(String, Value)>, i: int, name: Seq<char>, v: Value)
    requires
        first_binding(b, name, i),
    ensures
        bindings_map(b.update(i, (b[i].0, v))) == bindings_map(b).insert(name, v@),
{
    let b2 = b.update(i, (b[i].0, v));
    assert forall|k: Seq<char>| #[trigger] binds(b2, k) == binds(b, k) by {
        if binds(b, k) {
            let j = choose|j: int| 0 <= j < b.len() && (#[trigger] b[j]).0@ == k;
            assert(b2[j].0@ == k);
        }
        if binds(b2, k) {
            let j = choose|j: int| 0 <= j < b2.len() && (#[trigger] b2[j]).0@ == k;
            assert(b[j].0@ == k);
        }
    }
    assert forall|k: Seq<char>| binds(b, k) implies #[trigger] lookup(b2, k) == (if k == name {
        Some(v@)
    } else {
        lookup(b, k)
    }) by {
        lemma_first_binding_exists(b, k);
        let j = choose|j: int| first_binding(b, k, j);
        assert(first_binding(b2, k, j)) by {
            assert forall|m: int| 0 <= m < j implies (#[trigger] b2[m]).0@ != k by {
                assert(b[m].0@ != k);
            }
        }
        lemma_lookup_first(b, k, j);
        lemma_lookup_first(b2, k, j);
        if k == name {
            lemma_lookup_first(b, name, i);
        } else {
            assert(j != i);
        }
    }
    assert(binds(b, name));
    assert(bindings_map(b2) =~= bindings_map(b).insert(name, v@));
}

/// Appending a binding for a name not yet bound binds it and changes nothing else.
proof fn lemma_push_new(b: Seq<(String, Value)>, name: String, v: Value)
    requires
        !binds(b, name@),
    ensures
        bindings_map(b.push((name, v))) == bindings_map(b).insert(name@, v@),
{
    let b2 = b.push((name, v));
    assert forall|k: Seq<char>| #[trigger] binds(b2, k) == (binds(b, k) || k == name@) by {
        if binds(b, k) {
            let j = choose|j: int| 0 <= j < b.len() && (#[trigger] b[j]).0@ == k;
            assert(b2[j].0@ == k);
        }
        if k == name@ {
            assert(b2[b.len() as int].0@ == k);
        }
        if binds(b2, k) && !binds(b, k) {
            let j = choose|j: int| 0 <= j < b2.len() && (#[trigger] b2[j]).0@ == k;
            if j < b.len() {
                assert(b[j].0@ == k);
            }
        }
    }
    assert forall|k: Seq<char>| #[trigger] binds(b2, k) implies lookup(b2, k) == (if k == name@ {
        Some(v@)
    } else {
        lookup(b, k)
    }) by {
        if k == name@ {
            assert forall|m: int| 0 <= m < b.len() implies (#[trigger] b2[m]).0@ != k by {
                assert(b[m] == b2[m]);
            }
            lemma_lookup_first(b2, k, b.len() as int);
        } else {
            assert(binds(b, k));
            lemma_first_binding_exists(b, k);
            let j = choose|j: int| first_binding(b, k, j);
            assert(first_binding(b2, k, j)) by {
                assert forall|m: int| 0 <= m < j implies (#[trigger] b2[m]).0@ != k by {
                    assert(b[m].0@ != k);
                }
            }
            lemma_lookup_first(b, k, j);
            lemma_lookup_first(b2, k, j);
        }
    }
    assert(bindings_map(b2) =~= bindings_map(b).insert(name@, v@));
}

impl VariableContext {
    pub fn new() -> (r: Self)
        ensures
            r@ == Map::<Seq<char>, ValueView>::empty(),
    {
        let r = VariableContext { variables: Vec::new() };
        assert(r@ =~= Map::<Seq<char>, ValueView>::empty());
        r
    }

    /// Binds `name` to `value`, replacing any earlier value.
    pub fn add_variable(&mut self, name: String, value: Value)
        ensures
            final(self)@ == old(self)@.insert(name@, value@),
    {
        match position_of(&self.variables, &name) {
            Some(i) => {
                proof {
                    lemma_replace_first(self.variables@, i as int, name@, value);
                }
                self.variables[i].1 = value;
                assert(self.variables@ =~= old(self).variables@.update(i as int, (old(self).variables@[i as int].0, value)));
            },
            None => {
                proof {
                    lemma_push_new(self.variables@, name, value);
                }
                self.variables.push((name, value));
            },
        }
    }

    /// The value bound to `name`, if any.
    pub fn get_variable(&self, name: &String) -> (r: Option<&Value>)
        ensures
            match r {
                Some(v) => self@.contains_key(name@) && self@[name@] == v@,
                None => !self@.contains_key(name@),
            },
    {
        match position_of(&self.variables, name) {
            Some(i) => {
                proof {
                    lemma_lookup_first(self.variables@, name@, i as int);
                }
                Some(&self.variables[i].1)
            },
            None => None,
        }
    }

    /// Rebinds a name that is already bound; fails with `UnboundVariable`, changing
    /// nothing, when it is not.
    pub fn set_variable_value(&mut self, name: &String, value: Value) -> (r: Result<(), GpError>)
        ensures
            r is Ok <==> old(self)@.contains_key(name@),
            r is Ok ==> final(self)@ == old(self)@.insert(name@, value@),
            r matches Err(e) ==> e == GpError::UnboundVariable && final(self)@ == old(self)@,
    {
        match position_of(&self.variables, name) {
            Some(i) => {
                proof {
                    lemma_replace_first(self.variables@, i as int, name@, value);
                }
                self.variables[i].1 = value;
                assert(self.variables@ =~= old(self).variables@.update(i as int, (old(self).variables@[i as int].0, value)));
                Ok(())
            },
            None => Err(GpError::UnboundVariable),
        }
    }
}

} // verus!
