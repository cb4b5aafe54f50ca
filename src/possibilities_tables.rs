//! Per-depth sets of the types that a tree may need there.
//!
//! Depth 0 holds the target type; depth `d + 1` holds both operand types of
//! every rule whose output is at depth `d`; the last depth also holds the type
//! of every declared variable.  A tree grown against the table never reaches a
//! depth at which the type it needs cannot be supplied.

use vstd::prelude::*;
use crate::nonterminal::{NonTerminalGrammar, NonTerminalRule};
use crate::types::{variable_types, TypeInfo, Variable, VariableDefinitions};

verus! {

/// `t` is an operand type of `rule`.
pub open spec fn feeds(rule: NonTerminalRule, t: TypeInfo) -> bool {
    rule.input_one_type == t || rule.input_two_type == t
}

/// Operand types of the rules whose output lies in `types`.
pub open spec fn operand_types(rules: Seq<NonTerminalRule>, types: Set<TypeInfo>) -> Set<TypeInfo> {
    Set::new(|t: TypeInfo| exists|j: int|
        0 <= j < rules.len() && types.contains(rules[j].output) && #[trigger] feeds(rules[j], t))
}

/// Types reachable through rules alone at depth `d`, starting from `target` at depth 0.
pub open spec fn reach(rules: Seq<NonTerminalRule>, target: TypeInfo, d: nat) -> Set<TypeInfo>
    decreases d,
{
    if d == 0 {
        set![target]
    } else {
        operand_types(rules, reach(rules, target, (d - 1) as nat))
    }
}

/// The set that the table holds at depth `d` of `max_depth`.
pub open spec fn table_layer(
    rules: Seq<NonTerminalRule>,
    vars: Seq<Variable>,
    target: TypeInfo,
    max_depth: nat,
    d: nat,
) -> Set<TypeInfo> {
    if d + 1 == max_depth {
        reach(rules, target, d).union(variable_types(vars))
    } else {
        reach(rules, target, d)
    }
}

/// Whether `v` holds `t`, by a scan.
fn holds_type(v: &Vec<TypeInfo>, t: TypeInfo) -> (r: bool)
    ensures
        r == v@.contains(t),
{
    let mut i: usize = 0;
    while i < v.len()
        invariant
            i <= v.len(),
            forall|k: int| 0 <= k < i ==> v@[k] != t,
        decreases v.len() - i,
    {
        if v[i] == t {
            return true;
        }
        i += 1;
    }
    false
}

/// Adds `t` to `v` unless it is there already.
fn insert_type(v: &mut Vec<TypeInfo>, t: TypeInfo)
    requires
        old(v)@.no_duplicates(),
    ensures
        final(v)@.no_duplicates(),
        forall|x: TypeInfo| final(v)@.contains(x) <==> (old(v)@.contains(x) || x == t),
{
    if !holds_type(v, t) {
        v.push(t);
        proof {
            assert forall|x: TypeInfo| v@.contains(x) <==> (old(v)@.contains(x) || x == t) by {
                if old(v)@.contains(x) {
                    let k = choose|k: int| 0 <= k < old(v)@.len() && old(v)@[k] == x;
                    assert(v@[k] == x);
                }
                if x == t {
                    assert(v@[v@.len() - 1] == x);
                }
            }
        }
    }
}

/// The operand types of the rules whose output is in `current`, each once.
fn next_layer(grammar: &NonTerminalGrammar, current: &Vec<TypeInfo>) -> (r: Vec<TypeInfo>)
    ensures
        r@.no_duplicates(),
        r@.to_set() == operand_types(grammar@, current@.to_set()),
{
    let rules = grammar.rules();
    let mut out: Vec<TypeInfo> = Vec::new();
    let mut j: usize = 0;
    while j < rules.len()
        invariant
            j <= rules.len(),
            rules@ == grammar@,
            out@.no_duplicates(),
            forall|t: TypeInfo| out@.contains(t) <==> exists|i: int|
                0 <= i < j && current@.contains(rules@[i].output) && #[trigger] feeds(rules@[i], t),
        decreases rules.len() - j,
    {
        let rule = rules[j];
        if holds_type(current, rule.output) {
            insert_type(&mut out, rule.input_one_type);
            insert_type(&mut out, rule.input_two_type);
        }
        proof {
            assert forall|t: TypeInfo| out@.contains(t) <==> exists|i: int|
                0 <= i < j + 1 && current@.contains(rules@[i].output) && #[trigger] feeds(rules@[i], t) by {
                if out@.contains(t) && !(current@.contains(rule.output) && feeds(rule, t)) {
                    let i = choose|i: int| 0 <= i < j && current@.contains(rules@[i].output) && #[trigger] feeds(rules@[i], t);
                    assert(0 <= i < j + 1);
                }
                if current@.contains(rule.output) && feeds(rule, t) {
                    assert(feeds(rules@[j as int], t));
                }
            }
        }
        j += 1;
    }
    proof {
        assert forall|t: TypeInfo| #[trigger] out@.to_set().contains(t)
            == operand_types(grammar@, current@.to_set()).contains(t) by {
            if out@.contains(t) {
                let i = choose|i: int| 0 <= i < j && current@.contains(rules@[i].output) && #[trigger] feeds(rules@[i], t);
                assert(current@.to_set().contains(rules@[i].output));
            }
            if operand_types(grammar@, current@.to_set()).contains(t) {
                let i = choose|i: int| 0 <= i < grammar@.len() && current@.to_set().contains(grammar@[i].output)
                    && #[trigger] feeds(grammar@[i], t);
                assert(current@.contains(rules@[i].output));
            }
        }
        assert(out@.to_set() =~= operand_types(grammar@, current@.to_set()));
    }
    out
}

/// The possibility table of a grammar, variable declarations, target type and depth bound.
#[derive(Debug)]
pub struct PossibilityTable {
    possibilities: Vec<Vec<TypeInfo>>,
    max_depth: usize,
}

impl PossibilityTable {
    /// The set held at each depth, from the root down.
    pub closed spec fn layers(&self) -> Seq<Set<TypeInfo>> {
        self.possibilities@.map_values(|v: Vec<TypeInfo>| v@.to_set())
    }

    pub closed spec fn max_depth_spec(&self) -> nat {
        self.max_depth as nat
    }

    /// The table holds exactly the layers that `grammar`, `vars`, `target` and its depth bound give.
    pub open spec fn built_from(&self, rules: Seq<NonTerminalRule>, vars: Seq<Variable>, target: TypeInfo) -> bool {
        &&& self.layers().len() == self.max_depth_spec()
        &&& forall|d: int| 0 <= d < self.layers().len() ==> #[trigger] self.layers()[d]
            == table_layer(rules, vars, target, self.max_depth_spec(), d as nat)
    }

    /// The table has no depths yet, or one per level of its depth bound.
    pub open spec fn wf(&self) -> bool {
        self.layers().len() == 0 || self.layers().len() == self.max_depth_spec()
    }

    /// The table has been built and no depth is empty.
    pub open spec fn is_valid_spec(&self) -> bool {
        self.layers().len() > 0 && forall|d: int|
            0 <= d < self.layers().len() ==> #[trigger] self.layers()[d] != Set::<TypeInfo>::empty()
    }

    /// A table with no layers yet: not valid for generation until built.
    pub fn empty(max_depth: usize) -> (r: Self)
        ensures
            r.layers().len() == 0,
            r.max_depth_spec() == max_depth,
            r.wf(),
    {
        PossibilityTable { possibilities: Vec::new(), max_depth }
    }

    /// Rebuilds every depth from `grammar`, `variables` and `target_type` by a
    /// forward sweep from the root; the depth bound stays.
    pub fn build_from_grammar(
        &mut self,
        grammar: &NonTerminalGrammar,
        variables: &VariableDefinitions,
        target_type: TypeInfo,
    )
        requires
            old(self).max_depth_spec() >= 1,
        ensures
            final(self).max_depth_spec() == old(self).max_depth_spec(),
            final(self).built_from(grammar@, variables.variables@, target_type),
            final(self).wf(),
    {
        let ghost rules = grammar@;
        let ghost vars = variables.variables@;
        let mut layers: Vec<Vec<TypeInfo>> = Vec::new();
        let mut current: Vec<TypeInfo> = Vec::new();
        current.push(target_type);
        assert(current@.to_set() =~= set![target_type]) by {
            assert(current@[0] == target_type);
        }
        assert(reach(rules, target_type, 0) == set![target_type]);
        let mut d: usize = 0;
        while d + 1 < self.max_depth
            invariant
                d + 1 <= self.max_depth,
                rules == grammar@,
                layers@.len() == d,
                forall|k: int| 0 <= k < d ==> (#[trigger] layers@[k])@.to_set() == reach(rules, target_type, k as nat),
                current@.to_set() == reach(rules, target_type, d as nat),
                current@.no_duplicates(),
            decreases self.max_depth - d,
        {
            let next = next_layer(grammar, &current);
            assert(next@.to_set() == reach(rules, target_type, (d + 1) as nat));
            layers.push(current);
            current = next;
            d += 1;
        }
        let mut k: usize = 0;
        while k < variables.variables.len()
            invariant
                k <= vars.len(),
                rules == grammar@,
                vars == variables.variables@,
                current@.no_duplicates(),
                forall|t: TypeInfo| current@.contains(t) <==> (reach(rules, target_type, d as nat).contains(t)
                    || exists|m: int| 0 <= m < k && (#[trigger] vars[m])._type == t),
            decreases vars.len() - k,
        {
            insert_type(&mut current, variables.variables[k]._type);
            proof {
                assert forall|t: TypeInfo| current@.contains(t) <==> (reach(rules, target_type, d as nat).contains(t)
                    || exists|m: int| 0 <= m < k + 1 && (#[trigger] vars[m])._type == t) by {
                    if t == vars[k as int]._type {
                        assert(0 <= k < k + 1);
                    }
                    if exists|m: int| 0 <= m < k + 1 && (#[trigger] vars[m])._type == t {
                        let m = choose|m: int| 0 <= m < k + 1 && (#[trigger] vars[m])._type == t;
                        if m < k {
                            assert(exists|m: int| 0 <= m < k && (#[trigger] vars[m])._type == t);
                        }
                    }
                }
            }
            k += 1;
        }
        assert(current@.to_set() =~= table_layer(rules, vars, target_type, self.max_depth as nat, d as nat));
        layers.push(current);
        self.possibilities = layers;
        assert forall|e: int| 0 <= e < self.layers().len() implies #[trigger] self.layers()[e]
            == table_layer(rules, vars, target_type, self.max_depth_spec(), e as nat) by {
            assert(self.layers()[e] == self.possibilities@[e]@.to_set());
        }
    }

    /// The table of `grammar`, `variables` and `target_type` for trees of at most
    /// `max_depth` levels.
    pub fn new(
        grammar: &NonTerminalGrammar,
        variables: &VariableDefinitions,
        target_type: TypeInfo,
        max_depth: usize,
    ) -> (r: Self)
        requires
            max_depth >= 1,
        ensures
            r.max_depth_spec() == max_depth,
            r.built_from(grammar@, variables.variables@, target_type),
            r.wf(),
    {
        let mut table = Self::empty(max_depth);
        table.build_from_grammar(grammar, variables, target_type);
        table
    }

    /// The types held at `depth`, if the table has that depth.
    pub fn get_possible_types_at_depth(&self, depth: usize) -> (r: Option<&Vec<TypeInfo>>)
        ensures
            match r {
                Some(v) => depth < self.layers().len() && v@.to_set() == self.layers()[depth as int],
                None => depth >= self.layers().len(),
            },
    {
        if depth < self.possibilities.len() {
            Some(&self.possibilities[depth])
        } else {
            None
        }
    }

    /// Whether `type_info` can be produced at `depth`.
    pub fn can_produce_type_at_depth(&self, depth: usize, type_info: TypeInfo) -> (r: bool)
        ensures
            r == (depth < self.layers().len() && self.layers()[depth as int].contains(type_info)),
    {
        if depth < self.possibilities.len() {
            holds_type(&self.possibilities[depth], type_info)
        } else {
            false
        }
    }

    pub fn get_max_depth(&self) -> (r: usize)
        ensures
            r == self.max_depth_spec(),
    {
        self.max_depth
    }

    /// Whether the table has been built and no depth is empty.
    pub fn is_valid_for_generation(&self) -> (r: bool)
        ensures
            r == self.is_valid_spec(),
    {
        if self.possibilities.len() == 0 {
            return false;
        }
        let mut d: usize = 0;
        while d < self.possibilities.len()
            invariant
                d <= self.possibilities.len(),
                forall|e: int| 0 <= e < d ==> #[trigger] self.layers()[e] != Set::<TypeInfo>::empty(),
            decreases self.possibilities.len() - d,
        {
            if self.possibilities[d].len() == 0 {
                assert(self.layers()[d as int] =~= Set::<TypeInfo>::empty());
                return false;
            }
            assert(self.layers()[d as int].contains(self.possibilities[d as int]@[0]));
            d += 1;
        }
        true
    }
}

} // verus!
