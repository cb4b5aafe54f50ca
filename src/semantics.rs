//! The meaning of a tree on a dataset row, against a grammar.
//!
//! `denote` gives each node's value bottom-up; `evaluation` is what evaluating
//! the whole arena in descending index order reports: the root's value, or the
//! failure of the highest-indexed node that fails.

use vstd::prelude::*;
use crate::arena::{has_rule, rule_matches};
use crate::error::GpError;
use crate::node::{Node, NodeType};
use crate::nonterminal::NonTerminalRule;
use crate::ops::{combine, Operation};
use crate::types::{lookup, TypeInfo};
use crate::value::{Value, ValueView};

verus! {

/// Rule `i` is the first of `rules` with this signature and output.
pub open spec fn first_rule(rules: Seq<NonTerminalRule>, a: TypeInfo, b: TypeInfo, op: Operation, o: TypeInfo, i: int) -> bool {
    &&& 0 <= i < rules.len()
    &&& rule_matches(rules[i], a, b, op, o)
    &&& forall|k: int| 0 <= k < i ==> !rule_matches(#[trigger] rules[k], a, b, op, o)
}

/// The first rule with this signature and output, if any.
pub open spec fn find_rule(rules: Seq<NonTerminalRule>, a: TypeInfo, b: TypeInfo, op: Operation, o: TypeInfo) -> Option<NonTerminalRule> {
    if has_rule(rules, a, b, op, o) {
        Some(rules[choose|i: int| first_rule(rules, a, b, op, o, i)])
    } else {
        None
    }
}

/// The first matching rule is unique, so [`find_rule`] returns it.
pub proof fn lemma_find_rule_first(rules: Seq<NonTerminalRule>, a: TypeInfo, b: TypeInfo, op: Operation, o: TypeInfo, i: int)
    requires
        first_rule(rules, a, b, op, o, i),
    ensures
        find_rule(rules, a, b, op, o) == Some(rules[i]),
{
    assert(has_rule(rules, a, b, op, o));
    let j = choose|j: int| first_rule(rules, a, b, op, o, j);
    if j < i {
        assert(!rule_matches(rules[j], a, b, op, o));
    }
    if i < j {
        assert(!rule_matches(rules[i], a, b, op, o));
    }
}

/// With no rule of this signature and output, [`find_rule`] finds none.
pub proof fn lemma_find_rule_none(rules: Seq<NonTerminalRule>, a: TypeInfo, b: TypeInfo, op: Operation, o: TypeInfo)
    requires
        forall|k: int| 0 <= k < rules.len() ==> !rule_matches(#[trigger] rules[k], a, b, op, o),
    ensures
        find_rule(rules, a, b, op, o) is None,
{
}

/// A leaf's value on `row`: the bound value of its variable, or its constant.
pub open spec fn leaf_value(n: Node, row: Seq<(String, Value)>) -> Result<ValueView, GpError> {
    match n.variable_id {
        Some(name) => match lookup(row, name@) {
            Some(v) => Ok(v),
            None => Err(GpError::UnboundVariable),
        },
        None => Ok(n.value@),
    }
}

/// An operator node's value from its operand values: the combinator of the
/// first rule matching its recorded signature.
pub open spec fn apply_node(n: Node, a: ValueView, b: ValueView, rules: Seq<NonTerminalRule>) -> Result<ValueView, GpError> {
    match n._type {
        NodeType::NonTerminal(t1, t2, op, o) => match find_rule(rules, t1, t2, op, o) {
            Some(rule) => match combine(rule.func, a, b) {
                Some(v) => Ok(v),
                None => Err(GpError::OperationFailed),
            },
            None => Err(GpError::NoMatchingRule),
        },
        NodeType::Terminal(_) => Err(GpError::NoMatchingRule),
    }
}

/// The value of node `i` on `row`, computed from the leaves up.
pub open spec fn denote(nodes: Seq<Node>, i: int, row: Seq<(String, Value)>, rules: Seq<NonTerminalRule>) -> Result<ValueView, GpError>
    decreases nodes.len() - i,
{
    if i < 0 || i >= nodes.len() {
        Err(GpError::IndexOutOfBounds)
    } else {
        match (nodes[i].left_index, nodes[i].right_index) {
            (Some(l), Some(r)) => if i < l < nodes.len() && i < r < nodes.len() {
                match denote(nodes, l as int, row, rules) {
                    Err(e) => Err(e),
                    Ok(a) => match denote(nodes, r as int, row, rules) {
                        Err(e) => Err(e),
                        Ok(b) => apply_node(nodes[i], a, b, rules),
                    },
                }
            } else {
                Err(GpError::IndexOutOfBounds)
            },
            (None, None) => leaf_value(nodes[i], row),
            _ => Err(GpError::IndexOutOfBounds),
        }
    }
}

/// Node `i` is the highest-indexed node whose value cannot be computed.
pub open spec fn fails_last_at(nodes: Seq<Node>, row: Seq<(String, Value)>, rules: Seq<NonTerminalRule>, i: int) -> bool {
    &&& 0 <= i < nodes.len()
    &&& denote(nodes, i, row, rules) is Err
    &&& forall|j: int| i < j < nodes.len() ==> (#[trigger] denote(nodes, j, row, rules)) is Ok
}

/// What evaluating the arena on `row` reports: the failure of the
/// highest-indexed failing node, or else the root's value.
pub open spec fn evaluation(nodes: Seq<Node>, row: Seq<(String, Value)>, rules: Seq<NonTerminalRule>) -> Result<ValueView, GpError> {
    if exists|i: int| fails_last_at(nodes, row, rules, i) {
        denote(nodes, choose|i: int| fails_last_at(nodes, row, rules, i), row, rules)
    } else {
        denote(nodes, 0, row, rules)
    }
}

/// At most one node fails last.
pub proof fn lemma_fails_last_unique(nodes: Seq<Node>, row: Seq<(String, Value)>, rules: Seq<NonTerminalRule>, i: int)
    requires
        fails_last_at(nodes, row, rules, i),
    ensures
        evaluation(nodes, row, rules) == denote(nodes, i, row, rules),
{
    let j = choose|j: int| fails_last_at(nodes, row, rules, j);
    if j < i {
        assert(denote(nodes, i, row, rules) is Ok);
    }
    if i < j {
        assert(denote(nodes, j, row, rules) is Ok);
    }
}

/// `b` is `a` with only computed values replaced: every node keeps its index,
/// kind, variable, links and parent, and every constant leaf keeps its value.
pub open spec fn same_shape(a: Seq<Node>, b: Seq<Node>) -> bool {
    &&& a.len() == b.len()
    &&& forall|i: int| 0 <= i < a.len() ==> {
        &&& (#[trigger] b[i]).idx == a[i].idx
        &&& b[i]._type == a[i]._type
        &&& b[i].variable_id == a[i].variable_id
        &&& b[i].left_index == a[i].left_index
        &&& b[i].right_index == a[i].right_index
        &&& b[i].parent_index == a[i].parent_index
        &&& (a[i].is_leaf_spec() && a[i].variable_id is None ==> b[i].value == a[i].value)
    }
}

/// The meaning of a node does not depend on computed values.
pub proof fn lemma_denote_same_shape(a: Seq<Node>, b: Seq<Node>, i: int, row: Seq<(String, Value)>, rules: Seq<NonTerminalRule>)
    requires
        same_shape(a, b),
    ensures
        denote(a, i, row, rules) == denote(b, i, row, rules),
    decreases a.len() - i,
{
    if 0 <= i < a.len() {
        assert(b[i].idx == a[i].idx);
        match (a[i].left_index, a[i].right_index) {
            (Some(l), Some(r)) => {
                if i < l < a.len() && i < r < a.len() {
                    lemma_denote_same_shape(a, b, l as int, row, rules);
                    lemma_denote_same_shape(a, b, r as int, row, rules);
                }
            },
            _ => {},
        }
    }
}

/// Evaluation reports the same on arenas of the same shape.
pub proof fn lemma_evaluation_same_shape(a: Seq<Node>, b: Seq<Node>, row: Seq<(String, Value)>, rules: Seq<NonTerminalRule>)
    requires
        same_shape(a, b),
    ensures
        evaluation(a, row, rules) == evaluation(b, row, rules),
{
    assert forall|i: int| #[trigger] denote(a, i, row, rules) == denote(b, i, row, rules) by {
        lemma_denote_same_shape(a, b, i, row, rules);
    }
    assert forall|i: int| #[trigger] fails_last_at(a, row, rules, i) == fails_last_at(b, row, rules, i) by {
        if fails_last_at(a, row, rules, i) {
            assert forall|j: int| i < j < b.len() implies (#[trigger] denote(b, j, row, rules)) is Ok by {
                assert(denote(a, j, row, rules) is Ok);
            }
        }
        if fails_last_at(b, row, rules, i) {
            assert forall|j: int| i < j < a.len() implies (#[trigger] denote(a, j, row, rules)) is Ok by {
                assert(denote(b, j, row, rules) is Ok);
            }
        }
    }
    if exists|i: int| fails_last_at(a, row, rules, i) {
        let i = choose|i: int| fails_last_at(a, row, rules, i);
        lemma_fails_last_unique(a, row, rules, i);
        lemma_fails_last_unique(b, row, rules, i);
    } else if exists|i: int| fails_last_at(b, row, rules, i) {
        let i = choose|i: int| fails_last_at(b, row, rules, i);
        assert(fails_last_at(a, row, rules, i));
    }
}

} // verus!
