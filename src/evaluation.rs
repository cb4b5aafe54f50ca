//! Evaluating a parse tree on a row, and its summed loss over a dataset.
//!
//! Every child lies after its parent, so one pass from the highest index down
//! computes both operands of an operator node before the node itself.

use vstd::prelude::*;
use crate::arena::{children_within, links_wf, node_well_typed, rule_matches};
use crate::error::GpError;
use crate::node::{Node, NodeType};
use crate::nonterminal::{NonTerminalGrammar, NonTerminalRule};
use crate::semantics::{
    apply_node, denote, evaluation, fails_last_at, find_rule, leaf_value, lemma_denote_same_shape,
    lemma_evaluation_same_shape, lemma_find_rule_first, lemma_find_rule_none, lemma_fails_last_unique,
    same_shape,
};
use crate::tree_builder::ParseTree;
use crate::types::{binds, DataRow, Dataset, EvalInput, Variable};
use crate::value::{Value, ValueView};

verus! {

/// The bindings of the row that `data` carries.
pub open spec fn input_row(data: EvalInput) -> Seq<(String, Value)> {
    match data {
        EvalInput::Data(row, _) => row.values@,
    }
}

/// What evaluating node `i` alone yields from the values its children hold now.
pub open spec fn node_step(nodes: Seq<Node>, i: int, row: Seq<(String, Value)>, rules: Seq<NonTerminalRule>) -> Result<ValueView, GpError> {
    match (nodes[i].left_index, nodes[i].right_index) {
        (Some(l), Some(r)) => apply_node(nodes[i], nodes[l as int].value@, nodes[r as int].value@, rules),
        (None, None) => leaf_value(nodes[i], row),
        _ => Err(GpError::IndexOutOfBounds),
    }
}

/// `after` differs from `before` at most in the value of node `i`, and not even
/// there when that node is a constant leaf.
pub open spec fn only_value_changed(before: Seq<Node>, after: Seq<Node>, i: int) -> bool {
    &&& after.len() == before.len()
    &&& forall|j: int| 0 <= j < before.len() && j != i ==> after[j] == before[j]
    &&& after[i].idx == before[i].idx
    &&& after[i]._type == before[i]._type
    &&& after[i].variable_id == before[i].variable_id
    &&& after[i].left_index == before[i].left_index
    &&& after[i].right_index == before[i].right_index
    &&& after[i].parent_index == before[i].parent_index
    &&& (before[i].is_leaf_spec() && before[i].variable_id is None ==> after[i].value == before[i].value)
}

/// `after` is `before` evaluated on `row`: same shape, and every node holds its meaning.
pub open spec fn evaluated(before: Seq<Node>, after: Seq<Node>, row: Seq<(String, Value)>, rules: Seq<NonTerminalRule>) -> bool {
    &&& same_shape(before, after)
    &&& forall|i: int| 0 <= i < before.len() ==> denote(before, i, row, rules) == Ok::<ValueView, GpError>((#[trigger] after[i]).value@)
}

/// Once both children hold their meanings, a node's own step gives its meaning.
proof fn lemma_step_is_denote(old_nodes: Seq<Node>, cur: Seq<Node>, i: int, row: Seq<(String, Value)>, rules: Seq<NonTerminalRule>)
    requires
        same_shape(old_nodes, cur),
        links_wf(old_nodes),
        0 <= i < old_nodes.len(),
        forall|j: int| i < j < old_nodes.len() ==> denote(old_nodes, j, row, rules) == Ok::<ValueView, GpError>((#[trigger] cur[j]).value@),
    ensures
        node_step(cur, i, row, rules) == denote(old_nodes, i, row, rules),
{
    assert(children_within(old_nodes, i, old_nodes.len() as int));
    assert(cur[i].idx == old_nodes[i].idx);
    match (old_nodes[i].left_index, old_nodes[i].right_index) {
        (Some(l), Some(r)) => {
            assert(denote(old_nodes, l as int, row, rules) == Ok::<ValueView, GpError>(cur[l as int].value@));
            assert(denote(old_nodes, r as int, row, rules) == Ok::<ValueView, GpError>(cur[r as int].value@));
        },
        _ => {},
    }
}

/// Evaluating an already-evaluated tree again on the same row leaves every
/// node's value, the root's included, as it was.
pub proof fn lemma_evaluation_idempotent(
    t0: Seq<Node>,
    t1: Seq<Node>,
    t2: Seq<Node>,
    row: Seq<(String, Value)>,
    rules: Seq<NonTerminalRule>,
)
    requires
        evaluated(t0, t1, row, rules),
        evaluated(t1, t2, row, rules),
    ensures
        t2.len() == t1.len(),
        forall|i: int| 0 <= i < t1.len() ==> (#[trigger] t2[i]).value@ == t1[i].value@,
{
    assert forall|i: int| 0 <= i < t1.len() implies (#[trigger] t2[i]).value@ == t1[i].value@ by {
        lemma_denote_same_shape(t0, t1, i, row, rules);
        assert(denote(t0, i, row, rules) == Ok::<ValueView, GpError>(t1[i].value@));
        assert(denote(t1, i, row, rules) == Ok::<ValueView, GpError>(t2[i].value@));
    }
}

/// A well-typed node's meaning can fail only in arithmetic when the row binds
/// every declared variable.
proof fn lemma_well_typed_node_fails_only_in_arithmetic(
    nodes: Seq<Node>,
    i: int,
    row: Seq<(String, Value)>,
    rules: Seq<NonTerminalRule>,
    vars: Seq<Variable>,
)
    requires
        links_wf(nodes),
        forall|k: int| 0 <= k < nodes.len() ==> #[trigger] node_well_typed(nodes, k, rules, vars),
        forall|k: int| 0 <= k < vars.len() ==> binds(row, (#[trigger] vars[k]).name@),
        0 <= i < nodes.len(),
    ensures
        denote(nodes, i, row, rules) is Err ==> denote(nodes, i, row, rules) == Err::<ValueView, GpError>(GpError::OperationFailed),
    decreases nodes.len() - i,
{
    assert(children_within(nodes, i, nodes.len() as int));
    assert(node_well_typed(nodes, i, rules, vars));
    match (nodes[i].left_index, nodes[i].right_index) {
        (Some(l), Some(r)) => {
            lemma_well_typed_node_fails_only_in_arithmetic(nodes, l as int, row, rules, vars);
            lemma_well_typed_node_fails_only_in_arithmetic(nodes, r as int, row, rules, vars);
        },
        _ => {
            if let Some(name) = nodes[i].variable_id {
                if let NodeType::Terminal(t) = nodes[i]._type {
                    let k = choose|k: int| 0 <= k < vars.len() && (#[trigger] vars[k]).name@ == name@ && vars[k]._type == t;
                    assert(binds(row, vars[k].name@));
                }
            }
        },
    }
}

/// Evaluating a tree whose nodes are all well typed against the grammar and
/// the declarations (as generated trees are), on a row that binds every
/// declared variable, fails only when a combinator's arithmetic fails: never
/// for a missing rule or an unbound variable.
pub proof fn lemma_generated_tree_fails_only_in_arithmetic(
    nodes: Seq<Node>,
    row: Seq<(String, Value)>,
    rules: Seq<NonTerminalRule>,
    vars: Seq<Variable>,
)
    requires
        nodes.len() > 0,
        links_wf(nodes),
        forall|k: int| 0 <= k < nodes.len() ==> #[trigger] node_well_typed(nodes, k, rules, vars),
        forall|k: int| 0 <= k < vars.len() ==> binds(row, (#[trigger] vars[k]).name@),
    ensures
        evaluation(nodes, row, rules) is Err ==> evaluation(nodes, row, rules) == Err::<ValueView, GpError>(GpError::OperationFailed),
{
    if exists|i: int| fails_last_at(nodes, row, rules, i) {
        let i = choose|i: int| fails_last_at(nodes, row, rules, i);
        lemma_well_typed_node_fails_only_in_arithmetic(nodes, i, row, rules, vars);
    } else {
        lemma_well_typed_node_fails_only_in_arithmetic(nodes, 0, row, rules, vars);
    }
}

/// Arenas of the same shape have the same links.
proof fn lemma_links_same_shape(a: Seq<Node>, b: Seq<Node>)
    requires
        same_shape(a, b),
        links_wf(a),
    ensures
        links_wf(b),
{
    assert forall|i: int| 0 <= i < b.len() implies #[trigger] children_within(b, i, b.len() as int) by {
        assert(children_within(a, i, a.len() as int));
        assert(b[i].idx == a[i].idx);
    }
}

/// `|a - b|`.
pub open spec fn abs_diff(a: int, b: int) -> int {
    if a >= b {
        a - b
    } else {
        b - a
    }
}

/// The L1 loss of the tree on one row: the distance between the root's value
/// and the target, or why there is none.
pub open spec fn row_loss(nodes: Seq<Node>, row: Seq<(String, Value)>, target: i64, rules: Seq<NonTerminalRule>) -> Result<int, GpError> {
    match evaluation(nodes, row, rules) {
        Ok(ValueView::Scalar(p)) => Ok(abs_diff(p as int, target as int)),
        Ok(_) => Err(GpError::NonScalarOutput),
        Err(e) => Err(e),
    }
}

/// The summed loss over the first `n` rows, or the failure on the first row that fails.
pub open spec fn total_loss(
    nodes: Seq<Node>,
    rows: Seq<DataRow>,
    targets: Seq<i64>,
    rules: Seq<NonTerminalRule>,
    n: nat,
) -> Result<int, GpError>
    decreases n,
{
    if n == 0 {
        Ok(0)
    } else {
        match total_loss(nodes, rows, targets, rules, (n - 1) as nat) {
            Err(e) => Err(e),
            Ok(s) => match row_loss(nodes, rows[n - 1].values@, targets[n - 1], rules) {
                Err(e) => Err(e),
                Ok(l) => Ok(s + l),
            },
        }
    }
}

proof fn lemma_total_loss_err(
    nodes: Seq<Node>,
    rows: Seq<DataRow>,
    targets: Seq<i64>,
    rules: Seq<NonTerminalRule>,
    m: nat,
    n: nat,
    e: GpError,
)
    requires
        m <= n,
        total_loss(nodes, rows, targets, rules, m) == Err::<int, GpError>(e),
    ensures
        total_loss(nodes, rows, targets, rules, n) == Err::<int, GpError>(e),
    decreases n - m,
{
    if m < n {
        lemma_total_loss_err(nodes, rows, targets, rules, m, (n - 1) as nat, e);
    }
}

fn distance(p: i64, t: i64) -> (r: u128)
    ensures
        r == abs_diff(p as int, t as int),
        r <= u64::MAX,
{
    if p >= t {
        (p as i128 - t as i128) as u128
    } else {
        (t as i128 - p as i128) as u128
    }
}

/// One step of the descending pass: node `i` now holds its meaning too.
proof fn lemma_eval_step(
    old_nodes: Seq<Node>,
    before: Seq<Node>,
    after: Seq<Node>,
    i: int,
    row: Seq<(String, Value)>,
    rules: Seq<NonTerminalRule>,
)
    requires
        same_shape(old_nodes, before),
        links_wf(old_nodes),
        0 <= i < old_nodes.len(),
        forall|j: int| i < j < old_nodes.len() ==> denote(old_nodes, j, row, rules) == Ok::<ValueView, GpError>((#[trigger] before[j]).value@),
        only_value_changed(before, after, i),
        node_step(before, i, row, rules) == Ok::<ValueView, GpError>(after[i].value@),
    ensures
        same_shape(old_nodes, after),
        forall|j: int| i <= j < old_nodes.len() ==> denote(old_nodes, j, row, rules) == Ok::<ValueView, GpError>((#[trigger] after[j]).value@),
{
    lemma_step_is_denote(old_nodes, before, i, row, rules);
    assert forall|j: int| 0 <= j < old_nodes.len() implies {
        &&& (#[trigger] after[j]).idx == old_nodes[j].idx
        &&& after[j]._type == old_nodes[j]._type
        &&& after[j].variable_id == old_nodes[j].variable_id
        &&& after[j].left_index == old_nodes[j].left_index
        &&& after[j].right_index == old_nodes[j].right_index
        &&& after[j].parent_index == old_nodes[j].parent_index
        &&& (old_nodes[j].is_leaf_spec() && old_nodes[j].variable_id is None ==> after[j].value == old_nodes[j].value)
    } by {
        assert(before[j].idx == old_nodes[j].idx);
    }
    assert forall|j: int| i <= j < old_nodes.len() implies denote(old_nodes, j, row, rules)
        == Ok::<ValueView, GpError>((#[trigger] after[j]).value@) by {
        if j > i {
            assert(after[j] == before[j]);
        }
    }
}

/// A failing step of the descending pass is what evaluation reports.
proof fn lemma_eval_fail(
    old_nodes: Seq<Node>,
    before: Seq<Node>,
    i: int,
    row: Seq<(String, Value)>,
    rules: Seq<NonTerminalRule>,
    e: GpError,
)
    requires
        same_shape(old_nodes, before),
        links_wf(old_nodes),
        0 <= i < old_nodes.len(),
        forall|j: int| i < j < old_nodes.len() ==> denote(old_nodes, j, row, rules) == Ok::<ValueView, GpError>((#[trigger] before[j]).value@),
        node_step(before, i, row, rules) == Err::<ValueView, GpError>(e),
    ensures
        evaluation(old_nodes, row, rules) == Err::<ValueView, GpError>(e),
        denote(old_nodes, i, row, rules) == Err::<ValueView, GpError>(e),
{
    lemma_step_is_denote(old_nodes, before, i, row, rules);
    assert forall|j: int| i < j < old_nodes.len() implies (#[trigger] denote(old_nodes, j, row, rules)) is Ok by {
        assert(denote(old_nodes, j, row, rules) == Ok::<ValueView, GpError>(before[j].value@));
    }
    assert(fails_last_at(old_nodes, row, rules, i));
    lemma_fails_last_unique(old_nodes, row, rules, i);
}

impl ParseTree {
    /// The first grammar rule whose signature and output equal node `idx`'s record.
    pub fn find_matching_rule_for_node<'a>(&self, idx: usize, grammar: &'a NonTerminalGrammar) -> (r: Result<&'a NonTerminalRule, GpError>)
        requires
            idx < self.tree@.len(),
        ensures
            match self.tree@[idx as int]._type {
                NodeType::NonTerminal(a, b, op, o) => match find_rule(grammar@, a, b, op, o) {
                    Some(rule) => r matches Ok(found) && *found == rule,
                    None => r matches Err(e) && e == GpError::NoMatchingRule,
                },
                NodeType::Terminal(_) => r matches Err(e) && e == GpError::NoMatchingRule,
            },
    {
        let (a, b, op, o) = match self.tree[idx]._type {
            NodeType::NonTerminal(a, b, op, o) => (a, b, op, o),
            NodeType::Terminal(_) => {
                return Err(GpError::NoMatchingRule);
            },
        };
        let rules = grammar.rules();
        let mut k: usize = 0;
        while k < rules.len()
            invariant
                k <= rules@.len(),
                rules@ == grammar@,
                idx < self.tree@.len(),
                self.tree@[idx as int]._type == NodeType::NonTerminal(a, b, op, o),
                forall|m: int| 0 <= m < k ==> !rule_matches(#[trigger] rules@[m], a, b, op, o),
            decreases rules@.len() - k,
        {
            let rule = &rules[k];
            if rule.operation == op && rule.input_one_type == a && rule.input_two_type == b && rule.output == o {
                proof {
                    assert(rule_matches(rules@[k as int], a, b, op, o));
                    lemma_find_rule_first(grammar@, a, b, op, o, k as int);
                    assert(*rule == grammar@[k as int]);
                }
                return Ok(rule);
            }
            k += 1;
        }
        proof {
            lemma_find_rule_none(grammar@, a, b, op, o);
        }
        Err(GpError::NoMatchingRule)
    }

    /// Computes node `idx` from its children's current values (operator node),
    /// or fetches its variable from `vars` (variable leaf); a constant leaf keeps
    /// its value.  On failure nothing changes.
    pub fn evaluate_node_at_index(&mut self, idx: usize, vars: &DataRow, grammar: &NonTerminalGrammar) -> (r: Result<(), GpError>)
        requires
            idx < old(self).tree@.len(),
            children_within(old(self).tree@, idx as int, old(self).tree@.len() as int),
        ensures
            final(self).id == old(self).id,
            final(self).fitness == old(self).fitness,
            only_value_changed(old(self).tree@, final(self).tree@, idx as int),
            r is Err ==> final(self).tree@ == old(self).tree@,
            r is Ok ==> node_step(old(self).tree@, idx as int, vars.values@, grammar@)
                == Ok::<ValueView, GpError>(final(self).tree@[idx as int].value@),
            r matches Err(e) ==> node_step(old(self).tree@, idx as int, vars.values@, grammar@) == Err::<ValueView, GpError>(e),
    {
        match (self.tree[idx].left_index, self.tree[idx].right_index) {
            (Some(left_idx), Some(right_idx)) => {
                let rule = match self.find_matching_rule_for_node(idx, grammar) {
                    Ok(rule) => rule,
                    Err(e) => {
                        return Err(e);
                    },
                };
                let result = match rule.execute(&self.tree[left_idx].value, &self.tree[right_idx].value) {
                    Some(v) => v,
                    None => {
                        return Err(GpError::OperationFailed);
                    },
                };
                self.tree[idx].value = result;
                Ok(())
            },
            (None, None) => {
                let fetched = match &self.tree[idx].variable_id {
                    Some(variable_id) => match vars.get(variable_id) {
                        Some(v) => v.duplicate(),
                        None => {
                            return Err(GpError::UnboundVariable);
                        },
                    },
                    None => {
                        return Ok(());
                    },
                };
                self.tree[idx].value = fetched;
                Ok(())
            },
            _ => Err(GpError::IndexOutOfBounds),
        }
    }

    /// Evaluates every node on the row of `data`, from the highest index down.
    ///
    /// It succeeds exactly when every node's meaning on the row can be computed;
    /// then every node holds its meaning.  Otherwise it reports the failure of
    /// the highest-indexed failing node.  The shape of the tree never changes.
    pub fn evaluate(&mut self, data: &EvalInput, grammar: &NonTerminalGrammar) -> (r: Result<(), GpError>)
        requires
            links_wf(old(self).tree@),
        ensures
            final(self).id == old(self).id,
            final(self).fitness == old(self).fitness,
            same_shape(old(self).tree@, final(self).tree@),
            r is Ok <==> forall|i: int| 0 <= i < old(self).tree@.len()
                ==> (#[trigger] denote(old(self).tree@, i, input_row(*data), grammar@)) is Ok,
            r is Ok ==> evaluated(old(self).tree@, final(self).tree@, input_row(*data), grammar@),
            r is Ok && old(self).tree@.len() > 0 ==> evaluation(old(self).tree@, input_row(*data), grammar@)
                == Ok::<ValueView, GpError>(final(self).tree@[0].value@),
            r matches Err(e) ==> evaluation(old(self).tree@, input_row(*data), grammar@) == Err::<ValueView, GpError>(e),
    {
        let row: &DataRow = match data {
            EvalInput::Data(row, _) => row,
        };
        let ghost rows = row.values@;
        let ghost rules = grammar@;
        let ghost old_tree = self.tree@;
        let mut i: usize = self.tree.len();
        while i > 0
            invariant
                i <= old_tree.len(),
                rows == input_row(*data),
                rows == row.values@,
                rules == grammar@,
                links_wf(old_tree),
                old_tree == old(self).tree@,
                same_shape(old_tree, self.tree@),
                self.id == old(self).id,
                self.fitness == old(self).fitness,
                forall|j: int| i <= j < old_tree.len() ==> denote(old_tree, j, rows, rules) == Ok::<ValueView, GpError>((#[trigger] self.tree@[j]).value@),
            decreases i,
        {
            i -= 1;
            let ghost before = self.tree@;
            proof {
                assert(children_within(old_tree, i as int, old_tree.len() as int));
                assert(before[i as int].idx == old_tree[i as int].idx);
            }
            match self.evaluate_node_at_index(i, row, grammar) {
                Err(e) => {
                    proof {
                        lemma_eval_fail(old_tree, before, i as int, rows, rules, e);
                        assert(self.tree@ == before);
                        assert(denote(old_tree, i as int, rows, rules) is Err);
                    }
                    return Err(e);
                },
                Ok(()) => {},
            }
            proof {
                lemma_eval_step(old_tree, before, self.tree@, i as int, rows, rules);
            }
        }
        proof {
            if old_tree.len() > 0 {
                assert(!exists|k: int| fails_last_at(old_tree, rows, rules, k)) by {
                    if exists|k: int| fails_last_at(old_tree, rows, rules, k) {
                        let k = choose|k: int| fails_last_at(old_tree, rows, rules, k);
                        assert(self.tree@[k].idx == old_tree[k].idx);
                    }
                }
                assert(self.tree@[0].idx == old_tree[0].idx);
            }
            assert forall|k: int| 0 <= k < old_tree.len() implies (#[trigger] denote(old_tree, k, rows, rules)) is Ok by {
                assert(self.tree@[k].idx == old_tree[k].idx);
            }
        }
        Ok(())
    }

    /// Evaluates the tree on every row of `dataset` and sets its fitness to the
    /// sum of the L1 distances between root value and target.  It fails, leaving
    /// the fitness as it was, on the first row where evaluation fails or the
    /// root's value is not a scalar.
    pub fn evaluate_fitness(&mut self, dataset: &Dataset, grammar: &NonTerminalGrammar) -> (r: Result<(), GpError>)
        requires
            links_wf(old(self).tree@),
            dataset.wf(),
        ensures
            final(self).id == old(self).id,
            same_shape(old(self).tree@, final(self).tree@),
            match total_loss(old(self).tree@, dataset.features@, dataset.targets@, grammar@, dataset.features@.len()) {
                Ok(s) => r is Ok && final(self).fitness == s,
                Err(e) => r == Err::<(), GpError>(e) && final(self).fitness == old(self).fitness,
            },
    {
        let ghost old_tree = self.tree@;
        let ghost rules = grammar@;
        let ghost rows = dataset.features@;
        let ghost targets = dataset.targets@;
        let mut fitness: u128 = 0;
        let mut k: usize = 0;
        while k < dataset.features.len()
            invariant
                k <= rows.len(),
                dataset.wf(),
                rows == dataset.features@,
                targets == dataset.targets@,
                rules == grammar@,
                old_tree == old(self).tree@,
                links_wf(old_tree),
                same_shape(old_tree, self.tree@),
                self.id == old(self).id,
                self.fitness == old(self).fitness,
                total_loss(old_tree, rows, targets, rules, k as nat) == Ok::<int, GpError>(fitness as int),
                fitness <= k * (u64::MAX as int),
            decreases rows.len() - k,
        {
            let ghost before = self.tree@;
            proof {
                lemma_links_same_shape(old_tree, before);
                lemma_evaluation_same_shape(old_tree, before, rows[k as int].values@, rules);
            }
            let input = EvalInput::Data(&dataset.features[k], &dataset.targets[k]);
            match self.evaluate(&input, grammar) {
                Err(e) => {
                    proof {
                        assert(total_loss(old_tree, rows, targets, rules, (k + 1) as nat) == Err::<int, GpError>(e));
                        lemma_total_loss_err(old_tree, rows, targets, rules, (k + 1) as nat, rows.len(), e);
                    }
                    return Err(e);
                },
                Ok(()) => {},
            }
            proof {
                assert(same_shape(old_tree, self.tree@)) by {
                    assert forall|j: int| 0 <= j < old_tree.len() implies (#[trigger] self.tree@[j]).idx == old_tree[j].idx by {
                        assert(before[j].idx == old_tree[j].idx);
                    }
                }
            }
            if self.tree.len() == 0 {
                proof {
                    assert(!exists|i: int| fails_last_at(old_tree, rows[k as int].values@, rules, i));
                    assert(total_loss(old_tree, rows, targets, rules, (k + 1) as nat)
                        == Err::<int, GpError>(GpError::IndexOutOfBounds));
                    lemma_total_loss_err(old_tree, rows, targets, rules, (k + 1) as nat, rows.len(), GpError::IndexOutOfBounds);
                }
                return Err(GpError::IndexOutOfBounds);
            }
            let loss: u128 = match &self.tree[0].value {
                Value::Scalar(p) => distance(*p, dataset.targets[k]),
                _ => {
                    proof {
                        assert(total_loss(old_tree, rows, targets, rules, (k + 1) as nat)
                            == Err::<int, GpError>(GpError::NonScalarOutput));
                        lemma_total_loss_err(old_tree, rows, targets, rules, (k + 1) as nat, rows.len(), GpError::NonScalarOutput);
                    }
                    return Err(GpError::NonScalarOutput);
                },
            };
            proof {
                assert(k + 1 <= u64::MAX) by {
                    assert(rows.len() <= usize::MAX);
                }
                assert((k + 1) * (u64::MAX as int) <= u128::MAX) by (nonlinear_arith)
                    requires
                        k + 1 <= u64::MAX,
                ;
                assert(fitness + loss <= (k + 1) * (u64::MAX as int)) by (nonlinear_arith)
                    requires
                        fitness <= k * (u64::MAX as int),
                        loss <= u64::MAX,
                ;
            }
            fitness = fitness + loss;
            k += 1;
        }
        self.fitness = fitness;
        Ok(())
    }

    /// Whether every node has no children or two that lie after it in the arena.
    pub fn has_valid_links(&self) -> (r: bool)
        ensures
            r == links_wf(self.tree@),
    {
        let n = self.tree.len();
        let mut i: usize = 0;
        while i < n
            invariant
                i <= n,
                n == self.tree@.len(),
                forall|k: int| 0 <= k < i ==> #[trigger] children_within(self.tree@, k, n as int),
            decreases n - i,
        {
            let ok = match (self.tree[i].left_index, self.tree[i].right_index) {
                (None, None) => true,
                (Some(l), Some(r)) => i < l && l < n && i < r && r < n,
                _ => false,
            };
            if !ok {
                assert(!children_within(self.tree@, i as int, n as int));
                return false;
            }
            i += 1;
        }
        true
    }
}

} // verus!
