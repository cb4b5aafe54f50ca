//! Parse trees: generation against a grammar and a possibility table,
//! evaluation against dataset rows, and the orchestrator over a population.
//!
//! By default leaves follow a probabilistic policy: with even odds a leaf reads
//! a declared variable of exactly its type, otherwise it holds a fresh constant,
//! and nothing forces a variable to appear.  `generate_with_required_variables`
//! is the strict alternative: it places a given list of variables and hands back
//! those it could not place.

use vstd::prelude::*;
use crate::arena::{
    admissible, children_point_back, children_within, fits_height, full_grown, has_admissible, has_parent_from,
    is_tree, lemma_fits_height_frame, lemma_full_grown_frame, lemma_leaf_segment, lemma_preorder_frame,
    lemma_segment_frame, lemma_segment_join, links_wf, node_well_typed, preorder, rule_matches, subtree_segment,
};
use crate::error::GpError;
use crate::evaluation::{evaluated, input_row, total_loss};
use crate::node::{produced_type, Node, NodeType};
use crate::nonterminal::{inputs_for, lemma_inputs_for_contains, NonTerminalGrammar, NonTerminalRule, Signature};
use crate::possibilities_tables::PossibilityTable;
use crate::random::RandomSource;
use crate::semantics::{evaluation, same_shape};
use crate::types::{DataRow, Dataset, EvalInput, GenerationMethod, Shape, TypeInfo, Variable, VariableDefinitions};
use crate::value::{copy_elements, elements_within, has_shape, Value, ValueView};

verus! {

/// The all-zero value of `shape`.
pub open spec fn zero_value(shape: Shape) -> ValueView {
    match shape {
        Shape::Scalar => ValueView::Scalar(0),
        Shape::Vector(n) => ValueView::Vector(Seq::new(n as nat, |_i: int| 0i64)),
        Shape::Matrix(r, c) => ValueView::Matrix(Seq::new(r as nat, |_i: int| Seq::new(c as nat, |_j: int| 0i64))),
    }
}

/// What growing a subtree of type `required` at index `start` guarantees: the
/// nodes before `start` stay as they were, and `after[start..]` is a well-typed
/// subtree of that type under `parent`, of at most `h` levels, laid out in preorder.
pub open spec fn grown_subtree(
    before: Seq<Node>,
    after: Seq<Node>,
    start: int,
    required: TypeInfo,
    parent: usize,
    h: nat,
    rules: Seq<NonTerminalRule>,
    vars: Seq<Variable>,
) -> bool {
    &&& start == before.len()
    &&& after.len() > start
    &&& forall|i: int| 0 <= i < start ==> after[i] == before[i]
    &&& after[start].parent_index == parent
    &&& produced_type(after[start]._type) == required
    &&& subtree_segment(after, start, after.len() as int, rules, vars)
    &&& fits_height(after, start, h)
    &&& preorder(after, start, after.len() as int)
    &&& (after[start].is_leaf_spec() ==> after.len() == start + 1 && after[start]._type == NodeType::Terminal(required))
}

/// Whether some declared variable has exactly type `t`.
fn has_variable_of_type(variable_definitions: &VariableDefinitions, t: TypeInfo) -> (r: bool)
    ensures
        r == exists|k: int| 0 <= k < variable_definitions.variables@.len()
            && (#[trigger] variable_definitions.variables@[k])._type == t,
{
    let mut k: usize = 0;
    while k < variable_definitions.variables.len()
        invariant
            k <= variable_definitions.variables@.len(),
            forall|m: int| 0 <= m < k ==> (#[trigger] variable_definitions.variables@[m])._type != t,
        decreases variable_definitions.variables@.len() - k,
    {
        if variable_definitions.variables[k]._type == t {
            return true;
        }
        k += 1;
    }
    false
}

/// `v` is declared, under its name and with its type.
pub open spec fn is_declared(vars: Seq<Variable>, v: Variable) -> bool {
    exists|k: int| 0 <= k < vars.len() && (#[trigger] vars[k]).name@ == v.name@ && vars[k]._type == v._type
}

/// Node `n` reads the variable named `name`.
pub open spec fn node_reads(n: Node, name: Seq<char>) -> bool {
    n.variable_id matches Some(v) && v@ == name
}

/// Some node of `nodes[lo..hi)` reads the variable named `name`.
pub open spec fn reads_variable(nodes: Seq<Node>, lo: int, hi: int, name: Seq<char>) -> bool {
    exists|k: int| lo <= k < hi && #[trigger] node_reads(nodes[k], name)
}

/// Every variable of `required` is still in `remaining` or is read by a node of
/// `nodes[lo..hi)`, and only required variables remain.
pub open spec fn placed_or_remaining(
    required: Seq<Variable>,
    remaining: Seq<Variable>,
    nodes: Seq<Node>,
    lo: int,
    hi: int,
) -> bool {
    &&& forall|m: int| 0 <= m < remaining.len() ==> required.contains(#[trigger] remaining[m])
    &&& forall|i: int| 0 <= i < required.len() ==> remaining.contains(#[trigger] required[i])
        || reads_variable(nodes, lo, hi, required[i].name@)
}

/// A node that reads a variable keeps doing so in any arena that agrees on a wider range.
proof fn lemma_reads_variable_frame(a: Seq<Node>, b: Seq<Node>, lo: int, hi: int, lo2: int, hi2: int, name: Seq<char>)
    requires
        reads_variable(a, lo, hi, name),
        lo2 <= lo,
        hi <= hi2,
        forall|k: int| lo <= k < hi ==> a[k] == b[k],
    ensures
        reads_variable(b, lo2, hi2, name),
{
    let k = choose|k: int| lo <= k < hi && #[trigger] node_reads(a[k], name);
    assert(a[k] == b[k]);
    assert(node_reads(b[k], name));
}

/// `k` is the first variable of `s` with type `t`.
pub open spec fn first_of_type(s: Seq<Variable>, t: TypeInfo, k: int) -> bool {
    &&& 0 <= k < s.len()
    &&& s[k]._type == t
    &&& forall|j: int| 0 <= j < k ==> (#[trigger] s[j])._type != t
}

/// How many of the first `i` variables of `s` have type `t`.
pub open spec fn count_of_type(s: Seq<Variable>, t: TypeInfo, i: int) -> int
    decreases i,
{
    if i <= 0 {
        0
    } else {
        count_of_type(s, t, i - 1) + if s[i - 1]._type == t { 1int } else { 0int }
    }
}

/// The number of variables of type `t` that go to the left operand: half of
/// them, rounded up.
pub open spec fn left_share(s: Seq<Variable>, t: TypeInfo) -> int {
    let c = count_of_type(s, t, s.len() as int);
    c - c / 2
}

/// Shares `required` out between the two operands of a node of `node_type`:
/// the variables of that type in order, the first half (rounded up) to the
/// left; every other variable to a side chosen by a fair coin.
fn split_required(required: Vec<Variable>, node_type: TypeInfo, rng: &mut RandomSource) -> (r: (Vec<Variable>, Vec<Variable>))
    ensures
        forall|i: int| 0 <= i < required@.len() ==> r.0@.contains(#[trigger] required@[i]) || r.1@.contains(required@[i]),
        forall|m: int| 0 <= m < r.0@.len() ==> required@.contains(#[trigger] r.0@[m]),
        forall|m: int| 0 <= m < r.1@.len() ==> required@.contains(#[trigger] r.1@[m]),
        forall|i: int| 0 <= i < required@.len() && (#[trigger] required@[i])._type == node_type ==> {
            &&& count_of_type(required@, node_type, i) < left_share(required@, node_type) ==> r.0@.contains(required@[i])
            &&& count_of_type(required@, node_type, i) >= left_share(required@, node_type) ==> r.1@.contains(required@[i])
        },
{
    let mut compatible: usize = 0;
    let mut k: usize = 0;
    while k < required.len()
        invariant
            k <= required@.len(),
            compatible <= k,
            compatible == count_of_type(required@, node_type, k as int),
        decreases required@.len() - k,
    {
        if required[k]._type == node_type {
            compatible += 1;
        }
        k += 1;
    }
    assert(required@.len() == k);
    let left_quota = compatible - compatible / 2;
    let ghost orig = required@;
    let mut rest = required;
    let mut left: Vec<Variable> = Vec::new();
    let mut right: Vec<Variable> = Vec::new();
    let mut sent_left: usize = 0;
    let mut i: usize = 0;
    while rest.len() > 0
        invariant
            i <= orig.len(),
            orig.len() <= usize::MAX,
            rest@ == orig.subrange(i as int, orig.len() as int),
            sent_left <= i,
            forall|j: int| 0 <= j < i ==> left@.contains(#[trigger] orig[j]) || right@.contains(orig[j]),
            forall|m: int| 0 <= m < left@.len() ==> orig.contains(#[trigger] left@[m]),
            forall|m: int| 0 <= m < right@.len() ==> orig.contains(#[trigger] right@[m]),
            left_quota == left_share(orig, node_type),
            sent_left == if count_of_type(orig, node_type, i as int) < left_quota {
                count_of_type(orig, node_type, i as int)
            } else {
                left_quota as int
            },
            forall|j: int| 0 <= j < i && (#[trigger] orig[j])._type == node_type ==> {
                &&& count_of_type(orig, node_type, j) < left_quota ==> left@.contains(orig[j])
                &&& count_of_type(orig, node_type, j) >= left_quota ==> right@.contains(orig[j])
            },
        decreases rest@.len(),
    {
        let v = rest.remove(0);
        let ghost gv = v;
        let ghost left_before = left@;
        let ghost right_before = right@;
        assert(orig[i as int] == gv);
        assert(count_of_type(orig, node_type, i + 1) == count_of_type(orig, node_type, i as int)
            + if orig[i as int]._type == node_type { 1int } else { 0int });
        let to_left = if v._type == node_type {
            if sent_left < left_quota {
                sent_left += 1;
                true
            } else {
                false
            }
        } else {
            rng.coin()
        };
        if to_left {
            left.push(v);
        } else {
            right.push(v);
        }
        proof {
            assert forall|j: int| 0 <= j < i + 1 implies left@.contains(#[trigger] orig[j]) || right@.contains(orig[j]) by {
                if j == i {
                    if to_left {
                        assert(left@[left@.len() - 1] == gv);
                    } else {
                        assert(right@[right@.len() - 1] == gv);
                    }
                } else if left_before.contains(orig[j]) {
                    let m = choose|m: int| 0 <= m < left_before.len() && left_before[m] == orig[j];
                    assert(left@[m] == orig[j]);
                } else {
                    let m = choose|m: int| 0 <= m < right_before.len() && right_before[m] == orig[j];
                    assert(right@[m] == orig[j]);
                }
            }
            assert forall|j: int| 0 <= j < i + 1 && (#[trigger] orig[j])._type == node_type implies {
                &&& count_of_type(orig, node_type, j) < left_quota ==> left@.contains(orig[j])
                &&& count_of_type(orig, node_type, j) >= left_quota ==> right@.contains(orig[j])
            } by {
                if j == i {
                    if to_left {
                        assert(left@[left@.len() - 1] == gv);
                    } else {
                        assert(right@[right@.len() - 1] == gv);
                    }
                } else {
                    if count_of_type(orig, node_type, j) < left_quota {
                        let m = choose|m: int| 0 <= m < left_before.len() && left_before[m] == orig[j];
                        assert(left@[m] == orig[j]);
                    } else {
                        let m = choose|m: int| 0 <= m < right_before.len() && right_before[m] == orig[j];
                        assert(right@[m] == orig[j]);
                    }
                }
            }
            assert forall|m: int| 0 <= m < left@.len() implies orig.contains(#[trigger] left@[m]) by {
                if m < left_before.len() {
                    assert(left@[m] == left_before[m]);
                } else {
                    assert(left@[m] == orig[i as int]);
                }
            }
            assert forall|m: int| 0 <= m < right@.len() implies orig.contains(#[trigger] right@[m]) by {
                if m < right_before.len() {
                    assert(right@[m] == right_before[m]);
                } else {
                    assert(right@[m] == orig[i as int]);
                }
            }
        }
        i += 1;
        assert(rest@ =~= orig.subrange(i as int, orig.len() as int));
    }
    (left, right)
}

/// Placements inside a range survive in any arena that agrees on it.
proof fn lemma_placed_frame(required: Seq<Variable>, remaining: Seq<Variable>, a: Seq<Node>, b: Seq<Node>, lo: int, hi: int)
    requires
        placed_or_remaining(required, remaining, a, lo, hi),
        forall|k: int| lo <= k < hi ==> a[k] == b[k],
    ensures
        placed_or_remaining(required, remaining, b, lo, hi),
{
    assert forall|i: int| 0 <= i < required.len() implies remaining.contains(#[trigger] required[i])
        || reads_variable(b, lo, hi, required[i].name@) by {
        if !remaining.contains(required[i]) {
            lemma_reads_variable_frame(a, b, lo, hi, lo, hi, required[i].name@);
        }
    }
}

/// The variables left over by both operands of an operator node at `c`, whose
/// subtrees span `[c + 1, mid)` and `[mid, e)`, account for all it was given.
proof fn lemma_placed_join(
    required: Seq<Variable>,
    lv: Seq<Variable>,
    rv: Seq<Variable>,
    rem_l: Seq<Variable>,
    rem_r: Seq<Variable>,
    nodes: Seq<Node>,
    c: int,
    mid: int,
    e: int,
)
    requires
        forall|i: int| 0 <= i < required.len() ==> lv.contains(#[trigger] required[i]) || rv.contains(required[i]),
        forall|m: int| 0 <= m < lv.len() ==> required.contains(#[trigger] lv[m]),
        forall|m: int| 0 <= m < rv.len() ==> required.contains(#[trigger] rv[m]),
        placed_or_remaining(lv, rem_l, nodes, c + 1, mid),
        placed_or_remaining(rv, rem_r, nodes, mid, e),
        c < mid <= e,
    ensures
        placed_or_remaining(required, rem_l + rem_r, nodes, c, e),
{
    let remaining = rem_l + rem_r;
    assert forall|m: int| 0 <= m < remaining.len() implies required.contains(#[trigger] remaining[m]) by {
        if m < rem_l.len() {
            assert(remaining[m] == rem_l[m]);
            assert(lv.contains(rem_l[m]));
            let j = choose|j: int| 0 <= j < lv.len() && lv[j] == rem_l[m];
            assert(required.contains(lv[j]));
        } else {
            let q = m - rem_l.len();
            assert(remaining[m] == rem_r[q]);
            assert(rv.contains(rem_r[q]));
            let j = choose|j: int| 0 <= j < rv.len() && rv[j] == rem_r[q];
            assert(required.contains(rv[j]));
        }
    }
    assert forall|i: int| 0 <= i < required.len() implies remaining.contains(#[trigger] required[i])
        || reads_variable(nodes, c, e, required[i].name@) by {
        let v = required[i];
        if lv.contains(v) {
            let j = choose|j: int| 0 <= j < lv.len() && lv[j] == v;
            if rem_l.contains(lv[j]) {
                let m = choose|m: int| 0 <= m < rem_l.len() && rem_l[m] == v;
                assert(remaining[m] == v);
            } else {
                assert(reads_variable(nodes, c + 1, mid, lv[j].name@));
                lemma_reads_variable_frame(nodes, nodes, c + 1, mid, c, e, v.name@);
            }
        } else {
            assert(rv.contains(v));
            let j = choose|j: int| 0 <= j < rv.len() && rv[j] == v;
            if rem_r.contains(rv[j]) {
                let m = choose|m: int| 0 <= m < rem_r.len() && rem_r[m] == v;
                assert(remaining[rem_l.len() + m] == v);
            } else {
                assert(reads_variable(nodes, mid, e, rv[j].name@));
                lemma_reads_variable_frame(nodes, nodes, mid, e, c, e, v.name@);
            }
        }
    }
}

/// How many elements a value of `shape` holds.
pub open spec fn element_count(shape: Shape) -> int {
    match shape {
        Shape::Scalar => 1,
        Shape::Vector(n) => n as int,
        Shape::Matrix(r, c) => r * c,
    }
}

/// The value of `shape` whose elements, in row-major order, are `xs`.
pub open spec fn value_from(shape: Shape, xs: Seq<i64>) -> ValueView {
    match shape {
        Shape::Scalar => ValueView::Scalar(xs[0]),
        Shape::Vector(n) => ValueView::Vector(xs.subrange(0, n as int)),
        Shape::Matrix(r, c) => ValueView::Matrix(Seq::new(r as nat, |i: int| xs.subrange(i * c, i * c + c))),
    }
}

/// The value of `shape` made of `draws` in row-major order.
pub fn value_from_draws(shape: Shape, draws: &Vec<i64>) -> (r: Value)
    requires
        draws@.len() == element_count(shape),
    ensures
        r@ == value_from(shape, draws@),
        has_shape(r@, shape),
        (forall|k: int| 0 <= k < draws@.len() ==> -100 <= #[trigger] draws@[k] <= 100) ==> elements_within(r@, -100, 100),
{
    match shape {
        Shape::Scalar => Value::Scalar(draws[0]),
        Shape::Vector(n) => {
            let xs = copy_elements(draws);
            assert(draws@.subrange(0, n as int) =~= draws@);
            Value::Vector(xs)
        },
        Shape::Matrix(rows, cols) => {
            let ghost xs = draws@;
            let total = draws.len();
            assert(xs.len() == total);
            let mut m: Vec<Vec<i64>> = Vec::new();
            let mut i: usize = 0;
            let mut k: usize = 0;
            while i < rows
                invariant
                    i <= rows,
                    xs == draws@,
                    xs.len() == rows * cols,
                    xs.len() <= usize::MAX,
                    k == i * cols,
                    m@.len() == i,
                    forall|q: int| 0 <= q < i ==> (#[trigger] m@[q])@ == xs.subrange(q * cols, q * cols + cols),
                decreases rows - i,
            {
                assert(i * cols + cols <= rows * cols) by (nonlinear_arith)
                    requires
                        i < rows,
                ;
                let mut row: Vec<i64> = Vec::new();
                let mut j: usize = 0;
                while j < cols
                    invariant
                        j <= cols,
                        i < rows,
                        xs == draws@,
                        xs.len() == rows * cols,
                        xs.len() <= usize::MAX,
                        i * cols + cols <= rows * cols,
                        k == i * cols + j,
                        row@ == xs.subrange(i * cols, k as int),
                    decreases cols - j,
                {
                    row.push(draws[k]);
                    k += 1;
                    j += 1;
                    assert(row@ =~= xs.subrange(i * cols, k as int));
                }
                m.push(row);
                assert((i + 1) * cols == i * cols + cols) by (nonlinear_arith);
                i += 1;
            }
            let ghost mv = m@.map_values(|v: Vec<i64>| v@);
            assert(mv =~= Seq::new(rows as nat, |q: int| xs.subrange(q * cols, q * cols + cols)));
            proof {
                assert forall|q: int| 0 <= q < rows implies (#[trigger] mv[q]).len() == cols by {
                    assert(q * cols + cols <= rows * cols) by (nonlinear_arith)
                        requires
                            q < rows,
                    ;
                    assert(0 <= q * cols) by (nonlinear_arith)
                        requires
                            0 <= q,
                    ;
                }
                if forall|k2: int| 0 <= k2 < xs.len() ==> -100 <= #[trigger] xs[k2] <= 100 {
                    assert forall|q: int, j: int| 0 <= q < mv.len() && 0 <= j < mv[q].len() implies -100 <= #[trigger] mv[q][j] <= 100 by {
                        assert(q * cols + cols <= rows * cols) by (nonlinear_arith)
                            requires
                                q < rows,
                        ;
                        assert(0 <= q * cols) by (nonlinear_arith)
                            requires
                                0 <= q,
                        ;
                        assert(mv[q][j] == xs[q * cols + j]);
                    }
                }
            }
            Value::Matrix(m)
        },
    }
}

/// The declared variables of type `t`, in declaration order.
pub open spec fn variables_of_type(vars: Seq<Variable>, t: TypeInfo) -> Seq<Variable>
    decreases vars.len(),
{
    if vars.len() == 0 {
        Seq::empty()
    } else {
        let prev = variables_of_type(vars.drop_last(), t);
        if vars.last()._type == t {
            prev.push(vars.last())
        } else {
            prev
        }
    }
}

/// `n` is the leaf of type `t` that a coin `use_variable`, an index `pick` and
/// a constant give: the variable of type `t` at `pick` (modulo their number)
/// with an all-zero value when the coin says so and such variables exist; else
/// no variable and the constant.
pub open spec fn leaf_from_draws(n: Node, t: TypeInfo, vars: Seq<Variable>, use_variable: bool, pick: int, constant: ValueView) -> bool {
    let m = variables_of_type(vars, t);
    &&& n._type == NodeType::Terminal(t)
    &&& n.is_leaf_spec()
    &&& if use_variable && m.len() > 0 {
        &&& n.variable_id matches Some(name) && name@ == m[pick % (m.len() as int)].name@
        &&& n.value@ == zero_value(t.shape)
    } else {
        &&& n.variable_id is None
        &&& n.value@ == constant
    }
}

/// Indices of the declared variables of type `t`, in declaration order.
fn matching_variables(variable_definitions: &VariableDefinitions, t: TypeInfo) -> (r: Vec<usize>)
    ensures
        r@.len() == variables_of_type(variable_definitions.variables@, t).len(),
        forall|m: int| 0 <= m < r@.len() ==> {
            &&& (#[trigger] r@[m]) < variable_definitions.variables@.len()
            &&& variable_definitions.variables@[r@[m] as int] == variables_of_type(variable_definitions.variables@, t)[m]
            &&& variable_definitions.variables@[r@[m] as int]._type == t
        },
{
    let ghost vars = variable_definitions.variables@;
    let mut matching: Vec<usize> = Vec::new();
    let mut k: usize = 0;
    while k < variable_definitions.variables.len()
        invariant
            k <= vars.len(),
            vars == variable_definitions.variables@,
            matching@.len() == variables_of_type(vars.subrange(0, k as int), t).len(),
            forall|m: int| 0 <= m < matching@.len() ==> {
                &&& (#[trigger] matching@[m]) < vars.len()
                &&& vars[matching@[m] as int] == variables_of_type(vars.subrange(0, k as int), t)[m]
                &&& vars[matching@[m] as int]._type == t
            },
        decreases vars.len() - k,
    {
        assert(vars.subrange(0, k + 1).drop_last() =~= vars.subrange(0, k as int));
        assert(vars.subrange(0, k + 1).last() == vars[k as int]);
        if variable_definitions.variables[k]._type == t {
            matching.push(k);
        }
        k += 1;
    }
    assert(vars.subrange(0, k as int) =~= vars);
    matching
}

/// The leaf of type `required_type` that the draws give (see `leaf_from_draws`).
pub fn terminal_from_draws(
    required_type: TypeInfo,
    variable_definitions: &VariableDefinitions,
    use_variable: bool,
    pick: usize,
    constant: Value,
    current_idx: usize,
    parent_idx: usize,
) -> (r: Node)
    ensures
        r.idx == current_idx,
        r.parent_index == parent_idx,
        leaf_from_draws(r, required_type, variable_definitions.variables@, use_variable, pick as int, constant@),
        r.variable_id matches Some(name) ==> exists|k: int| 0 <= k < variable_definitions.variables@.len()
            && (#[trigger] variable_definitions.variables@[k]).name@ == name@
            && variable_definitions.variables@[k]._type == required_type,
{
    let matching = matching_variables(variable_definitions, required_type);
    if use_variable && matching.len() > 0 {
        let chosen = matching[pick % matching.len()];
        let placeholder_value = ParseTree::create_placeholder_value(required_type);
        Node {
            idx: current_idx,
            _type: NodeType::Terminal(required_type),
            value: placeholder_value,
            variable_id: Some(variable_definitions.variables[chosen].name.clone()),
            left_index: None,
            right_index: None,
            parent_index: parent_idx,
        }
    } else {
        Node {
            idx: current_idx,
            _type: NodeType::Terminal(required_type),
            value: constant,
            variable_id: None,
            left_index: None,
            right_index: None,
            parent_index: parent_idx,
        }
    }
}

/// One generated expression: an identifier, its summed loss (0 until
/// evaluated) and its node arena, whose index 0 is the root.
#[derive(Debug)]
pub struct ParseTree {
    pub id: usize,
    pub fitness: u128,
    pub tree: Vec<Node>,
}

/// `count` random elements in `[-100, 100]`.
fn random_elements(count: usize, rng: &mut RandomSource) -> (r: Vec<i64>)
    ensures
        r@.len() == count,
        forall|k: int| 0 <= k < count ==> -100 <= #[trigger] r@[k] <= 100,
{
    let mut out: Vec<i64> = Vec::new();
    let mut i: usize = 0;
    while i < count
        invariant
            i <= count,
            out@.len() == i,
            forall|k: int| 0 <= k < i ==> -100 <= #[trigger] out@[k] <= 100,
        decreases count - i,
    {
        let x = rng.in_range(-100, 100);
        out.push(x);
        i += 1;
    }
    out
}

fn zero_elements(count: usize) -> (r: Vec<i64>)
    ensures
        r@ == Seq::new(count as nat, |_i: int| 0i64),
{
    let mut out: Vec<i64> = Vec::new();
    let mut i: usize = 0;
    while i < count
        invariant
            i <= count,
            out@ == Seq::new(i as nat, |_i: int| 0i64),
        decreases count - i,
    {
        out.push(0);
        i += 1;
        assert(out@ =~= Seq::new(i as nat, |_i: int| 0i64));
    }
    out
}

impl ParseTree {
    /// A tree with no nodes yet.
    pub fn empty(id: usize) -> (r: Self)
        ensures
            r.id == id,
            r.fitness == 0,
            r.tree@.len() == 0,
    {
        ParseTree { id, fitness: 0, tree: Vec::new() }
    }

    /// A fresh constant of `type_info`: one draw from `[-100, 100]` per
    /// element, in row-major order, laid out by `value_from_draws`.
    pub fn create_random_value(type_info: TypeInfo, rng: &mut RandomSource) -> (r: Value)
        ensures
            has_shape(r@, type_info.shape),
            elements_within(r@, -100, 100),
            element_count(type_info.shape) <= usize::MAX ==> exists|draws: Seq<i64>| {
                &&& draws.len() == element_count(type_info.shape)
                &&& (forall|k: int| 0 <= k < draws.len() ==> -100 <= #[trigger] draws[k] <= 100)
                &&& r@ == value_from(type_info.shape, draws)
            },
    {
        let count: Option<usize> = match type_info.shape {
            Shape::Scalar => Some(1),
            Shape::Vector(size) => Some(size),
            Shape::Matrix(rows, cols) => rows.checked_mul(cols),
        };
        match count {
            Some(n) => {
                let draws = random_elements(n, rng);
                let r = value_from_draws(type_info.shape, &draws);
                assert(r@ == value_from(type_info.shape, draws@));
                r
            },
            None => {
                // more elements than an index can count: lay the rows out one by one
                let (rows, cols) = match type_info.shape {
                    Shape::Matrix(rows, cols) => (rows, cols),
                    _ => (0, 0),
                };
                let mut m: Vec<Vec<i64>> = Vec::new();
                let mut i: usize = 0;
                while i < rows
                    invariant
                        i <= rows,
                        m@.len() == i,
                        forall|k: int| 0 <= k < i ==> (#[trigger] m@[k])@.len() == cols,
                        forall|k: int, j: int| 0 <= k < i && 0 <= j < cols ==> -100 <= #[trigger] m@[k]@[j] <= 100,
                    decreases rows - i,
                {
                    m.push(random_elements(cols, rng));
                    i += 1;
                }
                let ghost mv = m@.map_values(|v: Vec<i64>| v@);
                assert forall|k: int| 0 <= k < rows implies (#[trigger] mv[k]).len() == cols by {
                    assert(m@[k]@.len() == cols);
                }
                assert forall|k: int, j: int| 0 <= k < mv.len() && 0 <= j < mv[k].len() implies -100 <= #[trigger] mv[k][j] <= 100 by {
                    assert(m@[k]@[j] == mv[k][j]);
                }
                Value::Matrix(m)
            },
        }
    }

    /// The all-zero value of `type_info`, held by nodes until evaluation fills them.
    pub fn create_placeholder_value(type_info: TypeInfo) -> (r: Value)
        ensures
            r@ == zero_value(type_info.shape),
            has_shape(r@, type_info.shape),
            elements_within(r@, -100, 100),
    {
        match type_info.shape {
            Shape::Scalar => Value::Scalar(0),
            Shape::Vector(size) => Value::Vector(zero_elements(size)),
            Shape::Matrix(rows, cols) => {
                let mut m: Vec<Vec<i64>> = Vec::new();
                let mut i: usize = 0;
                while i < rows
                    invariant
                        i <= rows,
                        m@.len() == i,
                        forall|k: int| 0 <= k < i ==> (#[trigger] m@[k])@ == Seq::new(cols as nat, |_j: int| 0i64),
                    decreases rows - i,
                {
                    m.push(zero_elements(cols));
                    i += 1;
                }
                assert(m@.map_values(|v: Vec<i64>| v@) =~= Seq::new(rows as nat, |_i: int| Seq::new(cols as nat, |_j: int| 0i64)));
                Value::Matrix(m)
            },
        }
    }

    /// Appends a leaf of `required_type`.  A fair coin decides whether it reads
    /// a declared variable of exactly that type, chosen uniformly among them;
    /// otherwise, or when no variable has that type, it holds a fresh random
    /// constant.  The leaf is the one `terminal_from_draws` makes from the draws.
    fn create_terminal_node(
        &mut self,
        required_type: TypeInfo,
        variable_definitions: &VariableDefinitions,
        rng: &mut RandomSource,
        current_idx: usize,
        parent_idx: usize,
    ) -> (r: usize)
        requires
            current_idx == old(self).tree@.len(),
        ensures
            final(self).id == old(self).id,
            final(self).fitness == old(self).fitness,
            r == current_idx,
            final(self).tree@.len() == current_idx + 1,
            forall|i: int| 0 <= i < current_idx ==> final(self).tree@[i] == old(self).tree@[i],
            final(self).tree@[r as int].parent_index == parent_idx,
            final(self).tree@[r as int]._type == NodeType::Terminal(required_type),
            final(self).tree@[r as int].is_leaf_spec(),
            forall|rules| node_well_typed(final(self).tree@, r as int, rules, variable_definitions.variables@),
            exists|use_variable: bool, pick: int, constant: ValueView| {
                &&& has_shape(constant, required_type.shape)
                &&& elements_within(constant, -100, 100)
                &&& #[trigger] leaf_from_draws(final(self).tree@[r as int], required_type, variable_definitions.variables@,
                    use_variable, pick, constant)
            },
    {
        let matching = matching_variables(variable_definitions, required_type);
        let use_variable = variable_definitions.variables.len() > 0 && rng.coin();
        let (pick, constant) = if use_variable && matching.len() > 0 {
            (rng.index_below(matching.len()), Self::create_placeholder_value(required_type))
        } else {
            (0, Self::create_random_value(required_type, rng))
        };
        let ghost k = constant@;
        let terminal_node = terminal_from_draws(
            required_type,
            variable_definitions,
            use_variable,
            pick,
            constant,
            current_idx,
            parent_idx,
        );
        self.tree.push(terminal_node);
        proof {
            assert(leaf_from_draws(self.tree@[current_idx as int], required_type, variable_definitions.variables@,
                use_variable, pick as int, k));
        }
        current_idx
    }

    /// Appends a leaf of `required_type`.  It reads the first variable of
    /// `required` that has exactly that type, which leaves the list, if there
    /// is one; otherwise it is made as `create_terminal_node` makes leaves.
    /// Returns its index and the variables still to place.
    fn create_leaf(
        &mut self,
        required_type: TypeInfo,
        variable_definitions: &VariableDefinitions,
        rng: &mut RandomSource,
        current_idx: usize,
        parent_idx: usize,
        required: Vec<Variable>,
    ) -> (r: (usize, Vec<Variable>))
        requires
            current_idx == old(self).tree@.len(),
            forall|i: int| 0 <= i < required@.len() ==> is_declared(variable_definitions.variables@, #[trigger] required@[i]),
        ensures
            final(self).id == old(self).id,
            final(self).fitness == old(self).fitness,
            r.0 == current_idx,
            final(self).tree@.len() == current_idx + 1,
            forall|i: int| 0 <= i < current_idx ==> final(self).tree@[i] == old(self).tree@[i],
            final(self).tree@[r.0 as int].parent_index == parent_idx,
            final(self).tree@[r.0 as int]._type == NodeType::Terminal(required_type),
            final(self).tree@[r.0 as int].is_leaf_spec(),
            forall|rules| node_well_typed(final(self).tree@, r.0 as int, rules, variable_definitions.variables@),
            placed_or_remaining(required@, r.1@, final(self).tree@, current_idx as int, current_idx + 1),
            forall|k: int| #[trigger] first_of_type(required@, required_type, k) ==> {
                &&& node_reads(final(self).tree@[r.0 as int], required@[k].name@)
                &&& final(self).tree@[r.0 as int].value@ == zero_value(required_type.shape)
                &&& r.1@ == required@.remove(k)
            },
            (forall|k: int| 0 <= k < required@.len() ==> (#[trigger] required@[k])._type != required_type) ==> {
                &&& r.1@ == required@
                &&& exists|use_variable: bool, pick: int, constant: ValueView| {
                    &&& has_shape(constant, required_type.shape)
                    &&& elements_within(constant, -100, 100)
                    &&& #[trigger] leaf_from_draws(final(self).tree@[r.0 as int], required_type,
                        variable_definitions.variables@, use_variable, pick, constant)
                }
            },
    {
        let ghost vars = variable_definitions.variables@;
        let mut k: usize = 0;
        while k < required.len()
            invariant
                k <= required@.len(),
                forall|m: int| 0 <= m < k ==> (#[trigger] required@[m])._type != required_type,
            ensures
                k <= required@.len(),
                forall|m: int| 0 <= m < k ==> (#[trigger] required@[m])._type != required_type,
                k < required@.len() ==> required@[k as int]._type == required_type,
            decreases required@.len() - k,
        {
            if required[k]._type == required_type {
                break;
            }
            k += 1;
        }
        if k < required.len() {
            let ghost orig = required@;
            let mut rest = required;
            let v = rest.remove(k);
            let placeholder_value = Self::create_placeholder_value(required_type);
            let terminal_node = Node {
                idx: current_idx,
                _type: NodeType::Terminal(required_type),
                value: placeholder_value,
                variable_id: Some(v.name),
                left_index: None,
                right_index: None,
                parent_index: parent_idx,
            };
            self.tree.push(terminal_node);
            proof {
                let nodes = self.tree@;
                let c = current_idx as int;
                assert(orig[k as int]._type == required_type);
                assert(is_declared(vars, orig[k as int]));
                assert(node_reads(nodes[c], orig[k as int].name@));
                assert forall|k2: int| #[trigger] first_of_type(orig, required_type, k2) implies k2 == k by {
                    if k2 < k {
                        assert(orig[k2]._type != required_type);
                    } else if k2 > k {
                        assert(orig[k as int]._type != required_type);
                    }
                }
                assert forall|m: int| 0 <= m < rest@.len() implies orig.contains(#[trigger] rest@[m]) by {
                    if m < k {
                        assert(rest@[m] == orig[m]);
                    } else {
                        assert(rest@[m] == orig[m + 1]);
                    }
                }
                assert forall|i: int| 0 <= i < orig.len() implies rest@.contains(#[trigger] orig[i])
                    || reads_variable(nodes, c, c + 1, orig[i].name@) by {
                    if i < k {
                        assert(rest@[i] == orig[i]);
                    } else if i > k {
                        assert(rest@[i - 1] == orig[i]);
                    } else {
                        assert(node_reads(nodes[c], orig[i].name@));
                    }
                }
            }
            (current_idx, rest)
        } else {
            let r = self.create_terminal_node(required_type, variable_definitions, rng, current_idx, parent_idx);
            proof {
                assert forall|i: int| 0 <= i < required@.len() implies required@.contains(#[trigger] required@[i])
                    || reads_variable(self.tree@, r as int, r + 1, required@[i].name@) by {
                    assert(required@[i] == required@[i]);
                }
            }
            (r, required)
        }
    }

    /// Grows the subtree for `required_type` at `current_depth`, placing what it
    /// can of `required`, and returns the index of its root and the variables it
    /// could not place.  It is a leaf when the table marks the type unreachable
    /// here (a fallback that a valid table never needs) or at the last depth;
    /// otherwise, under `Full`, an operator node is attempted; under `Grow`, a
    /// leaf is taken with odds 3 in 10 when both a rule and a variable of the
    /// type exist, and whenever only a variable does.
    fn generate_node_recursive(
        &mut self,
        current_depth: usize,
        max_depth: usize,
        required_type: TypeInfo,
        nt_grammar: &NonTerminalGrammar,
        variable_definitions: &VariableDefinitions,
        rng: &mut RandomSource,
        generation_method: GenerationMethod,
        parent_idx: usize,
        possibilities_table: &PossibilityTable,
        required: Vec<Variable>,
    ) -> (r: (usize, Vec<Variable>))
        requires
            current_depth < max_depth,
            forall|i: int| 0 <= i < required@.len() ==> is_declared(variable_definitions.variables@, #[trigger] required@[i]),
        ensures
            final(self).id == old(self).id,
            final(self).fitness == old(self).fitness,
            grown_subtree(old(self).tree@, final(self).tree@, r.0 as int, required_type, parent_idx,
                (max_depth - current_depth) as nat, nt_grammar@, variable_definitions.variables@),
            placed_or_remaining(required@, r.1@, final(self).tree@, r.0 as int, final(self).tree@.len() as int),
            !(current_depth < possibilities_table.layers().len()
                && possibilities_table.layers()[current_depth as int].contains(required_type))
                ==> final(self).tree@[r.0 as int].is_leaf_spec(),
            generation_method == GenerationMethod::Full ==> full_grown(final(self).tree@, r.0 as int,
                current_depth as nat, max_depth as nat, nt_grammar@, possibilities_table.layers()),
        decreases max_depth - current_depth, 1nat,
    {
        let current_idx = self.tree.len();
        let should_be_terminal = if !possibilities_table.can_produce_type_at_depth(current_depth, required_type) {
            true
        } else {
            match generation_method {
                GenerationMethod::Full => current_depth + 1 >= max_depth,
                GenerationMethod::Grow => {
                    if current_depth + 1 >= max_depth {
                        true
                    } else {
                        let can_be_nonterminal =
                            nt_grammar.get_all_possible_input_types_with_operations(required_type).len() > 0;
                        let can_be_terminal = has_variable_of_type(variable_definitions, required_type);
                        if can_be_nonterminal && can_be_terminal {
                            rng.below(10) < 3
                        } else {
                            can_be_terminal
                        }
                    }
                },
            }
        };
        if should_be_terminal {
            let r = self.create_leaf(required_type, variable_definitions, rng, current_idx, parent_idx, required);
            proof {
                lemma_leaf_segment(self.tree@, r.0 as int, (max_depth - current_depth) as nat, nt_grammar@,
                    variable_definitions.variables@);
            }
            r
        } else {
            self.create_nonterminal_node(
                current_depth,
                max_depth,
                required_type,
                nt_grammar,
                variable_definitions,
                rng,
                generation_method,
                current_idx,
                parent_idx,
                possibilities_table,
                required,
            )
        }
    }

    /// Appends an operator node producing `required_type`, chosen uniformly among
    /// the grammar's rules for it whose two operand types the table admits one
    /// level down, shares `required` out between its operands as
    /// `split_required` does, then grows them.  Falls back to a leaf when no
    /// rule qualifies.
    fn create_nonterminal_node(
        &mut self,
        current_depth: usize,
        max_depth: usize,
        required_type: TypeInfo,
        nt_grammar: &NonTerminalGrammar,
        variable_definitions: &VariableDefinitions,
        rng: &mut RandomSource,
        generation_method: GenerationMethod,
        current_idx: usize,
        parent_idx: usize,
        possibilities_table: &PossibilityTable,
        required: Vec<Variable>,
    ) -> (r: (usize, Vec<Variable>))
        requires
            current_idx == old(self).tree@.len(),
            current_depth + 1 < max_depth,
            forall|i: int| 0 <= i < required@.len() ==> is_declared(variable_definitions.variables@, #[trigger] required@[i]),
        ensures
            final(self).id == old(self).id,
            final(self).fitness == old(self).fitness,
            r.0 == current_idx,
            grown_subtree(old(self).tree@, final(self).tree@, r.0 as int, required_type, parent_idx,
                (max_depth - current_depth) as nat, nt_grammar@, variable_definitions.variables@),
            placed_or_remaining(required@, r.1@, final(self).tree@, r.0 as int, final(self).tree@.len() as int),
            has_admissible(nt_grammar@, possibilities_table.layers(), current_depth as int, required_type) ==> (
                final(self).tree@[r.0 as int]._type matches NodeType::NonTerminal(a, b, op, o)
                && o == required_type
                && admissible(nt_grammar@, possibilities_table.layers(), current_depth as int, required_type, (a, b, op))
                && final(self).tree@[r.0 as int].left_index == Some((r.0 + 1) as usize)),
            !has_admissible(nt_grammar@, possibilities_table.layers(), current_depth as int, required_type)
                ==> final(self).tree@[r.0 as int].is_leaf_spec(),
            generation_method == GenerationMethod::Full && current_depth < possibilities_table.layers().len()
                && possibilities_table.layers()[current_depth as int].contains(required_type) ==> full_grown(
                final(self).tree@, r.0 as int, current_depth as nat, max_depth as nat, nt_grammar@,
                possibilities_table.layers()),
        decreases max_depth - current_depth, 0nat,
    {
        let ghost rules = nt_grammar@;
        let ghost vars = variable_definitions.variables@;
        let ghost h = (max_depth - current_depth) as nat;
        let ghost layers = possibilities_table.layers();
        let all_possible_inputs = nt_grammar.get_all_possible_input_types_with_operations(required_type);
        let next_depth = current_depth + 1;
        let mut valid_inputs: Vec<Signature> = Vec::new();
        let mut k: usize = 0;
        while k < all_possible_inputs.len()
            invariant
                k <= all_possible_inputs@.len(),
                all_possible_inputs@ == inputs_for(rules, required_type),
                next_depth == current_depth + 1,
                layers == possibilities_table.layers(),
                forall|m: int| 0 <= m < valid_inputs@.len() ==> admissible(rules, layers, current_depth as int,
                    required_type, #[trigger] valid_inputs@[m]),
                forall|j: int| 0 <= j < k && admissible(rules, layers, current_depth as int, required_type,
                    #[trigger] all_possible_inputs@[j]) ==> valid_inputs@.contains(all_possible_inputs@[j]),
            decreases all_possible_inputs@.len() - k,
        {
            let ghost before = valid_inputs@;
            let (left_type, right_type, operation) = all_possible_inputs[k];
            assert(all_possible_inputs@[k as int] == (left_type, right_type, operation));
            if possibilities_table.can_produce_type_at_depth(next_depth, left_type)
                && possibilities_table.can_produce_type_at_depth(next_depth, right_type) {
                valid_inputs.push((left_type, right_type, operation));
                assert(valid_inputs@[valid_inputs@.len() - 1] == all_possible_inputs@[k as int]);
            }
            proof {
                assert forall|j: int| 0 <= j < k + 1 && admissible(rules, layers, current_depth as int, required_type,
                    #[trigger] all_possible_inputs@[j]) implies valid_inputs@.contains(all_possible_inputs@[j]) by {
                    if j < k {
                        let m = choose|m: int| 0 <= m < before.len() && before[m] == all_possible_inputs@[j];
                        assert(valid_inputs@[m] == all_possible_inputs@[j]);
                    } else {
                        assert(valid_inputs@[valid_inputs@.len() - 1] == all_possible_inputs@[k as int]);
                    }
                }
            }
            k += 1;
        }
        if valid_inputs.len() == 0 {
            proof {
                assert forall|sig: Signature| !(#[trigger] admissible(rules, layers, current_depth as int, required_type, sig)) by {
                    if admissible(rules, layers, current_depth as int, required_type, sig) {
                        let j = choose|j: int| 0 <= j < all_possible_inputs@.len() && all_possible_inputs@[j] == sig;
                        assert(admissible(rules, layers, current_depth as int, required_type, all_possible_inputs@[j]));
                    }
                }
            }
            let r = self.create_leaf(required_type, variable_definitions, rng, current_idx, parent_idx, required);
            proof {
                lemma_leaf_segment(self.tree@, r.0 as int, h, rules, vars);
            }
            return r;
        }
        let pick = rng.index_below(valid_inputs.len());
        let (left_type, right_type, operation) = valid_inputs[pick];
        proof {
            assert(admissible(rules, layers, current_depth as int, required_type, valid_inputs@[pick as int]));
            lemma_inputs_for_contains(rules, required_type, (left_type, right_type, operation));
            let j = choose|j: int| 0 <= j < rules.len() && (#[trigger] rules[j]).output == required_type
                && rules[j].signature() == (left_type, right_type, operation);
            assert(rule_matches(rules[j], left_type, right_type, operation, required_type));
        }
        let placeholder_value = Self::create_placeholder_value(required_type);
        let nonterminal_node = Node {
            idx: current_idx,
            _type: NodeType::NonTerminal(left_type, right_type, operation, required_type),
            value: placeholder_value,
            variable_id: None,
            left_index: None,
            right_index: None,
            parent_index: parent_idx,
        };
        self.tree.push(nonterminal_node);
        let ghost req = required@;
        let (left_required, right_required) = split_required(required, required_type, rng);
        proof {
            assert forall|i: int| 0 <= i < left_required@.len() implies is_declared(vars, #[trigger] left_required@[i]) by {
                let j = choose|j: int| 0 <= j < req.len() && req[j] == left_required@[i];
                assert(is_declared(vars, req[j]));
            }
            assert forall|i: int| 0 <= i < right_required@.len() implies is_declared(vars, #[trigger] right_required@[i]) by {
                let j = choose|j: int| 0 <= j < req.len() && req[j] == right_required@[i];
                assert(is_declared(vars, req[j]));
            }
        }
        let ghost lv = left_required@;
        let ghost rv = right_required@;
        let ghost t1 = self.tree@;
        let (left_idx, left_remaining) = self.generate_node_recursive(
            current_depth + 1,
            max_depth,
            left_type,
            nt_grammar,
            variable_definitions,
            rng,
            generation_method,
            current_idx,
            possibilities_table,
            left_required,
        );
        let ghost t2 = self.tree@;
        let (right_idx, right_remaining) = self.generate_node_recursive(
            current_depth + 1,
            max_depth,
            right_type,
            nt_grammar,
            variable_definitions,
            rng,
            generation_method,
            current_idx,
            possibilities_table,
            right_required,
        );
        let ghost t3 = self.tree@;
        self.tree[current_idx].left_index = Some(left_idx);
        self.tree[current_idx].right_index = Some(right_idx);
        proof {
            let t4 = self.tree@;
            let c = current_idx as int;
            let m = right_idx as int;
            let e = t4.len() as int;
            assert(t4.len() == t3.len());
            assert forall|i: int| 0 <= i < t3.len() && i != c implies t4[i] == t3[i] by {}
            lemma_segment_frame(t2, t3, c + 1, m, rules, vars);
            lemma_fits_height_frame(t2, t3, c + 1, m, c + 1, (h - 1) as nat);
            lemma_segment_frame(t3, t4, c + 1, m, rules, vars);
            lemma_fits_height_frame(t3, t4, c + 1, m, c + 1, (h - 1) as nat);
            lemma_segment_frame(t3, t4, m, e, rules, vars);
            lemma_fits_height_frame(t3, t4, m, e, m, (h - 1) as nat);
            assert(t4[c + 1] == t2[c + 1]);
            assert(t4[m] == t3[m]);
            assert(node_well_typed(t4, c, rules, vars));
            lemma_segment_join(t4, c, m, e, h, rules, vars);
            assert forall|i: int| 0 <= i < c implies t4[i] == old(self).tree@[i] by {
                assert(t1[i] == old(self).tree@[i]);
                assert(t2[i] == t1[i]);
                assert(t3[i] == t2[i]);
            }
            assert forall|k: int| c + 1 <= k < m implies t2[k] == t4[k] by {
                assert(t3[k] == t2[k]);
            }
            lemma_preorder_frame(t2, t4, c + 1, m);
            lemma_preorder_frame(t3, t4, m, e);
            if generation_method == GenerationMethod::Full {
                let d1 = (current_depth + 1) as nat;
                lemma_full_grown_frame(t2, t4, c + 1, m, c + 1, d1, max_depth as nat, rules, layers);
                lemma_full_grown_frame(t3, t4, m, e, m, d1, max_depth as nat, rules, layers);
            }
            assert(preorder(t4, c, e));
            lemma_placed_frame(lv, left_remaining@, t2, t4, c + 1, m);
            lemma_placed_frame(rv, right_remaining@, t3, t4, m, e);
            lemma_placed_join(req, lv, rv, left_remaining@, right_remaining@, t4, c, m, e);
        }
        let mut remaining = left_remaining;
        let mut right_rest = right_remaining;
        remaining.append(&mut right_rest);
        (current_idx, remaining)
    }

    /// Grows a whole tree whose root produces `required_output_type`.
    ///
    /// Generation always succeeds.  The result is a tree rooted at index 0 (every
    /// child index lies after its parent and inside the arena, every other node
    /// is the child of the parent it records), the root has the required type,
    /// every node is well typed against the grammar and the declarations, and no
    /// path has more than `max_depth` levels; with `max_depth == 1` it is a single
    /// leaf.  The arena holds the tree in preorder, and under `Full` every node
    /// above the last depth whose type the table holds there and has an
    /// admissible rule is an operator node of such a rule (`full_grown`).
    pub fn generate_random(
        id: usize,
        max_depth: usize,
        required_output_type: TypeInfo,
        nt_grammar: &NonTerminalGrammar,
        variable_definitions: &VariableDefinitions,
        generation_method: GenerationMethod,
        possibilities_table: &PossibilityTable,
        rng: &mut RandomSource,
    ) -> (r: Self)
        requires
            max_depth >= 1,
        ensures
            r.id == id,
            r.fitness == 0,
            is_tree(r.tree@),
            produced_type(r.tree@[0]._type) == required_output_type,
            forall|i: int| 0 <= i < r.tree@.len() ==> #[trigger] node_well_typed(r.tree@, i, nt_grammar@,
                variable_definitions.variables@),
            fits_height(r.tree@, 0, max_depth as nat),
            preorder(r.tree@, 0, r.tree@.len() as int),
            max_depth == 1 ==> r.tree@.len() == 1 && r.tree@[0]._type == NodeType::Terminal(required_output_type),
            generation_method == GenerationMethod::Full ==> full_grown(r.tree@, 0, 0, max_depth as nat, nt_grammar@,
                possibilities_table.layers()),
    {
        let (tree, _unplaced) = Self::generate_with_required_variables(
            id,
            max_depth,
            required_output_type,
            nt_grammar,
            variable_definitions,
            generation_method,
            possibilities_table,
            Vec::new(),
            rng,
        );
        tree
    }

    /// Grows a whole tree as `generate_random` does, while placing the
    /// variables of `required`: a leaf reads a required variable of its exact
    /// type when one is left, and an operator node shares the list out between
    /// its operands (those of its own type half to each side, the left taking
    /// the odd one; the others by a fair coin).  Returns the tree and the
    /// required variables it could not place, so that a caller can reject a
    /// tree that lacks one: each required variable is either read by some leaf
    /// or returned.
    pub fn generate_with_required_variables(
        id: usize,
        max_depth: usize,
        required_output_type: TypeInfo,
        nt_grammar: &NonTerminalGrammar,
        variable_definitions: &VariableDefinitions,
        generation_method: GenerationMethod,
        possibilities_table: &PossibilityTable,
        required: Vec<Variable>,
        rng: &mut RandomSource,
    ) -> (r: (Self, Vec<Variable>))
        requires
            max_depth >= 1,
            forall|i: int| 0 <= i < required@.len() ==> is_declared(variable_definitions.variables@, #[trigger] required@[i]),
        ensures
            r.0.id == id,
            r.0.fitness == 0,
            is_tree(r.0.tree@),
            produced_type(r.0.tree@[0]._type) == required_output_type,
            forall|i: int| 0 <= i < r.0.tree@.len() ==> #[trigger] node_well_typed(r.0.tree@, i, nt_grammar@,
                variable_definitions.variables@),
            fits_height(r.0.tree@, 0, max_depth as nat),
            preorder(r.0.tree@, 0, r.0.tree@.len() as int),
            max_depth == 1 ==> r.0.tree@.len() == 1 && r.0.tree@[0]._type == NodeType::Terminal(required_output_type),
            generation_method == GenerationMethod::Full ==> full_grown(r.0.tree@, 0, 0, max_depth as nat, nt_grammar@,
                possibilities_table.layers()),
            placed_or_remaining(required@, r.1@, r.0.tree@, 0, r.0.tree@.len() as int),
    {
        let mut tree = ParseTree::empty(id);
        let (_root_idx, unplaced) = tree.generate_node_recursive(
            0,
            max_depth,
            required_output_type,
            nt_grammar,
            variable_definitions,
            rng,
            generation_method,
            0,
            possibilities_table,
            required,
        );
        proof {
            let nodes = tree.tree@;
            let len = nodes.len() as int;
            assert forall|i: int| 0 <= i < len implies #[trigger] children_within(nodes, i, len) by {}
            assert forall|i: int| 0 <= i < len implies #[trigger] children_point_back(nodes, i) by {}
            assert forall|k: int| 0 < k < len implies #[trigger] has_parent_from(nodes, k, 0) by {}
            assert forall|i: int| 0 <= i < len implies #[trigger] node_well_typed(nodes, i, nt_grammar@,
                variable_definitions.variables@) by {}
            if max_depth == 1 {
                assert(node_well_typed(nodes, 0, nt_grammar@, variable_definitions.variables@));
            }
        }
        (tree, unplaced)
    }
}

/// What a freshly grown tree satisfies: a tree of nodes well typed against
/// `rules` and `vars`, rooted in a node of type `target`, of at most `max_depth` levels.
pub open spec fn generated_tree(t: ParseTree, rules: Seq<NonTerminalRule>, vars: Seq<Variable>, target: TypeInfo, max_depth: nat) -> bool {
    &&& t.fitness == 0
    &&& is_tree(t.tree@)
    &&& produced_type(t.tree@[0]._type) == target
    &&& forall|i: int| 0 <= i < t.tree@.len() ==> #[trigger] node_well_typed(t.tree@, i, rules, vars)
    &&& fits_height(t.tree@, 0, max_depth)
    &&& preorder(t.tree@, 0, t.tree@.len() as int)
}

/// Owns the grammar, the variable declarations, the dataset and the possibility
/// table (built on first use), and the population of trees.
pub struct TreeOrchestrator {
    nt_grammar: NonTerminalGrammar,
    variable_definitions: VariableDefinitions,
    dataset: Dataset,
    possibilities_table: PossibilityTable,
    required_output_type: TypeInfo,
    max_depth: usize,
    grow_method: GenerationMethod,
    pub trees: Vec<ParseTree>,
}

impl TreeOrchestrator {
    /// The population, in order.
    pub closed spec fn population(&self) -> Seq<ParseTree> {
        self.trees@
    }

    pub closed spec fn grammar_spec(&self) -> Seq<NonTerminalRule> {
        self.nt_grammar@
    }

    pub closed spec fn variables_spec(&self) -> Seq<Variable> {
        self.variable_definitions.variables@
    }

    pub closed spec fn dataset_spec(&self) -> &Dataset {
        &self.dataset
    }

    pub closed spec fn table_spec(&self) -> &PossibilityTable {
        &self.possibilities_table
    }

    pub closed spec fn target_spec(&self) -> TypeInfo {
        self.required_output_type
    }

    pub closed spec fn max_depth_spec(&self) -> nat {
        self.max_depth as nat
    }

    pub closed spec fn method_spec(&self) -> GenerationMethod {
        self.grow_method
    }

    /// The table is for this orchestrator's depth bound, and is either not yet
    /// built or built from its own grammar, declarations and target type; the
    /// dataset pairs each row with a target, and every row binds exactly the
    /// declared names.
    pub open spec fn wf(&self) -> bool {
        &&& self.table_spec().max_depth_spec() == self.max_depth_spec()
        &&& (self.table_spec().layers().len() == 0 || self.table_spec().built_from(
            self.grammar_spec(), self.variables_spec(), self.target_spec()))
        &&& self.dataset_spec().wf()
        &&& self.dataset_spec().rows_bind_exactly(self.variables_spec())
    }

    /// An orchestrator with no trees and no table yet; trees are grown by the
    /// `Full` method.  Every row must bind exactly the declared names:
    /// `Dataset::validate_rows` tells whether they do.
    pub fn new(
        nt_grammar: NonTerminalGrammar,
        variable_definitions: VariableDefinitions,
        dataset: Dataset,
        max_depth: usize,
        required_output_type: TypeInfo,
    ) -> (r: Self)
        requires
            dataset.wf(),
            dataset.rows_bind_exactly(variable_definitions.variables@),
        ensures
            r.wf(),
            r.grammar_spec() == nt_grammar@,
            r.variables_spec() == variable_definitions.variables@,
            *r.dataset_spec() == dataset,
            r.target_spec() == required_output_type,
            r.max_depth_spec() == max_depth,
            r.table_spec().layers().len() == 0,
            r.method_spec() == GenerationMethod::Full,
            r.population().len() == 0,
    {
        TreeOrchestrator {
            nt_grammar,
            variable_definitions,
            dataset,
            required_output_type,
            possibilities_table: PossibilityTable::empty(max_depth),
            max_depth,
            grow_method: GenerationMethod::Full,
            trees: Vec::new(),
        }
    }

    /// Appends `generation_size` empty trees, numbered from 0.
    pub fn generate_empty_trees(&mut self, generation_size: usize)
        ensures
            final(self).population().len() == old(self).population().len() + generation_size,
            forall|i: int| 0 <= i < old(self).population().len() ==> final(self).population()[i] == old(self).population()[i],
            forall|i: int| 0 <= i < generation_size ==> {
                &&& (#[trigger] final(self).population()[old(self).population().len() + i]).id == i
                &&& final(self).population()[old(self).population().len() + i].fitness == 0
                &&& final(self).population()[old(self).population().len() + i].tree@.len() == 0
            },
    {
        let ghost start = self.trees@.len();
        let mut i: usize = 0;
        while i < generation_size
            invariant
                i <= generation_size,
                self.trees@.len() == start + i,
                start == old(self).population().len(),
                forall|k: int| 0 <= k < start ==> self.trees@[k] == old(self).population()[k],
                forall|k: int| 0 <= k < i ==> {
                    &&& (#[trigger] self.trees@[start + k]).id == k
                    &&& self.trees@[start + k].fitness == 0
                    &&& self.trees@[start + k].tree@.len() == 0
                },
            decreases generation_size - i,
        {
            self.trees.push(ParseTree::empty(i));
            i += 1;
        }
    }

    /// Builds the possibility table from the grammar, declarations, target type
    /// and depth bound; with a depth bound of 0 it has no depths.
    pub fn construct_possibilities_table(&mut self)
        requires
            old(self).wf(),
        ensures
            final(self).wf(),
            final(self).population() == old(self).population(),
            final(self).grammar_spec() == old(self).grammar_spec(),
            final(self).variables_spec() == old(self).variables_spec(),
            final(self).dataset_spec() == old(self).dataset_spec(),
            final(self).target_spec() == old(self).target_spec(),
            final(self).max_depth_spec() == old(self).max_depth_spec(),
            old(self).max_depth_spec() >= 1 ==> final(self).table_spec().built_from(
                old(self).grammar_spec(), old(self).variables_spec(), old(self).target_spec()),
            old(self).max_depth_spec() == 0 ==> final(self).table_spec().layers().len() == 0,
            final(self).table_spec().max_depth_spec() == final(self).max_depth_spec(),
            final(self).method_spec() == old(self).method_spec(),
    {
        if self.max_depth >= 1 {
            self.possibilities_table = PossibilityTable::new(
                &self.nt_grammar,
                &self.variable_definitions,
                self.required_output_type,
                self.max_depth,
            );
        } else {
            self.possibilities_table = PossibilityTable::empty(0);
        }
    }

    /// Grows `generation_size` trees for the target type and appends them,
    /// numbered from 0, after building the table if it is not valid yet.
    /// Fails with `UnreachableType`, before growing any tree, when the table
    /// has an empty depth.
    pub fn generate_trees(&mut self, generation_size: usize, rng: &mut RandomSource) -> (r: Result<(), GpError>)
        requires
            old(self).wf(),
        ensures
            final(self).wf(),
            final(self).grammar_spec() == old(self).grammar_spec(),
            final(self).variables_spec() == old(self).variables_spec(),
            final(self).dataset_spec() == old(self).dataset_spec(),
            final(self).target_spec() == old(self).target_spec(),
            final(self).max_depth_spec() == old(self).max_depth_spec(),
            final(self).method_spec() == old(self).method_spec(),
            final(self).table_spec().max_depth_spec() == final(self).max_depth_spec(),
            old(self).table_spec().is_valid_spec() ==> final(self).table_spec() == old(self).table_spec(),
            !old(self).table_spec().is_valid_spec() && old(self).max_depth_spec() >= 1 ==> final(self).table_spec().built_from(
                old(self).grammar_spec(), old(self).variables_spec(), old(self).target_spec()),
            r is Ok <==> final(self).table_spec().is_valid_spec(),
            r matches Err(e) ==> e == GpError::UnreachableType && final(self).population() == old(self).population(),
            r is Ok ==> {
                &&& final(self).population().len() == old(self).population().len() + generation_size
                &&& forall|i: int| 0 <= i < old(self).population().len() ==> final(self).population()[i] == old(self).population()[i]
                &&& forall|i: int| 0 <= i < generation_size ==> {
                    &&& (#[trigger] final(self).population()[old(self).population().len() + i]).id == i
                    &&& generated_tree(final(self).population()[old(self).population().len() + i], old(self).grammar_spec(),
                        old(self).variables_spec(), old(self).target_spec(), old(self).max_depth_spec())
                    &&& (old(self).method_spec() == GenerationMethod::Full ==> full_grown(
                        final(self).population()[old(self).population().len() + i].tree@, 0, 0,
                        old(self).max_depth_spec(), old(self).grammar_spec(), final(self).table_spec().layers()))
                }
            },
    {
        if !self.possibilities_table.is_valid_for_generation() {
            self.construct_possibilities_table();
        }
        if !self.possibilities_table.is_valid_for_generation() {
            return Err(GpError::UnreachableType);
        }
        let ghost start = self.trees@.len();
        let ghost rules = self.nt_grammar@;
        let ghost vars = self.variable_definitions.variables@;
        let mut i: usize = 0;
        while i < generation_size
            invariant
                i <= generation_size,
                self.wf(),
                self.max_depth >= 1,
                self.possibilities_table.is_valid_spec(),
                rules == self.nt_grammar@,
                vars == self.variable_definitions.variables@,
                self.trees@.len() == start + i,
                start == old(self).population().len(),
                self.nt_grammar@ == old(self).grammar_spec(),
                self.variable_definitions.variables@ == old(self).variables_spec(),
                &self.dataset == old(self).dataset_spec(),
                self.required_output_type == old(self).target_spec(),
                self.max_depth == old(self).max_depth_spec(),
                self.grow_method == old(self).method_spec(),
                old(self).table_spec().is_valid_spec() ==> &self.possibilities_table == old(self).table_spec(),
                !old(self).table_spec().is_valid_spec() ==> self.possibilities_table.built_from(
                    old(self).grammar_spec(), old(self).variables_spec(), old(self).target_spec()),
                forall|k: int| 0 <= k < start ==> self.trees@[k] == old(self).population()[k],
                forall|k: int| 0 <= k < i ==> {
                    &&& (#[trigger] self.trees@[start + k]).id == k
                    &&& generated_tree(self.trees@[start + k], rules, vars, self.required_output_type, self.max_depth as nat)
                    &&& (self.grow_method == GenerationMethod::Full ==> full_grown(self.trees@[start + k].tree@, 0, 0,
                        self.max_depth as nat, rules, self.possibilities_table.layers()))
                },
            decreases generation_size - i,
        {
            let tree = ParseTree::generate_random(
                i,
                self.max_depth,
                self.required_output_type,
                &self.nt_grammar,
                &self.variable_definitions,
                self.grow_method,
                &self.possibilities_table,
                rng,
            );
            self.trees.push(tree);
            i += 1;
        }
        Ok(())
    }

    pub fn get_variable_definitions(&self) -> (r: &VariableDefinitions)
        ensures
            r.variables@ == self.variables_spec(),
    {
        &self.variable_definitions
    }

    pub fn get_dataset(&self) -> (r: &Dataset)
        ensures
            r == self.dataset_spec(),
    {
        &self.dataset
    }

    /// Row `row_index` of the dataset.
    pub fn create_variable_context_for_row(&self, row_index: usize) -> (r: Result<&DataRow, GpError>)
        ensures
            row_index >= self.dataset_spec().features@.len() ==> (r matches Err(e) && e == GpError::IndexOutOfBounds),
            row_index < self.dataset_spec().features@.len() ==> (r matches Ok(row)
                && *row == self.dataset_spec().features@[row_index as int]),
    {
        if row_index >= self.dataset.features.len() {
            return Err(GpError::IndexOutOfBounds);
        }
        Ok(&self.dataset.features[row_index])
    }

    /// The target of row `row_index`.
    pub fn get_expected_output(&self, row_index: usize) -> (r: Result<&i64, GpError>)
        ensures
            row_index >= self.dataset_spec().targets@.len() ==> (r matches Err(e) && e == GpError::IndexOutOfBounds),
            row_index < self.dataset_spec().targets@.len() ==> (r matches Ok(t)
                && *t == self.dataset_spec().targets@[row_index as int]),
    {
        if row_index >= self.dataset.targets.len() {
            return Err(GpError::IndexOutOfBounds);
        }
        Ok(&self.dataset.targets[row_index])
    }

    pub fn get_possibilities_table(&self) -> (r: &PossibilityTable)
        ensures
            r == self.table_spec(),
    {
        &self.possibilities_table
    }

    /// Evaluates every tree on the row of `data`, each independently of the
    /// others.  A tree whose child links are malformed is left as it is and
    /// reported as `IndexOutOfBounds`.
    pub fn evaluate_trees(&mut self, data: &EvalInput) -> (r: Vec<Result<(), GpError>>)
        ensures
            final(self).grammar_spec() == old(self).grammar_spec(),
            final(self).variables_spec() == old(self).variables_spec(),
            final(self).dataset_spec() == old(self).dataset_spec(),
            final(self).table_spec() == old(self).table_spec(),
            final(self).target_spec() == old(self).target_spec(),
            final(self).max_depth_spec() == old(self).max_depth_spec(),
            old(self).wf() ==> final(self).wf(),
            r@.len() == old(self).population().len(),
            final(self).population().len() == old(self).population().len(),
            forall|i: int| 0 <= i < r@.len() ==> {
                let before = old(self).population()[i];
                let after = final(self).population()[i];
                &&& after.id == before.id
                &&& after.fitness == before.fitness
                &&& (links_wf(before.tree@) ==> match #[trigger] r@[i] {
                    Ok(()) => evaluated(before.tree@, after.tree@, input_row(*data), old(self).grammar_spec()),
                    Err(e) => same_shape(before.tree@, after.tree@) && evaluation(before.tree@, input_row(*data),
                        old(self).grammar_spec()) == Err::<ValueView, GpError>(e),
                })
                &&& (!links_wf(before.tree@) ==> r@[i] == Err::<(), GpError>(GpError::IndexOutOfBounds) && after == before)
            },
    {
        let mut results: Vec<Result<(), GpError>> = Vec::new();
        let mut i: usize = 0;
        while i < self.trees.len()
            invariant
                i <= self.trees@.len(),
                self.trees@.len() == old(self).population().len(),
                results@.len() == i,
                self.nt_grammar@ == old(self).grammar_spec(),
                self.variable_definitions.variables@ == old(self).variables_spec(),
                &self.dataset == old(self).dataset_spec(),
                &self.possibilities_table == old(self).table_spec(),
                self.required_output_type == old(self).target_spec(),
                self.max_depth == old(self).max_depth_spec(),
                forall|k: int| i <= k < self.trees@.len() ==> self.trees@[k] == old(self).population()[k],
                forall|k: int| 0 <= k < i ==> {
                    let before = old(self).population()[k];
                    let after = self.trees@[k];
                    &&& after.id == before.id
                    &&& after.fitness == before.fitness
                    &&& (links_wf(before.tree@) ==> match #[trigger] results@[k] {
                        Ok(()) => evaluated(before.tree@, after.tree@, input_row(*data), old(self).grammar_spec()),
                        Err(e) => same_shape(before.tree@, after.tree@) && evaluation(before.tree@, input_row(*data),
                            old(self).grammar_spec()) == Err::<ValueView, GpError>(e),
                    })
                    &&& (!links_wf(before.tree@) ==> results@[k] == Err::<(), GpError>(GpError::IndexOutOfBounds) && after == before)
                },
            decreases self.trees@.len() - i,
        {
            if self.trees[i].has_valid_links() {
                let outcome = self.trees[i].evaluate(data, &self.nt_grammar);
                results.push(outcome);
            } else {
                results.push(Err(GpError::IndexOutOfBounds));
            }
            i += 1;
        }
        results
    }

    /// Computes every tree's summed loss over the dataset, each independently
    /// of the others, storing it in the tree; a tree whose computation fails
    /// keeps its previous fitness.  A tree whose child links are malformed is
    /// left as it is and reported as `IndexOutOfBounds`.
    pub fn evaluate_fitness(&mut self) -> (r: Vec<Result<u128, GpError>>)
        requires
            old(self).wf(),
        ensures
            final(self).wf(),
            final(self).grammar_spec() == old(self).grammar_spec(),
            final(self).variables_spec() == old(self).variables_spec(),
            final(self).dataset_spec() == old(self).dataset_spec(),
            final(self).table_spec() == old(self).table_spec(),
            final(self).target_spec() == old(self).target_spec(),
            final(self).max_depth_spec() == old(self).max_depth_spec(),
            r@.len() == old(self).population().len(),
            final(self).population().len() == old(self).population().len(),
            forall|i: int| 0 <= i < r@.len() ==> {
                let before = old(self).population()[i];
                let after = final(self).population()[i];
                let d = old(self).dataset_spec();
                &&& after.id == before.id
                &&& (links_wf(before.tree@) ==> {
                    &&& same_shape(before.tree@, after.tree@)
                    &&& match total_loss(before.tree@, d.features@, d.targets@, old(self).grammar_spec(), d.features@.len()) {
                        Ok(s) => #[trigger] r@[i] == Ok::<u128, GpError>(s as u128) && after.fitness == s,
                        Err(e) => r@[i] == Err::<u128, GpError>(e) && after.fitness == before.fitness,
                    }
                })
                &&& (!links_wf(before.tree@) ==> r@[i] == Err::<u128, GpError>(GpError::IndexOutOfBounds) && after == before)
            },
    {
        let mut results: Vec<Result<u128, GpError>> = Vec::new();
        let mut i: usize = 0;
        while i < self.trees.len()
            invariant
                i <= self.trees@.len(),
                self.trees@.len() == old(self).population().len(),
                results@.len() == i,
                old(self).wf(),
                self.nt_grammar@ == old(self).grammar_spec(),
                self.variable_definitions.variables@ == old(self).variables_spec(),
                &self.dataset == old(self).dataset_spec(),
                &self.possibilities_table == old(self).table_spec(),
                self.required_output_type == old(self).target_spec(),
                self.max_depth == old(self).max_depth_spec(),
                self.dataset.wf(),
                forall|k: int| i <= k < self.trees@.len() ==> self.trees@[k] == old(self).population()[k],
                forall|k: int| 0 <= k < i ==> {
                    let before = old(self).population()[k];
                    let after = self.trees@[k];
                    let d = old(self).dataset_spec();
                    &&& after.id == before.id
                    &&& (links_wf(before.tree@) ==> {
                        &&& same_shape(before.tree@, after.tree@)
                        &&& match total_loss(before.tree@, d.features@, d.targets@, old(self).grammar_spec(), d.features@.len()) {
                            Ok(s) => #[trigger] results@[k] == Ok::<u128, GpError>(s as u128) && after.fitness == s,
                            Err(e) => results@[k] == Err::<u128, GpError>(e) && after.fitness == before.fitness,
                        }
                    })
                    &&& (!links_wf(before.tree@) ==> results@[k] == Err::<u128, GpError>(GpError::IndexOutOfBounds) && after == before)
                },
            decreases self.trees@.len() - i,
        {
            if self.trees[i].has_valid_links() {
                match self.trees[i].evaluate_fitness(&self.dataset, &self.nt_grammar) {
                    Ok(()) => {
                        let f = self.trees[i].fitness;
                        results.push(Ok(f));
                    },
                    Err(e) => {
                        results.push(Err(e));
                    },
                }
            } else {
                results.push(Err(GpError::IndexOutOfBounds));
            }
            i += 1;
        }
        results
    }

    /// Chooses how later calls of `generate_trees` grow trees.
    pub fn set_generation_method(&mut self, method: GenerationMethod)
        ensures
            final(self).method_spec() == method,
            final(self).population() == old(self).population(),
            final(self).grammar_spec() == old(self).grammar_spec(),
            final(self).variables_spec() == old(self).variables_spec(),
            final(self).dataset_spec() == old(self).dataset_spec(),
            final(self).table_spec() == old(self).table_spec(),
            final(self).target_spec() == old(self).target_spec(),
            final(self).max_depth_spec() == old(self).max_depth_spec(),
            old(self).wf() ==> final(self).wf(),
    {
        self.grow_method = method;
    }
}

} // verus!
