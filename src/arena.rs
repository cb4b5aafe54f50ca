//! What makes an index arena a well-formed, well-typed expression tree.
//!
//! Children always come after their parent, so every property of a node speaks
//! only of nodes at or after its index; a subtree grown into a contiguous range
//! keeps its properties when nodes are appended behind it.

use vstd::prelude::*;
use crate::node::{produced_type, Node, NodeType};
use crate::nonterminal::{inputs_for, NonTerminalRule, Signature};
use crate::ops::Operation;
use crate::types::{TypeInfo, Variable};
use crate::value::{elements_within, has_shape};

verus! {

/// Node `i` has no children, or two that lie after it and below `hi`.
pub open spec fn children_within(nodes: Seq<Node>, i: int, hi: int) -> bool {
    match (nodes[i].left_index, nodes[i].right_index) {
        (None, None) => true,
        (Some(l), Some(r)) => i < l < hi && i < r < hi,
        _ => false,
    }
}

/// Every child index lies after its parent's and inside the arena.
pub open spec fn links_wf(nodes: Seq<Node>) -> bool {
    forall|i: int| 0 <= i < nodes.len() ==> #[trigger] children_within(nodes, i, nodes.len() as int)
}

/// The two children of node `i`, if any, are distinct and record `i` as their parent.
pub open spec fn children_point_back(nodes: Seq<Node>, i: int) -> bool {
    match (nodes[i].left_index, nodes[i].right_index) {
        (Some(l), Some(r)) => {
            &&& l != r
            &&& nodes[l as int].parent_index == i
            &&& nodes[r as int].parent_index == i
        },
        _ => true,
    }
}

/// Node `k`'s recorded parent lies in `[lo, k)` and lists `k` as a child.
pub open spec fn has_parent_from(nodes: Seq<Node>, k: int, lo: int) -> bool {
    let p = nodes[k].parent_index as int;
    &&& lo <= p < k
    &&& (nodes[p].left_index == Some(k as usize) || nodes[p].right_index == Some(k as usize))
}

/// A tree rooted at index 0: links are well formed and point back, and every
/// other node is the child of exactly the parent it records.
pub open spec fn is_tree(nodes: Seq<Node>) -> bool {
    &&& nodes.len() > 0
    &&& links_wf(nodes)
    &&& forall|i: int| 0 <= i < nodes.len() ==> #[trigger] children_point_back(nodes, i)
    &&& forall|k: int| 0 < k < nodes.len() ==> #[trigger] has_parent_from(nodes, k, 0)
}

/// `rule` has operand types `a` and `b`, operation `op` and output `o`.
pub open spec fn rule_matches(rule: NonTerminalRule, a: TypeInfo, b: TypeInfo, op: Operation, o: TypeInfo) -> bool {
    &&& rule.input_one_type == a
    &&& rule.input_two_type == b
    &&& rule.operation == op
    &&& rule.output == o
}

/// Some rule of `rules` has exactly this signature and output.
pub open spec fn has_rule(rules: Seq<NonTerminalRule>, a: TypeInfo, b: TypeInfo, op: Operation, o: TypeInfo) -> bool {
    exists|j: int| 0 <= j < rules.len() && #[trigger] rule_matches(rules[j], a, b, op, o)
}

/// Node `i` records its own index, holds a value of its type with elements in
/// `[-100, 100]`, and: as an operator node, has children of its operand types
/// and a rule of the grammar behind its signature; as a leaf, reads (if anything)
/// a declared variable of its type.
pub open spec fn node_well_typed(nodes: Seq<Node>, i: int, rules: Seq<NonTerminalRule>, vars: Seq<Variable>) -> bool {
    let n = nodes[i];
    &&& n.idx == i
    &&& has_shape(n.value@, produced_type(n._type).shape)
    &&& elements_within(n.value@, -100, 100)
    &&& match n._type {
        NodeType::NonTerminal(a, b, op, o) => match (n.left_index, n.right_index) {
            (Some(l), Some(r)) => {
                &&& produced_type(nodes[l as int]._type) == a
                &&& produced_type(nodes[r as int]._type) == b
                &&& has_rule(rules, a, b, op, o)
                &&& n.variable_id is None
            },
            _ => false,
        },
        NodeType::Terminal(t) => {
            &&& n.is_leaf_spec()
            &&& (n.variable_id matches Some(name) ==> exists|k: int|
                0 <= k < vars.len() && (#[trigger] vars[k]).name@ == name@ && vars[k]._type == t)
        },
    }
}

/// The subtree at `i` has at most `h` levels.
pub open spec fn fits_height(nodes: Seq<Node>, i: int, h: nat) -> bool
    decreases h,
{
    match (nodes[i].left_index, nodes[i].right_index) {
        (Some(l), Some(r)) => if h >= 2 {
            fits_height(nodes, l as int, (h - 1) as nat) && fits_height(nodes, r as int, (h - 1) as nat)
        } else {
            false
        },
        _ => h >= 1,
    }
}

/// `nodes[lo..hi)` is a well-typed subtree rooted at `lo`.
pub open spec fn subtree_segment(
    nodes: Seq<Node>,
    lo: int,
    hi: int,
    rules: Seq<NonTerminalRule>,
    vars: Seq<Variable>,
) -> bool {
    &&& 0 <= lo < hi <= nodes.len()
    &&& forall|i: int| lo <= i < hi ==> #[trigger] children_within(nodes, i, hi)
    &&& forall|i: int| lo <= i < hi ==> #[trigger] children_point_back(nodes, i)
    &&& forall|k: int| lo < k < hi ==> #[trigger] has_parent_from(nodes, k, lo)
    &&& forall|i: int| lo <= i < hi ==> #[trigger] node_well_typed(nodes, i, rules, vars)
}

/// Heights inside a closed segment depend on the segment's nodes alone.
pub proof fn lemma_fits_height_frame(a: Seq<Node>, b: Seq<Node>, lo: int, hi: int, i: int, h: nat)
    requires
        0 <= lo <= i < hi <= a.len(),
        hi <= b.len(),
        forall|k: int| lo <= k < hi ==> a[k] == b[k],
        forall|k: int| lo <= k < hi ==> #[trigger] children_within(a, k, hi),
    ensures
        fits_height(a, i, h) == fits_height(b, i, h),
    decreases h,
{
    assert(children_within(a, i, hi));
    assert(a[i] == b[i]);
    match (a[i].left_index, a[i].right_index) {
        (Some(l), Some(r)) => {
            if h >= 2 {
                lemma_fits_height_frame(a, b, lo, hi, l as int, (h - 1) as nat);
                lemma_fits_height_frame(a, b, lo, hi, r as int, (h - 1) as nat);
            }
        },
        _ => {},
    }
}

/// A segment stays a segment in any arena that agrees with it there.
pub proof fn lemma_segment_frame(
    a: Seq<Node>,
    b: Seq<Node>,
    lo: int,
    hi: int,
    rules: Seq<NonTerminalRule>,
    vars: Seq<Variable>,
)
    requires
        subtree_segment(a, lo, hi, rules, vars),
        hi <= b.len(),
        forall|k: int| lo <= k < hi ==> a[k] == b[k],
    ensures
        subtree_segment(b, lo, hi, rules, vars),
{
    assert forall|i: int| lo <= i < hi implies #[trigger] children_within(b, i, hi) by {
        assert(children_within(a, i, hi));
        assert(a[i] == b[i]);
    }
    assert forall|i: int| lo <= i < hi implies #[trigger] children_point_back(b, i) by {
        assert(children_within(a, i, hi));
        assert(children_point_back(a, i));
        assert(a[i] == b[i]);
        match (a[i].left_index, a[i].right_index) {
            (Some(l), Some(r)) => {
                assert(a[l as int] == b[l as int]);
                assert(a[r as int] == b[r as int]);
            },
            _ => {},
        }
    }
    assert forall|k: int| lo < k < hi implies #[trigger] has_parent_from(b, k, lo) by {
        assert(has_parent_from(a, k, lo));
        assert(a[k] == b[k]);
        let p = a[k].parent_index as int;
        assert(a[p] == b[p]);
    }
    assert forall|i: int| lo <= i < hi implies #[trigger] node_well_typed(b, i, rules, vars) by {
        assert(children_within(a, i, hi));
        assert(node_well_typed(a, i, rules, vars));
        assert(a[i] == b[i]);
        match (a[i].left_index, a[i].right_index) {
            (Some(l), Some(r)) => {
                assert(a[l as int] == b[l as int]);
                assert(a[r as int] == b[r as int]);
            },
            _ => {},
        }
    }
}

/// An operator node at `c` over a left subtree `[c + 1, m)` and a right subtree
/// `[m, e)` forms the subtree `[c, e)`, one level higher than its children.
pub proof fn lemma_segment_join(
    nodes: Seq<Node>,
    c: int,
    m: int,
    e: int,
    h: nat,
    rules: Seq<NonTerminalRule>,
    vars: Seq<Variable>,
)
    requires
        subtree_segment(nodes, c + 1, m, rules, vars),
        subtree_segment(nodes, m, e, rules, vars),
        0 <= c,
        nodes[c].left_index matches Some(l) && l == c + 1,
        nodes[c].right_index matches Some(r) && r == m,
        nodes[c + 1].parent_index == c,
        nodes[m].parent_index == c,
        node_well_typed(nodes, c, rules, vars),
        h >= 2,
        fits_height(nodes, c + 1, (h - 1) as nat),
        fits_height(nodes, m, (h - 1) as nat),
    ensures
        subtree_segment(nodes, c, e, rules, vars),
        fits_height(nodes, c, h),
{
    assert forall|i: int| c <= i < e implies #[trigger] children_within(nodes, i, e) by {
        if c + 1 <= i < m {
            assert(children_within(nodes, i, m));
        } else if m <= i < e {
            assert(children_within(nodes, i, e));
        }
    }
    assert forall|i: int| c <= i < e implies #[trigger] children_point_back(nodes, i) by {
        if c + 1 <= i < m {
            assert(children_point_back(nodes, i));
        } else if m <= i < e {
            assert(children_point_back(nodes, i));
        }
    }
    assert forall|k: int| c < k < e implies #[trigger] has_parent_from(nodes, k, c) by {
        if c + 1 < k < m {
            assert(has_parent_from(nodes, k, c + 1));
        } else if m < k < e {
            assert(has_parent_from(nodes, k, m));
        }
    }
    assert forall|i: int| c <= i < e implies #[trigger] node_well_typed(nodes, i, rules, vars) by {
        if c + 1 <= i < m {
            assert(node_well_typed(nodes, i, rules, vars));
        } else if m <= i < e {
            assert(node_well_typed(nodes, i, rules, vars));
        }
    }
}

/// A single well-typed leaf is a subtree of one level.
pub proof fn lemma_leaf_segment(nodes: Seq<Node>, c: int, h: nat, rules: Seq<NonTerminalRule>, vars: Seq<Variable>)
    requires
        0 <= c < nodes.len(),
        nodes[c].is_leaf_spec(),
        node_well_typed(nodes, c, rules, vars),
        h >= 1,
    ensures
        subtree_segment(nodes, c, c + 1, rules, vars),
        fits_height(nodes, c, h),
{
    assert(children_within(nodes, c, c + 1));
    assert(children_point_back(nodes, c));
}

/// `sig` is the signature of a rule for `t` whose two operand types the table
/// `layers` holds one level below depth `d`.
pub open spec fn admissible(rules: Seq<NonTerminalRule>, layers: Seq<Set<TypeInfo>>, d: int, t: TypeInfo, sig: Signature) -> bool {
    &&& inputs_for(rules, t).contains(sig)
    &&& 0 <= d + 1 < layers.len()
    &&& layers[d + 1].contains(sig.0)
    &&& layers[d + 1].contains(sig.1)
}

/// Some rule for `t` is admissible at depth `d`.
pub open spec fn has_admissible(rules: Seq<NonTerminalRule>, layers: Seq<Set<TypeInfo>>, d: int, t: TypeInfo) -> bool {
    exists|sig: Signature| #[trigger] admissible(rules, layers, d, t, sig)
}

/// The subtree at `i`, standing at depth `d`, is grown as the `Full` method
/// grows it: a node is an operator node, of an admissible signature, exactly
/// when it stands above the last depth, its type is in the table at its depth
/// and some rule for it is admissible; otherwise it is a leaf.
pub open spec fn full_grown(
    nodes: Seq<Node>,
    i: int,
    d: nat,
    max_depth: nat,
    rules: Seq<NonTerminalRule>,
    layers: Seq<Set<TypeInfo>>,
) -> bool
    decreases max_depth - d,
{
    let n = nodes[i];
    let t = produced_type(n._type);
    if d + 1 < max_depth && d < layers.len() && layers[d as int].contains(t) && has_admissible(rules, layers, d as int, t) {
        match (n._type, n.left_index, n.right_index) {
            (NodeType::NonTerminal(a, b, op, _), Some(l), Some(r)) => {
                &&& admissible(rules, layers, d as int, t, (a, b, op))
                &&& full_grown(nodes, l as int, d + 1, max_depth, rules, layers)
                &&& full_grown(nodes, r as int, d + 1, max_depth, rules, layers)
            },
            _ => false,
        }
    } else {
        n.is_leaf_spec()
    }
}

/// `nodes[i..hi)` holds the subtree at `i` in preorder: the node, its left
/// subtree right after it, then its right subtree, ending at `hi`.
pub open spec fn preorder(nodes: Seq<Node>, i: int, hi: int) -> bool
    decreases hi - i,
{
    if i >= hi {
        false
    } else {
        match (nodes[i].left_index, nodes[i].right_index) {
            (None, None) => hi == i + 1,
            (Some(l), Some(r)) => {
                &&& l == i + 1
                &&& i + 1 < r < hi
                &&& preorder(nodes, i + 1, r as int)
                &&& preorder(nodes, r as int, hi)
            },
            _ => false,
        }
    }
}

/// Full growth inside a closed segment depends on the segment's nodes alone.
pub proof fn lemma_full_grown_frame(
    a: Seq<Node>,
    b: Seq<Node>,
    lo: int,
    hi: int,
    i: int,
    d: nat,
    max_depth: nat,
    rules: Seq<NonTerminalRule>,
    layers: Seq<Set<TypeInfo>>,
)
    requires
        0 <= lo <= i < hi <= a.len(),
        hi <= b.len(),
        forall|k: int| lo <= k < hi ==> a[k] == b[k],
        forall|k: int| lo <= k < hi ==> #[trigger] children_within(a, k, hi),
        full_grown(a, i, d, max_depth, rules, layers),
    ensures
        full_grown(b, i, d, max_depth, rules, layers),
    decreases max_depth - d,
{
    assert(children_within(a, i, hi));
    assert(a[i] == b[i]);
    let t = produced_type(a[i]._type);
    if d + 1 < max_depth && d < layers.len() && layers[d as int].contains(t) && has_admissible(rules, layers, d as int, t) {
        match (a[i]._type, a[i].left_index, a[i].right_index) {
            (NodeType::NonTerminal(_, _, _, _), Some(l), Some(r)) => {
                lemma_full_grown_frame(a, b, lo, hi, l as int, d + 1, max_depth, rules, layers);
                lemma_full_grown_frame(a, b, lo, hi, r as int, d + 1, max_depth, rules, layers);
            },
            _ => {},
        }
    }
}

/// A preorder layout depends on the nodes it spans alone.
pub proof fn lemma_preorder_frame(a: Seq<Node>, b: Seq<Node>, i: int, hi: int)
    requires
        preorder(a, i, hi),
        0 <= i,
        hi <= a.len(),
        hi <= b.len(),
        forall|k: int| i <= k < hi ==> a[k] == b[k],
    ensures
        preorder(b, i, hi),
    decreases hi - i,
{
    assert(a[i] == b[i]);
    match (a[i].left_index, a[i].right_index) {
        (Some(l), Some(r)) => {
            lemma_preorder_frame(a, b, i + 1, r as int);
            lemma_preorder_frame(a, b, r as int, hi);
        },
        _ => {},
    }
}

} // verus!
