//! Arena nodes and the shape rules for combining two operand types.

use vstd::prelude::*;
use crate::ops::Operation;
use crate::types::{Shape, TypeInfo};
use crate::value::Value;

verus! {

/// What a node is: an operator application with its signature, or a leaf of a type.
#[derive(Clone, Copy, Debug, PartialEq, Eq, Structural)]
pub enum NodeType {
    /// Operand types, operation and output type.
    NonTerminal(TypeInfo, TypeInfo, Operation, TypeInfo),
    Terminal(TypeInfo),
}

/// The type of value that a node of kind `t` produces.
pub open spec fn produced_type(t: NodeType) -> TypeInfo {
    match t {
        NodeType::NonTerminal(_, _, _, o) => o,
        NodeType::Terminal(o) => o,
    }
}

/// The output type that two operands can give under `op`, by shape: scalars and
/// equal-length vectors combine elementwise, a scalar broadcasts over a vector,
/// equal-size matrices add or subtract, and an `m x n` and an `n x p` matrix
/// multiply to `m x p`.  Both operands must have the same data type.
pub open spec fn compatible_output(input1: TypeInfo, input2: TypeInfo, op: Operation) -> Option<TypeInfo> {
    let dt = input1.data_type;
    if input1.data_type != input2.data_type {
        None
    } else {
        match (input1.shape, input2.shape) {
            (Shape::Scalar, Shape::Scalar) => Some(TypeInfo { data_type: dt, shape: Shape::Scalar }),
            (Shape::Vector(n1), Shape::Vector(n2)) => if n1 == n2 {
                Some(TypeInfo { data_type: dt, shape: Shape::Vector(n1) })
            } else {
                None
            },
            (Shape::Vector(n), Shape::Scalar) => Some(TypeInfo { data_type: dt, shape: Shape::Vector(n) }),
            (Shape::Scalar, Shape::Vector(n)) => Some(TypeInfo { data_type: dt, shape: Shape::Vector(n) }),
            (Shape::Matrix(r1, c1), Shape::Matrix(r2, c2)) => {
                if (op == Operation::Add || op == Operation::Subtract) && r1 == r2 && c1 == c2 {
                    Some(TypeInfo { data_type: dt, shape: Shape::Matrix(r1, c1) })
                } else if op == Operation::Multiply && c1 == r2 {
                    Some(TypeInfo { data_type: dt, shape: Shape::Matrix(r1, c2) })
                } else {
                    None
                }
            },
            _ => None,
        }
    }
}

/// The possible output types of `op` on operands of `input1` and `input2`: none or one.
pub fn compatible_outputs(input1: TypeInfo, input2: TypeInfo, op: Operation) -> (r: Vec<TypeInfo>)
    ensures
        r@ == match compatible_output(input1, input2, op) {
            Some(t) => seq![t],
            None => Seq::<TypeInfo>::empty(),
        },
{
    let mut out: Vec<TypeInfo> = Vec::new();
    if input1.data_type != input2.data_type {
        return out;
    }
    let dt = input1.data_type;
    match (input1.shape, input2.shape) {
        (Shape::Scalar, Shape::Scalar) => {
            out.push(TypeInfo { data_type: dt, shape: Shape::Scalar });
        },
        (Shape::Vector(n1), Shape::Vector(n2)) => {
            if n1 == n2 {
                out.push(TypeInfo { data_type: dt, shape: Shape::Vector(n1) });
            }
        },
        (Shape::Vector(n), Shape::Scalar) => {
            out.push(TypeInfo { data_type: dt, shape: Shape::Vector(n) });
        },
        (Shape::Scalar, Shape::Vector(n)) => {
            out.push(TypeInfo { data_type: dt, shape: Shape::Vector(n) });
        },
        (Shape::Matrix(r1, c1), Shape::Matrix(r2, c2)) => {
            if (op == Operation::Add || op == Operation::Subtract) && r1 == r2 && c1 == c2 {
                out.push(TypeInfo { data_type: dt, shape: Shape::Matrix(r1, c1) });
            } else if op == Operation::Multiply && c1 == r2 {
                out.push(TypeInfo { data_type: dt, shape: Shape::Matrix(r1, c2) });
            }
        },
        _ => {},
    }
    assert(out@ =~= match compatible_output(input1, input2, op) {
        Some(t) => seq![t],
        None => Seq::<TypeInfo>::empty(),
    });
    out
}

/// One arena element.  A node is a leaf when it has neither child index;
/// otherwise it has both.
#[derive(Clone, Debug)]
pub struct Node {
    pub idx: usize,
    pub _type: NodeType,
    /// The constant of a constant leaf; otherwise the last computed or fetched value.
    pub value: Value,
    /// The variable a leaf reads its value from, if any.
    pub variable_id: Option<String>,
    pub left_index: Option<usize>,
    pub right_index: Option<usize>,
    pub parent_index: usize,
}

impl Node {
    pub open spec fn is_leaf_spec(&self) -> bool {
        self.left_index is None && self.right_index is None
    }

    /// Whether the node has no children.
    pub fn is_leaf_node(&self) -> (r: bool)
        ensures
            r == self.is_leaf_spec(),
    {
        self.left_index.is_none() && self.right_index.is_none()
    }

    /// An operator node with both child indices set.
    pub fn new_non_terminal(
        idx: usize,
        variable_id: Option<String>,
        operation: Operation,
        value: Value,
        left_type: TypeInfo,
        right_type: TypeInfo,
        output_type: TypeInfo,
        left_index: usize,
        right_index: usize,
        parent_index: usize,
    ) -> (r: Self)
        ensures
            r.idx == idx,
            r.variable_id == variable_id,
            r._type == NodeType::NonTerminal(left_type, right_type, operation, output_type),
            r.value == value,
            r.left_index == Some(left_index),
            r.right_index == Some(right_index),
            r.parent_index == parent_index,
    {
        Node {
            idx,
            variable_id,
            _type: NodeType::NonTerminal(left_type, right_type, operation, output_type),
            value,
            left_index: Some(left_index),
            right_index: Some(right_index),
            parent_index,
        }
    }
}

} // verus!
