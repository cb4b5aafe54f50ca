//! Runtime values: a closed union over scalars, vectors and matrices.
//!
//! Elements are 64-bit integers whatever the data type of the value's sort, so
//! every combination and every loss is exact.

use vstd::prelude::*;
use crate::types::Shape;

verus! {

/// A value held by a tree node, a dataset row or a variable binding.
#[derive(Clone, Debug, PartialEq, Eq)]
pub enum Value {
    Scalar(i64),
    Vector(Vec<i64>),
    /// Row-major: one inner vector per row.
    Matrix(Vec<Vec<i64>>),
}

/// The mathematical content of a [`Value`].
pub enum ValueView {
    Scalar(i64),
    Vector(Seq<i64>),
    Matrix(Seq<Seq<i64>>),
}

impl View for Value {
    type V = ValueView;

    open spec fn view(&self) -> ValueView {
        match self {
            Value::Scalar(x) => ValueView::Scalar(*x),
            Value::Vector(xs) => ValueView::Vector(xs@),
            Value::Matrix(rows) => ValueView::Matrix(rows@.map_values(|r: Vec<i64>| r@)),
        }
    }
}

/// `v` has the layout that `shape` prescribes, dimensions included.
pub open spec fn has_shape(v: ValueView, shape: Shape) -> bool {
    match (v, shape) {
        (ValueView::Scalar(_), Shape::Scalar) => true,
        (ValueView::Vector(xs), Shape::Vector(n)) => xs.len() == n,
        (ValueView::Matrix(rows), Shape::Matrix(r, c)) => {
            &&& rows.len() == r
            &&& forall|i: int| 0 <= i < rows.len() ==> (#[trigger] rows[i]).len() == c
        },
        _ => false,
    }
}

/// Every element of `v` lies in `[lo, hi]`.
pub open spec fn elements_within(v: ValueView, lo: int, hi: int) -> bool {
    match v {
        ValueView::Scalar(x) => lo <= x <= hi,
        ValueView::Vector(xs) => forall|i: int| 0 <= i < xs.len() ==> lo <= #[trigger] xs[i] <= hi,
        ValueView::Matrix(rows) => forall|i: int, j: int|
            0 <= i < rows.len() && 0 <= j < rows[i].len() ==> lo <= #[trigger] rows[i][j] <= hi,
    }
}

/// A copy of `xs` element by element.
pub fn copy_elements(xs: &Vec<i64>) -> (r: Vec<i64>)
    ensures
        r@ == xs@,
{
    let mut out: Vec<i64> = Vec::new();
    let mut i: usize = 0;
    while i < xs.len()
        invariant
            i <= xs.len(),
            out@ == xs@.subrange(0, i as int),
        decreases xs.len() - i,
    {
        out.push(xs[i]);
        i += 1;
    }
    assert(out@ =~= xs@);
    out
}

impl Value {
    /// A copy of this value with the same content.
    pub fn duplicate(&self) -> (r: Value)
        ensures
            r@ == self@,
    {
        match self {
            Value::Scalar(x) => Value::Scalar(*x),
            Value::Vector(xs) => Value::Vector(copy_elements(xs)),
            Value::Matrix(rows) => {
                let mut out: Vec<Vec<i64>> = Vec::new();
                let mut i: usize = 0;
                while i < rows.len()
                    invariant
                        i <= rows.len(),
                        out@.len() == i,
                        forall|k: int| 0 <= k < i ==> (#[trigger] out@[k])@ == rows@[k]@,
                    decreases rows.len() - i,
                {
                    out.push(copy_elements(&rows[i]));
                    i += 1;
                }
                assert(out@.map_values(|r: Vec<i64>| r@) =~= rows@.map_values(|r: Vec<i64>| r@));
                Value::Matrix(out)
            },
        }
    }
}

} // verus!
