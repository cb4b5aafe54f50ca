//! Operation labels and the combinators that compute a rule's result.

use vstd::prelude::*;
use crate::value::{Value, ValueView};

verus! {

/// Label of a grammar operation, recorded in rules and tree nodes.
#[derive(Copy, Clone, Debug, PartialEq, Eq, Hash, Structural)]
pub enum Operation {
    Add,
    Subtract,
    Multiply,
    Divide,
}

/// What a rule computes from its two operands, element by element.  The set is
/// closed: a host picks one of these and cannot register a combinator of its own.  A scalar
/// operand is broadcast over a vector or matrix operand.  Arithmetic is checked:
/// an overflow or a division by zero makes the combination fail.
#[derive(Copy, Clone, Debug, PartialEq, Eq, Hash, Structural)]
pub enum Combinator {
    /// `a + b`
    Add,
    /// `a - b`
    Subtract,
    /// `a * b`
    Multiply,
    /// `a / b`, rounding toward zero
    Divide,
    /// `b - a`
    ReverseSubtract,
    /// `b / a`, rounding toward zero
    ReverseDivide,
}

impl Combinator {
    /// The result on two elements, `None` on overflow or division by zero.
    pub open spec fn apply_spec(self, a: i64, b: i64) -> Option<i64> {
        match self {
            Combinator::Add => a.checked_add(b),
            Combinator::Subtract => a.checked_sub(b),
            Combinator::Multiply => a.checked_mul(b),
            Combinator::Divide => a.checked_div(b),
            Combinator::ReverseSubtract => b.checked_sub(a),
            Combinator::ReverseDivide => b.checked_div(a),
        }
    }

    /// The combinator that computes the same results from the operands in the other order.
    pub open spec fn swapped_spec(self) -> Combinator {
        match self {
            Combinator::Add => Combinator::Add,
            Combinator::Subtract => Combinator::ReverseSubtract,
            Combinator::Multiply => Combinator::Multiply,
            Combinator::Divide => Combinator::ReverseDivide,
            Combinator::ReverseSubtract => Combinator::Subtract,
            Combinator::ReverseDivide => Combinator::Divide,
        }
    }

    pub fn apply(self, a: i64, b: i64) -> (r: Option<i64>)
        ensures
            r == self.apply_spec(a, b),
    {
        match self {
            Combinator::Add => a.checked_add(b),
            Combinator::Subtract => a.checked_sub(b),
            Combinator::Multiply => a.checked_mul(b),
            Combinator::Divide => a.checked_div(b),
            Combinator::ReverseSubtract => b.checked_sub(a),
            Combinator::ReverseDivide => b.checked_div(a),
        }
    }

    pub fn swapped(self) -> (r: Combinator)
        ensures
            r == self.swapped_spec(),
    {
        match self {
            Combinator::Add => Combinator::Add,
            Combinator::Subtract => Combinator::ReverseSubtract,
            Combinator::Multiply => Combinator::Multiply,
            Combinator::Divide => Combinator::ReverseDivide,
            Combinator::ReverseSubtract => Combinator::Subtract,
            Combinator::ReverseDivide => Combinator::Divide,
        }
    }
}

/// Element-by-element combination of two sequences of equal length; `None` if
/// the lengths differ or any element pair fails.
pub open spec fn zip_elements(c: Combinator, xs: Seq<i64>, ys: Seq<i64>) -> Option<Seq<i64>> {
    if xs.len() == ys.len() && forall|i: int|
        0 <= i < xs.len() ==> (#[trigger] c.apply_spec(xs[i], ys[i])) is Some {
        Some(Seq::new(xs.len(), |i: int| c.apply_spec(xs[i], ys[i])->0))
    } else {
        None
    }
}

/// Row-by-row combination of two matrices with the same number of rows.
pub open spec fn zip_rows(c: Combinator, xm: Seq<Seq<i64>>, ym: Seq<Seq<i64>>) -> Option<Seq<Seq<i64>>> {
    if xm.len() == ym.len() && forall|i: int|
        0 <= i < xm.len() ==> (#[trigger] zip_elements(c, xm[i], ym[i])) is Some {
        Some(Seq::new(xm.len(), |i: int| zip_elements(c, xm[i], ym[i])->0))
    } else {
        None
    }
}

/// `n` copies of `s`.
pub open spec fn broadcast(s: i64, n: nat) -> Seq<i64> {
    Seq::new(n, |_i: int| s)
}

/// A matrix laid out like `m` whose every element is `s`.
pub open spec fn broadcast_rows(s: i64, m: Seq<Seq<i64>>) -> Seq<Seq<i64>> {
    Seq::new(m.len(), |i: int| broadcast(s, m[i].len()))
}

/// What combinator `c` makes of operands `a` and `b`, or `None` if it cannot combine them.
pub open spec fn combine(c: Combinator, a: ValueView, b: ValueView) -> Option<ValueView> {
    match (a, b) {
        (ValueView::Scalar(x), ValueView::Scalar(y)) => match c.apply_spec(x, y) {
            Some(z) => Some(ValueView::Scalar(z)),
            None => None,
        },
        (ValueView::Vector(xs), ValueView::Vector(ys)) => match zip_elements(c, xs, ys) {
            Some(z) => Some(ValueView::Vector(z)),
            None => None,
        },
        (ValueView::Vector(xs), ValueView::Scalar(y)) => match zip_elements(c, xs, broadcast(y, xs.len())) {
            Some(z) => Some(ValueView::Vector(z)),
            None => None,
        },
        (ValueView::Scalar(x), ValueView::Vector(ys)) => match zip_elements(c, broadcast(x, ys.len()), ys) {
            Some(z) => Some(ValueView::Vector(z)),
            None => None,
        },
        (ValueView::Matrix(xm), ValueView::Matrix(ym)) => match zip_rows(c, xm, ym) {
            Some(z) => Some(ValueView::Matrix(z)),
            None => None,
        },
        (ValueView::Matrix(xm), ValueView::Scalar(y)) => match zip_rows(c, xm, broadcast_rows(y, xm)) {
            Some(z) => Some(ValueView::Matrix(z)),
            None => None,
        },
        (ValueView::Scalar(x), ValueView::Matrix(ym)) => match zip_rows(c, broadcast_rows(x, ym), ym) {
            Some(z) => Some(ValueView::Matrix(z)),
            None => None,
        },
        _ => None,
    }
}

fn filled(s: i64, n: usize) -> (r: Vec<i64>)
    ensures
        r@ == broadcast(s, n as nat),
{
    let mut out: Vec<i64> = Vec::new();
    let mut i: usize = 0;
    while i < n
        invariant
            i <= n,
            out@ == broadcast(s, i as nat),
        decreases n - i,
    {
        out.push(s);
        i += 1;
        assert(out@ =~= broadcast(s, i as nat));
    }
    out
}

fn filled_rows(s: i64, m: &Vec<Vec<i64>>) -> (r: Vec<Vec<i64>>)
    ensures
        r@.map_values(|v: Vec<i64>| v@) == broadcast_rows(s, m@.map_values(|v: Vec<i64>| v@)),
{
    let mut out: Vec<Vec<i64>> = Vec::new();
    let mut i: usize = 0;
    while i < m.len()
        invariant
            i <= m.len(),
            out@.len() == i,
            forall|k: int| 0 <= k < i ==> (#[trigger] out@[k])@ == broadcast(s, m@[k]@.len()),
        decreases m.len() - i,
    {
        out.push(filled(s, m[i].len()));
        i += 1;
    }
    assert(out@.map_values(|v: Vec<i64>| v@) =~= broadcast_rows(s, m@.map_values(|v: Vec<i64>| v@)));
    out
}

fn zip_vec(c: Combinator, xs: &Vec<i64>, ys: &Vec<i64>) -> (r: Option<Vec<i64>>)
    ensures
        match r {
            Some(z) => zip_elements(c, xs@, ys@) == Some(z@),
            None => zip_elements(c, xs@, ys@) is None,
        },
{
    if xs.len() != ys.len() {
        return None;
    }
    let mut out: Vec<i64> = Vec::new();
    let mut i: usize = 0;
    while i < xs.len()
        invariant
            i <= xs.len(),
            xs.len() == ys.len(),
            out@.len() == i,
            forall|k: int| 0 <= k < i ==> c.apply_spec(xs@[k], ys@[k]) == Some(#[trigger] out@[k]),
        decreases xs.len() - i,
    {
        match c.apply(xs[i], ys[i]) {
            Some(z) => {
                out.push(z);
            },
            None => {
                assert(c.apply_spec(xs@[i as int], ys@[i as int]) is None);
                return None;
            },
        }
        i += 1;
    }
    assert forall|k: int| 0 <= k < xs@.len() implies (#[trigger] c.apply_spec(xs@[k], ys@[k])) is Some by {
        assert(c.apply_spec(xs@[k], ys@[k]) == Some(out@[k]));
    }
    assert(out@ =~= Seq::new(xs@.len(), |k: int| c.apply_spec(xs@[k], ys@[k])->0));
    Some(out)
}

fn zip_mat(c: Combinator, xm: &Vec<Vec<i64>>, ym: &Vec<Vec<i64>>) -> (r: Option<Vec<Vec<i64>>>)
    ensures
        match r {
            Some(z) => zip_rows(c, xm@.map_values(|v: Vec<i64>| v@), ym@.map_values(|v: Vec<i64>| v@))
                == Some(z@.map_values(|v: Vec<i64>| v@)),
            None => zip_rows(c, xm@.map_values(|v: Vec<i64>| v@), ym@.map_values(|v: Vec<i64>| v@)) is None,
        },
{
    let ghost xv = xm@.map_values(|v: Vec<i64>| v@);
    let ghost yv = ym@.map_values(|v: Vec<i64>| v@);
    if xm.len() != ym.len() {
        return None;
    }
    let mut out: Vec<Vec<i64>> = Vec::new();
    let mut i: usize = 0;
    while i < xm.len()
        invariant
            i <= xm.len(),
            xm.len() == ym.len(),
            xv == xm@.map_values(|v: Vec<i64>| v@),
            yv == ym@.map_values(|v: Vec<i64>| v@),
            out@.len() == i,
            forall|k: int| 0 <= k < i ==> zip_elements(c, xv[k], yv[k]) == Some((#[trigger] out@[k])@),
        decreases xm.len() - i,
    {
        match zip_vec(c, &xm[i], &ym[i]) {
            Some(z) => {
                out.push(z);
            },
            None => {
                assert(zip_elements(c, xv[i as int], yv[i as int]) is None);
                return None;
            },
        }
        i += 1;
    }
    assert forall|k: int| 0 <= k < xv.len() implies (#[trigger] zip_elements(c, xv[k], yv[k])) is Some by {
        assert(zip_elements(c, xv[k], yv[k]) == Some(out@[k]@));
    }
    assert(out@.map_values(|v: Vec<i64>| v@) =~= Seq::new(xv.len(), |k: int| zip_elements(c, xv[k], yv[k])->0));
    Some(out)
}

impl Combinator {
    /// Combines two values as [`combine`] describes.
    pub fn combine_values(self, a: &Value, b: &Value) -> (r: Option<Value>)
        ensures
            match r {
                Some(v) => combine(self, a@, b@) == Some(v@),
                None => combine(self, a@, b@) is None,
            },
    {
        match (a, b) {
            (Value::Scalar(x), Value::Scalar(y)) => match self.apply(*x, *y) {
                Some(z) => Some(Value::Scalar(z)),
                None => None,
            },
            (Value::Vector(xs), Value::Vector(ys)) => match zip_vec(self, xs, ys) {
                Some(z) => Some(Value::Vector(z)),
                None => None,
            },
            (Value::Vector(xs), Value::Scalar(y)) => {
                let ys = filled(*y, xs.len());
                match zip_vec(self, xs, &ys) {
                    Some(z) => Some(Value::Vector(z)),
                    None => None,
                }
            },
            (Value::Scalar(x), Value::Vector(ys)) => {
                let xs = filled(*x, ys.len());
                match zip_vec(self, &xs, ys) {
                    Some(z) => Some(Value::Vector(z)),
                    None => None,
                }
            },
            (Value::Matrix(xm), Value::Matrix(ym)) => match zip_mat(self, xm, ym) {
                Some(z) => Some(Value::Matrix(z)),
                None => None,
            },
            (Value::Matrix(xm), Value::Scalar(y)) => {
                let ym = filled_rows(*y, xm);
                match zip_mat(self, xm, &ym) {
                    Some(z) => Some(Value::Matrix(z)),
                    None => None,
                }
            },
            (Value::Scalar(x), Value::Matrix(ym)) => {
                let xm = filled_rows(*x, ym);
                match zip_mat(self, &xm, ym) {
                    Some(z) => Some(Value::Matrix(z)),
                    None => None,
                }
            },
            _ => None,
        }
    }
}

} // verus!
