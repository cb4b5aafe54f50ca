//! Typed grammar rules and the append-only grammar that holds them.

use vstd::prelude::*;
use crate::ops::{combine, Combinator, Operation};
use crate::types::{DataType, Shape, TypeInfo};
use crate::value::Value;

verus! {

/// A typed binary rule: operands of `input_one_type` and `input_two_type`,
/// labelled `operation`, give a value of type `output` computed by `func`.
#[derive(Copy, Clone, Debug, PartialEq, Eq, Hash, Structural)]
pub struct NonTerminalRule {
    pub input_one_type: TypeInfo,
    pub input_two_type: TypeInfo,
    pub operation: Operation,
    pub output: TypeInfo,
    pub func: Combinator,
}

/// Operand types and operation of a rule, as the grammar hands them out.
pub type Signature = (TypeInfo, TypeInfo, Operation);

impl NonTerminalRule {
    pub open spec fn signature(self) -> Signature {
        (self.input_one_type, self.input_two_type, self.operation)
    }

    /// The same rule with its operands in the other order; its combinator is
    /// swapped too, so that it computes the same results.
    pub open spec fn swapped_spec(self) -> NonTerminalRule {
        NonTerminalRule {
            input_one_type: self.input_two_type,
            input_two_type: self.input_one_type,
            operation: self.operation,
            output: self.output,
            func: self.func.swapped_spec(),
        }
    }

    pub fn new(
        input_one_type: TypeInfo,
        input_two_type: TypeInfo,
        operation: Operation,
        output: TypeInfo,
        func: Combinator,
    ) -> (r: Self)
        ensures
            r == (NonTerminalRule { input_one_type, input_two_type, operation, output, func }),
    {
        NonTerminalRule { input_one_type, input_two_type, operation, output, func }
    }

    /// A rule whose operands and result are all scalars of `data_type`.
    pub fn scalar_arithmetic(data_type: DataType, operation: Operation, func: Combinator) -> (r: Self)
        ensures
            r.input_one_type == (TypeInfo { shape: Shape::Scalar, data_type }),
            r.input_two_type == r.input_one_type,
            r.output == r.input_one_type,
            r.operation == operation,
            r.func == func,
    {
        let scalar_type = TypeInfo { shape: Shape::Scalar, data_type };
        Self::new(scalar_type, scalar_type, operation, scalar_type, func)
    }

    /// Applies the rule's combinator to two operand values.
    pub fn execute(&self, input1: &Value, input2: &Value) -> (r: Option<Value>)
        ensures
            match r {
                Some(v) => combine(self.func, input1@, input2@) == Some(v@),
                None => combine(self.func, input1@, input2@) is None,
            },
    {
        self.func.combine_values(input1, input2)
    }
}

/// The signatures of the rules of `rules` whose output is `output`, in order.
pub open spec fn inputs_for(rules: Seq<NonTerminalRule>, output: TypeInfo) -> Seq<Signature>
    decreases rules.len(),
{
    if rules.len() == 0 {
        Seq::empty()
    } else {
        let prev = inputs_for(rules.drop_last(), output);
        if rules.last().output == output {
            prev.push(rules.last().signature())
        } else {
            prev
        }
    }
}

/// Every rule with distinct operand types has its operand-swapped counterpart in `rules`.
pub open spec fn orientation_complete(rules: Seq<NonTerminalRule>) -> bool {
    forall|i: int|
        0 <= i < rules.len() && (#[trigger] rules[i]).input_one_type != rules[i].input_two_type
            ==> exists|j: int| 0 <= j < rules.len() && rules[j] == rules[i].swapped_spec()
}

/// The rules after `rule` is added: its swapped counterpart first when its operand
/// types differ, then the rule itself.
pub open spec fn with_rule(rules: Seq<NonTerminalRule>, rule: NonTerminalRule) -> Seq<NonTerminalRule> {
    if rule.input_one_type != rule.input_two_type {
        rules.push(rule.swapped_spec()).push(rule)
    } else {
        rules.push(rule)
    }
}

/// A signature is listed for `output` exactly when some rule with that output has it.
pub proof fn lemma_inputs_for_contains(rules: Seq<NonTerminalRule>, output: TypeInfo, s: Signature)
    ensures
        inputs_for(rules, output).contains(s) <==> exists|j: int|
            0 <= j < rules.len() && (#[trigger] rules[j]).output == output && rules[j].signature() == s,
    decreases rules.len(),
{
    if rules.len() > 0 {
        let prev = rules.drop_last();
        lemma_inputs_for_contains(prev, output, s);
        if inputs_for(rules, output).contains(s) {
            if !inputs_for(prev, output).contains(s) {
                let k = inputs_for(rules, output).len() - 1;
                assert(inputs_for(rules, output)[k] == s);
                assert(rules[rules.len() - 1] == rules.last());
            } else {
                let j = choose|j: int|
                    0 <= j < prev.len() && (#[trigger] prev[j]).output == output && prev[j].signature() == s;
                assert(rules[j] == prev[j]);
            }
        }
        if exists|j: int| 0 <= j < rules.len() && (#[trigger] rules[j]).output == output && rules[j].signature() == s {
            let j = choose|j: int|
                0 <= j < rules.len() && (#[trigger] rules[j]).output == output && rules[j].signature() == s;
            if j < prev.len() {
                assert(prev[j] == rules[j]);
                let i = choose|i: int| 0 <= i < inputs_for(prev, output).len() && inputs_for(prev, output)[i] == s;
                assert(inputs_for(rules, output)[i] == s);
            } else {
                let k = inputs_for(rules, output).len() - 1;
                assert(inputs_for(rules, output)[k] == s);
            }
        }
    }
}

/// Adding a rule with distinct operand types makes two more signatures retrievable
/// for its output, the swapped one first; adding one with equal operand types, one.
pub proof fn lemma_add_rule_round_trip(rules: Seq<NonTerminalRule>, rule: NonTerminalRule)
    ensures
        rule.input_one_type != rule.input_two_type ==> inputs_for(with_rule(rules, rule), rule.output)
            == inputs_for(rules, rule.output).push(rule.swapped_spec().signature()).push(rule.signature()),
        rule.input_one_type == rule.input_two_type ==> inputs_for(with_rule(rules, rule), rule.output)
            == inputs_for(rules, rule.output).push(rule.signature()),
{
    let added = with_rule(rules, rule);
    let out = rule.output;
    if rule.input_one_type != rule.input_two_type {
        let mid = rules.push(rule.swapped_spec());
        assert(mid.drop_last() =~= rules);
        assert(inputs_for(mid, out) == inputs_for(rules, out).push(rule.swapped_spec().signature()));
        assert(added.drop_last() =~= mid);
        assert(inputs_for(added, out) == inputs_for(mid, out).push(rule.signature()));
    } else {
        assert(added.drop_last() =~= rules);
    }
}

/// The grammar: an append-only, ordered collection of rules.
pub struct NonTerminalGrammar {
    rules: Vec<NonTerminalRule>,
}

impl View for NonTerminalGrammar {
    type V = Seq<NonTerminalRule>;

    closed spec fn view(&self) -> Seq<NonTerminalRule> {
        self.rules@
    }
}

impl NonTerminalGrammar {
    /// Lookup by output finds every orientation of every asymmetric rule.
    pub open spec fn wf(&self) -> bool {
        orientation_complete(self@)
    }

    pub fn new() -> (r: Self)
        ensures
            r@ == Seq::<NonTerminalRule>::empty(),
            r.wf(),
    {
        NonTerminalGrammar { rules: Vec::new() }
    }

    /// The rules, in insertion order.
    pub fn rules(&self) -> (r: &Vec<NonTerminalRule>)
        ensures
            r@ == self@,
    {
        &self.rules
    }

    /// Appends `rule`, preceded by its operand-swapped counterpart when its two
    /// operand types differ.
    pub fn add_rule(&mut self, rule: NonTerminalRule)
        ensures
            final(self)@ == with_rule(old(self)@, rule),
            old(self).wf() ==> final(self).wf(),
    {
        if rule.input_one_type != rule.input_two_type {
            let swapped = NonTerminalRule {
                input_one_type: rule.input_two_type,
                input_two_type: rule.input_one_type,
                operation: rule.operation,
                output: rule.output,
                func: rule.func.swapped(),
            };
            self.rules.push(swapped);
        }
        self.rules.push(rule);
        proof {
            let rules = self.rules@;
            let n = rules.len();
            if old(self).wf() {
                assert forall|i: int|
                    0 <= i < n && (#[trigger] rules[i]).input_one_type != rules[i].input_two_type
                    implies exists|j: int| 0 <= j < n && rules[j] == rules[i].swapped_spec() by {
                    if i == n - 1 {
                        assert(rules[n - 2] == rules[i].swapped_spec());
                    } else if rule.input_one_type != rule.input_two_type && i == n - 2 {
                        assert(rule.func.swapped_spec().swapped_spec() == rule.func);
                        assert(rules[n - 1] == rules[i].swapped_spec());
                    } else {
                        assert(old(self)@[i] == rules[i]);
                        let j = choose|j: int| 0 <= j < old(self)@.len() && old(self)@[j] == old(self)@[i].swapped_spec();
                        assert(rules[j] == old(self)@[j]);
                    }
                }
            }
        }
    }

    /// Every (input1, input2, operation) of a rule whose output is `output_type`,
    /// in insertion order; empty when no rule produces it.
    pub fn get_all_possible_input_types_with_operations(&self, output_type: TypeInfo) -> (r: Vec<Signature>)
        ensures
            r@ == inputs_for(self@, output_type),
    {
        let mut temp: Vec<Signature> = Vec::new();
        let mut i: usize = 0;
        while i < self.rules.len()
            invariant
                i <= self.rules.len(),
                temp@ == inputs_for(self.rules@.subrange(0, i as int), output_type),
            decreases self.rules.len() - i,
        {
            let rule = self.rules[i];
            assert(self.rules@.subrange(0, i + 1).drop_last() =~= self.rules@.subrange(0, i as int));
            if rule.output == output_type {
                temp.push((rule.input_one_type, rule.input_two_type, rule.operation));
            }
            i += 1;
        }
        assert(self.rules@.subrange(0, i as int) =~= self.rules@);
        temp
    }
}

} // verus!
