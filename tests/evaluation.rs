use stsr::error::GpError;
use stsr::node::{compatible_outputs, Node, NodeType};
use stsr::nonterminal::{NonTerminalGrammar, NonTerminalRule};
use stsr::ops::{Combinator, Operation};
use stsr::possibilities_tables::PossibilityTable;
use stsr::tree_builder::{ParseTree, TreeOrchestrator};
use stsr::types::{DataRow, DataType, Dataset, EvalInput, Shape, TypeInfo, Variable, VariableDefinitions};
use stsr::value::Value;
use stsr::variable::VariableContext;

fn int_scalar() -> TypeInfo {
    TypeInfo { shape: Shape::Scalar, data_type: DataType::Integer }
}

fn float_scalar() -> TypeInfo {
    TypeInfo { shape: Shape::Scalar, data_type: DataType::Float }
}

fn int_vector(n: usize) -> TypeInfo {
    TypeInfo { shape: Shape::Vector(n), data_type: DataType::Integer }
}

fn x_only() -> VariableDefinitions {
    VariableDefinitions::new(vec![Variable { name: "x".to_string(), _type: int_scalar() }])
}

fn leaf(idx: usize, t: TypeInfo, value: Value, variable: Option<&str>, parent: usize) -> Node {
    Node {
        idx,
        _type: NodeType::Terminal(t),
        value,
        variable_id: variable.map(|s| s.to_string()),
        left_index: None,
        right_index: None,
        parent_index: parent,
    }
}

/// `left op right` over two leaves.
fn binary_tree(op: Operation, t: TypeInfo, left: Node, right: Node) -> ParseTree {
    let mut tree = ParseTree::empty(1);
    tree.tree.push(Node::new_non_terminal(0, None, op, Value::Scalar(0), t, t, t, 1, 2, 0));
    tree.tree.push(left);
    tree.tree.push(right);
    tree
}

fn rows_of_x(xs: &[i64], vars: &VariableDefinitions) -> Vec<DataRow> {
    xs.iter()
        .map(|x| DataRow::from_map(vars, vec![("x".to_string(), Value::Scalar(*x))]).unwrap())
        .collect()
}

fn square_setup() -> (ParseTree, NonTerminalGrammar, Dataset) {
    let vars = x_only();
    let mut grammar = NonTerminalGrammar::new();
    grammar.add_rule(NonTerminalRule::new(int_scalar(), int_scalar(), Operation::Multiply, int_scalar(), Combinator::Multiply));
    let sig = grammar.get_all_possible_input_types_with_operations(int_scalar());
    let tree = binary_tree(
        sig[0].2,
        int_scalar(),
        leaf(1, int_scalar(), Value::Scalar(0), Some("x"), 0),
        leaf(2, int_scalar(), Value::Scalar(0), Some("x"), 0),
    );
    let dataset = Dataset::new(rows_of_x(&[1, 2, 3, 4], &vars), vec![1, 4, 9, 16]).unwrap();
    (tree, grammar, dataset)
}

#[test]
fn square_tree_has_zero_fitness() {
    let (mut tree, grammar, dataset) = square_setup();
    assert_eq!(tree.evaluate_fitness(&dataset, &grammar), Ok(()));
    assert_eq!(tree.fitness, 0);
}

#[test]
fn square_tree_scores_zero_through_the_orchestrator() {
    let (tree, grammar, dataset) = square_setup();
    let mut orchestrator = TreeOrchestrator::new(grammar, x_only(), dataset, 2, int_scalar());
    orchestrator.trees.push(tree);
    assert_eq!(orchestrator.evaluate_fitness(), vec![Ok(0)]);
    assert_eq!(orchestrator.trees[0].fitness, 0);
}

#[test]
fn fitness_sums_absolute_errors() {
    // x + x against targets 1, 4, 9, 16 on x = 1..4: |2-1| + |4-4| + |6-9| + |8-16| = 12
    let vars = x_only();
    let mut grammar = NonTerminalGrammar::new();
    grammar.add_rule(NonTerminalRule::scalar_arithmetic(DataType::Integer, Operation::Add, Combinator::Add));
    let mut tree = binary_tree(
        Operation::Add,
        int_scalar(),
        leaf(1, int_scalar(), Value::Scalar(0), Some("x"), 0),
        leaf(2, int_scalar(), Value::Scalar(0), Some("x"), 0),
    );
    let dataset = Dataset::new(rows_of_x(&[1, 2, 3, 4], &vars), vec![1, 4, 9, 16]).unwrap();
    assert_eq!(tree.evaluate_fitness(&dataset, &grammar), Ok(()));
    assert_eq!(tree.fitness, 12);
}

#[test]
fn fitness_of_extreme_values_does_not_overflow() {
    let vars = x_only();
    let grammar = NonTerminalGrammar::new();
    let mut tree = ParseTree::empty(0);
    tree.tree.push(leaf(0, int_scalar(), Value::Scalar(i64::MAX), None, 0));
    let dataset = Dataset::new(rows_of_x(&[0, 0], &vars), vec![i64::MIN, i64::MIN]).unwrap();
    assert_eq!(tree.evaluate_fitness(&dataset, &grammar), Ok(()));
    assert_eq!(tree.fitness, 2 * (u64::MAX as u128));
}

#[test]
fn reevaluating_gives_the_same_root_value() {
    let (mut tree, grammar, dataset) = square_setup();
    let input = dataset.sample_row(2);
    assert_eq!(tree.evaluate(&input, &grammar), Ok(()));
    let first = tree.tree[0].value.clone();
    assert_eq!(first, Value::Scalar(9));
    assert_eq!(tree.evaluate(&input, &grammar), Ok(()));
    assert_eq!(tree.tree[0].value, first);
}

#[test]
fn evaluation_fetches_variables_and_keeps_constants() {
    let vars = x_only();
    let mut grammar = NonTerminalGrammar::new();
    grammar.add_rule(NonTerminalRule::scalar_arithmetic(DataType::Integer, Operation::Subtract, Combinator::Subtract));
    let mut tree = binary_tree(
        Operation::Subtract,
        int_scalar(),
        leaf(1, int_scalar(), Value::Scalar(10), None, 0),
        leaf(2, int_scalar(), Value::Scalar(0), Some("x"), 0),
    );
    let row = DataRow::new(&vars, vec![Value::Scalar(3)]).unwrap();
    let target = 0i64;
    assert_eq!(tree.evaluate(&EvalInput::Data(&row, &target), &grammar), Ok(()));
    assert_eq!(tree.tree[1].value, Value::Scalar(10));
    assert_eq!(tree.tree[2].value, Value::Scalar(3));
    assert_eq!(tree.tree[0].value, Value::Scalar(7));
}

#[test]
fn swapped_rule_computes_the_same_result() {
    // a Float-Int rule added once serves the Int-Float orientation too
    let mut grammar = NonTerminalGrammar::new();
    grammar.add_rule(NonTerminalRule::new(float_scalar(), int_scalar(), Operation::Subtract, int_scalar(), Combinator::Subtract));
    let vars = VariableDefinitions::new(Vec::new());
    let row = DataRow::new(&vars, Vec::new()).unwrap();
    let target = 0i64;
    let mut tree = ParseTree::empty(0);
    tree.tree.push(Node::new_non_terminal(0, None, Operation::Subtract, Value::Scalar(0), int_scalar(), float_scalar(), int_scalar(), 1, 2, 0));
    tree.tree.push(leaf(1, int_scalar(), Value::Scalar(2), None, 0));
    tree.tree.push(leaf(2, float_scalar(), Value::Scalar(9), None, 0));
    assert_eq!(tree.evaluate(&EvalInput::Data(&row, &target), &grammar), Ok(()));
    // the Int operand is the second operand of the rule as added: 9 - 2
    assert_eq!(tree.tree[0].value, Value::Scalar(7));
}

#[test]
fn missing_variable_is_unbound() {
    let mut grammar = NonTerminalGrammar::new();
    grammar.add_rule(NonTerminalRule::scalar_arithmetic(DataType::Integer, Operation::Add, Combinator::Add));
    let mut tree = binary_tree(
        Operation::Add,
        int_scalar(),
        leaf(1, int_scalar(), Value::Scalar(0), Some("x"), 0),
        leaf(2, int_scalar(), Value::Scalar(0), Some("y"), 0),
    );
    let row = DataRow::new(&x_only(), vec![Value::Scalar(1)]).unwrap();
    let target = 0i64;
    assert_eq!(tree.evaluate(&EvalInput::Data(&row, &target), &grammar), Err(GpError::UnboundVariable));
}

#[test]
fn unknown_signature_has_no_matching_rule() {
    let mut grammar = NonTerminalGrammar::new();
    grammar.add_rule(NonTerminalRule::scalar_arithmetic(DataType::Integer, Operation::Add, Combinator::Add));
    let mut tree = binary_tree(
        Operation::Divide,
        int_scalar(),
        leaf(1, int_scalar(), Value::Scalar(4), None, 0),
        leaf(2, int_scalar(), Value::Scalar(2), None, 0),
    );
    let row = DataRow::new(&VariableDefinitions::new(Vec::new()), Vec::new()).unwrap();
    let target = 0i64;
    assert_eq!(tree.evaluate(&EvalInput::Data(&row, &target), &grammar), Err(GpError::NoMatchingRule));
    assert_eq!(tree.find_matching_rule_for_node(0, &grammar).err(), Some(GpError::NoMatchingRule));
    assert_eq!(tree.find_matching_rule_for_node(1, &grammar).err(), Some(GpError::NoMatchingRule));
}

#[test]
fn division_by_zero_and_overflow_fail() {
    let mut grammar = NonTerminalGrammar::new();
    grammar.add_rule(NonTerminalRule::scalar_arithmetic(DataType::Integer, Operation::Divide, Combinator::Divide));
    grammar.add_rule(NonTerminalRule::scalar_arithmetic(DataType::Integer, Operation::Add, Combinator::Add));
    let row = DataRow::new(&VariableDefinitions::new(Vec::new()), Vec::new()).unwrap();
    let target = 0i64;
    let mut by_zero = binary_tree(
        Operation::Divide,
        int_scalar(),
        leaf(1, int_scalar(), Value::Scalar(4), None, 0),
        leaf(2, int_scalar(), Value::Scalar(0), None, 0),
    );
    assert_eq!(by_zero.evaluate(&EvalInput::Data(&row, &target), &grammar), Err(GpError::OperationFailed));
    let mut overflow = binary_tree(
        Operation::Add,
        int_scalar(),
        leaf(1, int_scalar(), Value::Scalar(i64::MAX), None, 0),
        leaf(2, int_scalar(), Value::Scalar(1), None, 0),
    );
    assert_eq!(overflow.evaluate(&EvalInput::Data(&row, &target), &grammar), Err(GpError::OperationFailed));
}

#[test]
fn vector_root_has_no_scalar_loss() {
    let vars = x_only();
    let grammar = NonTerminalGrammar::new();
    let mut tree = ParseTree::empty(0);
    tree.tree.push(leaf(0, int_vector(2), Value::Vector(vec![1, 2]), None, 0));
    let dataset = Dataset::new(rows_of_x(&[1], &vars), vec![1]).unwrap();
    assert_eq!(tree.evaluate_fitness(&dataset, &grammar), Err(GpError::NonScalarOutput));
    assert_eq!(tree.fitness, 0);
}

#[test]
fn malformed_links_are_reported_per_tree() {
    let (good, grammar, dataset) = square_setup();
    let mut bad = ParseTree::empty(2);
    let mut root = leaf(0, int_scalar(), Value::Scalar(0), None, 0);
    root.left_index = Some(5);
    bad.tree.push(root);
    assert!(!bad.has_valid_links());
    assert!(good.has_valid_links());
    let mut orchestrator = TreeOrchestrator::new(grammar, x_only(), dataset, 2, int_scalar());
    orchestrator.trees.push(good);
    orchestrator.trees.push(bad);
    let row = DataRow::new(&x_only(), vec![Value::Scalar(5)]).unwrap();
    let target = 25i64;
    let outcomes = orchestrator.evaluate_trees(&EvalInput::Data(&row, &target));
    assert_eq!(outcomes, vec![Ok(()), Err(GpError::IndexOutOfBounds)]);
    assert_eq!(orchestrator.trees[0].tree[0].value, Value::Scalar(25));
    assert_eq!(orchestrator.evaluate_fitness(), vec![Ok(0), Err(GpError::IndexOutOfBounds)]);
}

#[test]
fn row_and_target_accessors_are_bounds_checked() {
    let (_, grammar, dataset) = square_setup();
    let orchestrator = TreeOrchestrator::new(grammar, x_only(), dataset, 2, int_scalar());
    assert_eq!(orchestrator.get_expected_output(3), Ok(&16));
    assert_eq!(orchestrator.get_expected_output(4), Err(GpError::IndexOutOfBounds));
    let row = orchestrator.create_variable_context_for_row(1).unwrap();
    assert_eq!(row.get(&"x".to_string()), Some(&Value::Scalar(2)));
    assert!(orchestrator.create_variable_context_for_row(4).is_err());
    assert_eq!(orchestrator.get_dataset().features.len(), 4);
    assert_eq!(orchestrator.get_variable_definitions().variables.len(), 1);
}

#[test]
fn row_missing_a_variable_is_malformed() {
    let vars = VariableDefinitions::new(vec![
        Variable { name: "x".to_string(), _type: int_scalar() },
        Variable { name: "y".to_string(), _type: int_scalar() },
    ]);
    let missing = DataRow::from_map(&vars, vec![("x".to_string(), Value::Scalar(1))]);
    assert!(matches!(missing, Err(GpError::MalformedDataset)));
    let complete = DataRow::from_map(&vars, vec![("y".to_string(), Value::Scalar(2)), ("x".to_string(), Value::Scalar(1))]);
    assert!(complete.is_ok());
}

#[test]
fn extra_or_repeated_names_and_count_mismatches_are_malformed() {
    let vars = x_only();
    let extra = DataRow::from_map(&vars, vec![("x".to_string(), Value::Scalar(1)), ("y".to_string(), Value::Scalar(2))]);
    assert!(matches!(extra, Err(GpError::MalformedDataset)));
    let repeated = DataRow::from_map(&vars, vec![("x".to_string(), Value::Scalar(1)), ("x".to_string(), Value::Scalar(2))]);
    assert!(matches!(repeated, Err(GpError::MalformedDataset)));
    assert!(matches!(DataRow::new(&vars, vec![]), Err(GpError::MalformedDataset)));
    let rows = rows_of_x(&[1, 2], &vars);
    assert!(matches!(Dataset::new(rows, vec![1]), Err(GpError::MalformedDataset)));
}

#[test]
fn adding_an_asymmetric_rule_stores_both_orientations() {
    let mut grammar = NonTerminalGrammar::new();
    grammar.add_rule(NonTerminalRule::new(float_scalar(), int_scalar(), Operation::Add, int_scalar(), Combinator::Subtract));
    let found = grammar.get_all_possible_input_types_with_operations(int_scalar());
    assert_eq!(found, vec![(int_scalar(), float_scalar(), Operation::Add), (float_scalar(), int_scalar(), Operation::Add)]);
    assert_eq!(grammar.rules().len(), 2);
    assert_eq!(grammar.rules()[0].func, Combinator::ReverseSubtract);
    assert_eq!(grammar.rules()[1].func, Combinator::Subtract);
    assert!(grammar.get_all_possible_input_types_with_operations(float_scalar()).is_empty());
}

#[test]
fn adding_a_symmetric_rule_stores_it_once() {
    let mut grammar = NonTerminalGrammar::new();
    grammar.add_rule(NonTerminalRule::scalar_arithmetic(DataType::Integer, Operation::Multiply, Combinator::Multiply));
    let found = grammar.get_all_possible_input_types_with_operations(int_scalar());
    assert_eq!(found, vec![(int_scalar(), int_scalar(), Operation::Multiply)]);
    assert_eq!(grammar.rules().len(), 1);
}

#[test]
fn possibility_table_sweeps_depth_by_depth() {
    let mut grammar = NonTerminalGrammar::new();
    grammar.add_rule(NonTerminalRule::new(float_scalar(), int_scalar(), Operation::Add, int_scalar(), Combinator::Add));
    let vec3 = int_vector(3);
    let vars = VariableDefinitions::new(vec![Variable { name: "v".to_string(), _type: vec3 }]);
    let table = PossibilityTable::new(&grammar, &vars, int_scalar(), 3);
    assert_eq!(table.get_max_depth(), 3);
    assert!(table.is_valid_for_generation());
    assert_eq!(table.get_possible_types_at_depth(0), Some(&vec![int_scalar()]));
    let depth1 = table.get_possible_types_at_depth(1).unwrap();
    assert_eq!(depth1.len(), 2);
    assert!(table.can_produce_type_at_depth(1, int_scalar()));
    assert!(table.can_produce_type_at_depth(1, float_scalar()));
    assert!(!table.can_produce_type_at_depth(1, vec3));
    // Float has no producing rule, so depth 2 holds the Int operands and the variable's type
    assert!(table.can_produce_type_at_depth(2, int_scalar()));
    assert!(table.can_produce_type_at_depth(2, float_scalar()));
    assert!(table.can_produce_type_at_depth(2, vec3));
    assert!(!table.can_produce_type_at_depth(3, int_scalar()));
    assert_eq!(table.get_possible_types_at_depth(3), None);
}

#[test]
fn unbuilt_table_is_not_valid() {
    let table = PossibilityTable::empty(4);
    assert!(!table.is_valid_for_generation());
    assert_eq!(table.get_max_depth(), 4);
    assert!(!table.can_produce_type_at_depth(0, int_scalar()));
}

#[test]
fn empty_grammar_at_depth_three_is_never_valid() {
    let grammar = NonTerminalGrammar::new();
    let matching = x_only();
    let other = VariableDefinitions::new(vec![Variable { name: "z".to_string(), _type: float_scalar() }]);
    // depth 1 receives no operand types from an empty grammar, so it is empty
    // whatever the variables; the table is not valid in either case
    let with_match = PossibilityTable::new(&grammar, &matching, int_scalar(), 3);
    assert!(!with_match.is_valid_for_generation());
    assert!(with_match.can_produce_type_at_depth(2, int_scalar()));
    let without = PossibilityTable::new(&grammar, &other, int_scalar(), 3);
    assert!(!without.is_valid_for_generation());
    assert!(!without.can_produce_type_at_depth(2, int_scalar()));
}

#[test]
fn combinators_work_elementwise_with_broadcasting() {
    let v = Value::Vector(vec![1, -2, 3]);
    let w = Value::Vector(vec![10, 20, 30]);
    assert_eq!(Combinator::Add.combine_values(&v, &w), Some(Value::Vector(vec![11, 18, 33])));
    assert_eq!(Combinator::Multiply.combine_values(&v, &Value::Scalar(2)), Some(Value::Vector(vec![2, -4, 6])));
    assert_eq!(Combinator::ReverseSubtract.combine_values(&Value::Scalar(1), &w), Some(Value::Vector(vec![9, 19, 29])));
    assert_eq!(Combinator::Divide.combine_values(&Value::Scalar(-7), &Value::Scalar(2)), Some(Value::Scalar(-3)));
    assert_eq!(Combinator::ReverseDivide.combine_values(&Value::Scalar(2), &Value::Scalar(-7)), Some(Value::Scalar(-3)));
    assert_eq!(Combinator::Add.combine_values(&v, &Value::Vector(vec![1])), None);
    let m = Value::Matrix(vec![vec![1, 2], vec![3, 4]]);
    assert_eq!(Combinator::Subtract.combine_values(&m, &Value::Scalar(1)), Some(Value::Matrix(vec![vec![0, 1], vec![2, 3]])));
    assert_eq!(Combinator::Add.combine_values(&m, &m), Some(Value::Matrix(vec![vec![2, 4], vec![6, 8]])));
    assert_eq!(Combinator::Add.combine_values(&m, &v), None);
    assert_eq!(Combinator::Subtract.swapped(), Combinator::ReverseSubtract);
    assert_eq!(Combinator::Add.apply(i64::MIN, -1), None);
    assert_eq!(Combinator::Divide.apply(i64::MIN, -1), None);
    let rule = NonTerminalRule::scalar_arithmetic(DataType::Integer, Operation::Multiply, Combinator::Multiply);
    assert_eq!(rule.execute(&Value::Scalar(6), &Value::Scalar(7)), Some(Value::Scalar(42)));
    assert_eq!(Value::Matrix(vec![vec![5]]).duplicate(), Value::Matrix(vec![vec![5]]));
}

#[test]
fn compatible_outputs_follow_shape_rules() {
    let i = DataType::Integer;
    let t = |shape| TypeInfo { shape, data_type: i };
    assert_eq!(compatible_outputs(t(Shape::Scalar), t(Shape::Scalar), Operation::Divide), vec![t(Shape::Scalar)]);
    assert_eq!(compatible_outputs(t(Shape::Vector(3)), t(Shape::Scalar), Operation::Add), vec![t(Shape::Vector(3))]);
    assert_eq!(compatible_outputs(t(Shape::Scalar), t(Shape::Vector(4)), Operation::Add), vec![t(Shape::Vector(4))]);
    assert!(compatible_outputs(t(Shape::Vector(3)), t(Shape::Vector(2)), Operation::Add).is_empty());
    assert_eq!(compatible_outputs(t(Shape::Matrix(2, 3)), t(Shape::Matrix(2, 3)), Operation::Subtract), vec![t(Shape::Matrix(2, 3))]);
    assert_eq!(compatible_outputs(t(Shape::Matrix(2, 3)), t(Shape::Matrix(3, 5)), Operation::Multiply), vec![t(Shape::Matrix(2, 5))]);
    assert!(compatible_outputs(t(Shape::Matrix(2, 3)), t(Shape::Matrix(2, 3)), Operation::Multiply).is_empty());
    assert!(compatible_outputs(t(Shape::Matrix(2, 2)), t(Shape::Matrix(2, 2)), Operation::Divide).is_empty());
    assert!(compatible_outputs(t(Shape::Scalar), float_scalar(), Operation::Add).is_empty());
}

#[test]
fn variable_context_binds_and_rebinds() {
    let mut ctx = VariableContext::new();
    assert_eq!(ctx.get_variable(&"x".to_string()), None);
    assert_eq!(ctx.set_variable_value(&"x".to_string(), Value::Scalar(1)), Err(GpError::UnboundVariable));
    ctx.add_variable("x".to_string(), Value::Scalar(1));
    ctx.add_variable("y".to_string(), Value::Vector(vec![2, 3]));
    assert_eq!(ctx.get_variable(&"x".to_string()), Some(&Value::Scalar(1)));
    assert_eq!(ctx.set_variable_value(&"x".to_string(), Value::Scalar(9)), Ok(()));
    assert_eq!(ctx.get_variable(&"x".to_string()), Some(&Value::Scalar(9)));
    ctx.add_variable("y".to_string(), Value::Scalar(4));
    assert_eq!(ctx.get_variable(&"y".to_string()), Some(&Value::Scalar(4)));
}
