use stsr::error::GpError;
use stsr::node::NodeType;
use stsr::nonterminal::{NonTerminalGrammar, NonTerminalRule};
use stsr::ops::{Combinator, Operation};
use stsr::possibilities_tables::PossibilityTable;
use stsr::random::RandomSource;
use stsr::tree_builder::{terminal_from_draws, value_from_draws, ParseTree, TreeOrchestrator};
use stsr::types::{DataRow, DataType, Dataset, EvalInput, GenerationMethod, Shape, TypeInfo, Variable, VariableDefinitions};
use stsr::value::Value;

fn int_scalar() -> TypeInfo {
    TypeInfo { shape: Shape::Scalar, data_type: DataType::Integer }
}

fn float_scalar() -> TypeInfo {
    TypeInfo { shape: Shape::Scalar, data_type: DataType::Float }
}

fn x_only() -> VariableDefinitions {
    VariableDefinitions::new(vec![Variable { name: "x".to_string(), _type: int_scalar() }])
}

fn add_grammar() -> NonTerminalGrammar {
    let mut g = NonTerminalGrammar::new();
    g.add_rule(NonTerminalRule::new(int_scalar(), int_scalar(), Operation::Add, int_scalar(), Combinator::Add));
    g
}

fn output_of(t: &NodeType) -> TypeInfo {
    match t {
        NodeType::NonTerminal(_, _, _, o) => *o,
        NodeType::Terminal(o) => *o,
    }
}

/// Checks the arena shape: children after their parent and inside the arena,
/// pointing back, and every non-root node listed by its parent.
fn assert_tree_shape(tree: &ParseTree) {
    let n = tree.tree.len();
    assert!(n > 0);
    for (i, node) in tree.tree.iter().enumerate() {
        assert_eq!(node.idx, i);
        match (node.left_index, node.right_index) {
            (None, None) => assert!(matches!(node._type, NodeType::Terminal(_))),
            (Some(l), Some(r)) => {
                assert!(i < l && l < n && i < r && r < n && l != r);
                assert_eq!(tree.tree[l].parent_index, i);
                assert_eq!(tree.tree[r].parent_index, i);
            }
            _ => panic!("node {} has one child", i),
        }
        if i > 0 {
            let p = node.parent_index;
            assert!(p < i);
            assert!(tree.tree[p].left_index == Some(i) || tree.tree[p].right_index == Some(i));
        }
    }
}

fn depth_of(tree: &ParseTree, i: usize) -> usize {
    match (tree.tree[i].left_index, tree.tree[i].right_index) {
        (Some(l), Some(r)) => 1 + depth_of(tree, l).max(depth_of(tree, r)),
        _ => 1,
    }
}

fn empty_dataset() -> Dataset {
    Dataset::new(Vec::new(), Vec::new()).unwrap()
}

#[test]
fn add_tree_of_depth_two_has_three_nodes() {
    let grammar = add_grammar();
    let vars = x_only();
    let table = PossibilityTable::new(&grammar, &vars, int_scalar(), 2);
    for seed in 0..40u64 {
        let mut rng = RandomSource::from_seed(seed);
        let tree = ParseTree::generate_random(0, 2, int_scalar(), &grammar, &vars, GenerationMethod::Full, &table, &mut rng);
        assert_eq!(tree.tree.len(), 3);
        assert_eq!(tree.tree[0]._type, NodeType::NonTerminal(int_scalar(), int_scalar(), Operation::Add, int_scalar()));
        assert_eq!(tree.tree[0].left_index, Some(1));
        assert_eq!(tree.tree[0].right_index, Some(2));
        for child in 1..3 {
            let node = &tree.tree[child];
            assert_eq!(node._type, NodeType::Terminal(int_scalar()));
            match &node.variable_id {
                Some(name) => assert_eq!(name, "x"),
                None => match node.value {
                    Value::Scalar(c) => assert!((-100..=100).contains(&c)),
                    _ => panic!("constant of the wrong shape"),
                },
            }
        }
    }
}

#[test]
fn generated_trees_are_rooted_in_the_target_type() {
    let mut grammar = NonTerminalGrammar::new();
    grammar.add_rule(NonTerminalRule::scalar_arithmetic(DataType::Integer, Operation::Multiply, Combinator::Multiply));
    grammar.add_rule(NonTerminalRule::new(float_scalar(), int_scalar(), Operation::Add, int_scalar(), Combinator::Add));
    grammar.add_rule(NonTerminalRule::scalar_arithmetic(DataType::Float, Operation::Subtract, Combinator::Subtract));
    let vars = VariableDefinitions::new(vec![
        Variable { name: "x".to_string(), _type: int_scalar() },
        Variable { name: "z".to_string(), _type: float_scalar() },
    ]);
    let mut orchestrator = TreeOrchestrator::new(grammar, vars, empty_dataset(), 4, int_scalar());
    let mut rng = RandomSource::from_seed(7);
    assert_eq!(orchestrator.generate_trees(25, &mut rng), Ok(()));
    assert_eq!(orchestrator.trees.len(), 25);
    for (i, tree) in orchestrator.trees.iter().enumerate() {
        assert_eq!(tree.id, i);
        assert_eq!(tree.fitness, 0);
        assert_eq!(output_of(&tree.tree[0]._type), int_scalar());
        assert_tree_shape(tree);
        assert!(depth_of(tree, 0) <= 4);
    }
}

#[test]
fn generated_child_indices_lie_inside_the_arena_after_their_parent() {
    let grammar = add_grammar();
    let vars = x_only();
    let table = PossibilityTable::new(&grammar, &vars, int_scalar(), 5);
    let mut rng = RandomSource::from_seed(99);
    for id in 0..10 {
        let tree = ParseTree::generate_random(id, 5, int_scalar(), &grammar, &vars, GenerationMethod::Full, &table, &mut rng);
        assert_tree_shape(&tree);
        // the full method fills every level with this grammar
        assert_eq!(tree.tree.len(), 31);
        assert_eq!(depth_of(&tree, 0), 5);
    }
}

#[test]
fn grow_method_stays_within_the_depth_bound() {
    let grammar = add_grammar();
    let vars = x_only();
    let table = PossibilityTable::new(&grammar, &vars, int_scalar(), 4);
    let mut rng = RandomSource::from_seed(3);
    for id in 0..20 {
        let tree = ParseTree::generate_random(id, 4, int_scalar(), &grammar, &vars, GenerationMethod::Grow, &table, &mut rng);
        assert_tree_shape(&tree);
        assert!(depth_of(&tree, 0) <= 4);
        assert_eq!(output_of(&tree.tree[0]._type), int_scalar());
    }
}

#[test]
fn depth_one_gives_a_single_terminal() {
    let grammar = add_grammar();
    let vars = x_only();
    let table = PossibilityTable::new(&grammar, &vars, int_scalar(), 1);
    for seed in 0..20u64 {
        let mut rng = RandomSource::from_seed(seed);
        let tree = ParseTree::generate_random(5, 1, int_scalar(), &grammar, &vars, GenerationMethod::Full, &table, &mut rng);
        assert_eq!(tree.id, 5);
        assert_eq!(tree.tree.len(), 1);
        assert_eq!(tree.tree[0]._type, NodeType::Terminal(int_scalar()));
        assert_eq!(tree.tree[0].left_index, None);
        assert_eq!(tree.tree[0].right_index, None);
    }
}

#[test]
fn constants_take_the_shape_of_their_type() {
    let grammar = NonTerminalGrammar::new();
    let vars = VariableDefinitions::new(Vec::new());
    let matrix = TypeInfo { shape: Shape::Matrix(2, 3), data_type: DataType::Integer };
    let vector = TypeInfo { shape: Shape::Vector(4), data_type: DataType::Float };
    for (t, seed) in [(matrix, 1u64), (vector, 2u64)] {
        let table = PossibilityTable::new(&grammar, &vars, t, 1);
        let mut rng = RandomSource::from_seed(seed);
        let tree = ParseTree::generate_random(0, 1, t, &grammar, &vars, GenerationMethod::Full, &table, &mut rng);
        assert_eq!(tree.tree.len(), 1);
        assert_eq!(tree.tree[0].variable_id, None);
        match (&tree.tree[0].value, t.shape) {
            (Value::Matrix(rows), Shape::Matrix(r, c)) => {
                assert_eq!(rows.len(), r);
                for row in rows {
                    assert_eq!(row.len(), c);
                    assert!(row.iter().all(|x| (-100..=100).contains(x)));
                }
            }
            (Value::Vector(xs), Shape::Vector(n)) => {
                assert_eq!(xs.len(), n);
                assert!(xs.iter().all(|x| (-100..=100).contains(x)));
            }
            _ => panic!("value does not match its shape"),
        }
    }
}

#[test]
fn unreachable_table_stops_generation_before_any_tree() {
    let grammar = NonTerminalGrammar::new();
    let mut orchestrator = TreeOrchestrator::new(grammar, x_only(), empty_dataset(), 3, int_scalar());
    let mut rng = RandomSource::from_seed(1);
    assert_eq!(orchestrator.generate_trees(4, &mut rng), Err(GpError::UnreachableType));
    assert!(orchestrator.trees.is_empty());
    assert!(!orchestrator.get_possibilities_table().is_valid_for_generation());
}

#[test]
fn zero_depth_bound_is_unreachable() {
    let mut orchestrator = TreeOrchestrator::new(add_grammar(), x_only(), empty_dataset(), 0, int_scalar());
    let mut rng = RandomSource::from_seed(1);
    assert_eq!(orchestrator.generate_trees(1, &mut rng), Err(GpError::UnreachableType));
    assert!(orchestrator.trees.is_empty());
}

#[test]
fn empty_trees_are_numbered_from_zero() {
    let mut orchestrator = TreeOrchestrator::new(add_grammar(), x_only(), empty_dataset(), 2, int_scalar());
    orchestrator.generate_empty_trees(3);
    assert_eq!(orchestrator.trees.len(), 3);
    for (i, tree) in orchestrator.trees.iter().enumerate() {
        assert_eq!(tree.id, i);
        assert!(tree.tree.is_empty());
        assert_eq!(tree.fitness, 0);
    }
}

#[test]
fn random_source_stays_below_its_bound() {
    let mut rng = RandomSource::from_seed(42);
    let mut seen = [false; 5];
    for _ in 0..500 {
        let x = rng.below(5);
        assert!(x < 5);
        seen[x as usize] = true;
        let y = rng.in_range(-100, 100);
        assert!((-100..=100).contains(&y));
        let i = rng.index_below(3);
        assert!(i < 3);
    }
    assert!(seen.iter().all(|s| *s));
}

#[test]
fn random_source_is_reproducible_from_its_seed() {
    let mut a = RandomSource::from_seed(2024);
    let mut b = RandomSource::from_seed(2024);
    let xs: Vec<u64> = (0..20).map(|_| a.below(1000)).collect();
    let ys: Vec<u64> = (0..20).map(|_| b.below(1000)).collect();
    assert_eq!(xs, ys);
    let mut c = RandomSource::from_seed(2025);
    let zs: Vec<u64> = (0..20).map(|_| c.below(1000)).collect();
    assert_ne!(xs, zs);
}

#[test]
fn dataset_rows_bind_values_in_declaration_order() {
    let vars = VariableDefinitions::new(vec![
        Variable { name: "x".to_string(), _type: int_scalar() },
        Variable { name: "y".to_string(), _type: int_scalar() },
    ]);
    let row = DataRow::new(&vars, vec![Value::Scalar(5), Value::Scalar(3)]).unwrap();
    assert_eq!(row.get(&"x".to_string()), Some(&Value::Scalar(5)));
    assert_eq!(row.get(&"y".to_string()), Some(&Value::Scalar(3)));
    assert_eq!(row.get(&"z".to_string()), None);
    assert_eq!(vars.get_variable_names(), vec!["x", "y"]);
    assert!(vars.validate_data_row(&row).is_ok());
}

#[test]
fn generated_trees_fail_only_in_arithmetic_on_validated_rows() {
    let mut grammar = NonTerminalGrammar::new();
    grammar.add_rule(NonTerminalRule::scalar_arithmetic(DataType::Integer, Operation::Add, Combinator::Add));
    grammar.add_rule(NonTerminalRule::scalar_arithmetic(DataType::Integer, Operation::Divide, Combinator::Divide));
    grammar.add_rule(NonTerminalRule::scalar_arithmetic(DataType::Integer, Operation::Subtract, Combinator::Subtract));
    let vars = x_only();
    let rows = vec![
        DataRow::from_map(&vars, vec![("x".to_string(), Value::Scalar(0))]).unwrap(),
        DataRow::from_map(&vars, vec![("x".to_string(), Value::Scalar(3))]).unwrap(),
    ];
    let dataset = Dataset::new(rows, vec![0, 9]).unwrap();
    let mut orchestrator = TreeOrchestrator::new(grammar, vars, dataset, 4, int_scalar());
    orchestrator.set_generation_method(GenerationMethod::Grow);
    let mut rng = RandomSource::from_seed(11);
    assert_eq!(orchestrator.generate_trees(40, &mut rng), Ok(()));
    for outcome in orchestrator.evaluate_fitness() {
        match outcome {
            Ok(_) | Err(GpError::OperationFailed) => {}
            Err(e) => panic!("unexpected failure {:?}", e),
        }
    }
    for k in 0..2 {
        let row = orchestrator.create_variable_context_for_row(k).unwrap();
        let target = *orchestrator.get_expected_output(k).unwrap();
        let row_copy = DataRow { values: row.values.clone() };
        let outcomes = orchestrator.evaluate_trees(&EvalInput::Data(&row_copy, &target));
        assert!(outcomes.iter().all(|o| matches!(o, Ok(()) | Err(GpError::OperationFailed))));
    }
}

fn reads(tree: &ParseTree, name: &str) -> bool {
    tree.tree.iter().any(|n| n.variable_id.as_deref() == Some(name))
}

#[test]
fn required_variables_are_placed_when_the_tree_has_room() {
    let grammar = add_grammar();
    let x = Variable { name: "x".to_string(), _type: int_scalar() };
    let y = Variable { name: "y".to_string(), _type: int_scalar() };
    let vars = VariableDefinitions::new(vec![x.clone(), y.clone()]);
    let table = PossibilityTable::new(&grammar, &vars, int_scalar(), 3);
    for seed in 0..20u64 {
        let mut rng = RandomSource::from_seed(seed);
        let (tree, unplaced) = ParseTree::generate_with_required_variables(
            seed as usize, 3, int_scalar(), &grammar, &vars, GenerationMethod::Full, &table,
            vec![x.clone(), y.clone()], &mut rng,
        );
        assert_tree_shape(&tree);
        assert_eq!(tree.tree.len(), 7);
        assert!(unplaced.is_empty());
        assert!(reads(&tree, "x"));
        assert!(reads(&tree, "y"));
    }
}

#[test]
fn required_variables_without_room_are_returned() {
    let grammar = add_grammar();
    let x = Variable { name: "x".to_string(), _type: int_scalar() };
    let y = Variable { name: "y".to_string(), _type: int_scalar() };
    let z = Variable { name: "z".to_string(), _type: float_scalar() };
    let vars = VariableDefinitions::new(vec![x.clone(), y.clone(), z.clone()]);
    let table = PossibilityTable::new(&grammar, &vars, int_scalar(), 1);
    let mut rng = RandomSource::from_seed(5);
    let (tree, unplaced) = ParseTree::generate_with_required_variables(
        0, 1, int_scalar(), &grammar, &vars, GenerationMethod::Full, &table, vec![x, y, z], &mut rng,
    );
    assert_eq!(tree.tree.len(), 1);
    assert_eq!(tree.tree[0].variable_id.as_deref(), Some("x"));
    let names: Vec<&str> = unplaced.iter().map(|v| v.name.as_str()).collect();
    assert_eq!(names, vec!["y", "z"]);
}

#[test]
fn leaf_follows_the_draws() {
    let vars = VariableDefinitions::new(vec![
        Variable { name: "x".to_string(), _type: int_scalar() },
        Variable { name: "y".to_string(), _type: float_scalar() },
        Variable { name: "z".to_string(), _type: int_scalar() },
    ]);
    let picked = terminal_from_draws(int_scalar(), &vars, true, 3, Value::Scalar(7), 4, 1);
    assert_eq!(picked.variable_id.as_deref(), Some("z"));
    assert_eq!(picked.value, Value::Scalar(0));
    assert_eq!(picked.idx, 4);
    assert_eq!(picked.parent_index, 1);
    assert_eq!(picked._type, NodeType::Terminal(int_scalar()));
    let first = terminal_from_draws(int_scalar(), &vars, true, 0, Value::Scalar(7), 0, 0);
    assert_eq!(first.variable_id.as_deref(), Some("x"));
    let constant = terminal_from_draws(int_scalar(), &vars, false, 1, Value::Scalar(7), 0, 0);
    assert_eq!(constant.variable_id, None);
    assert_eq!(constant.value, Value::Scalar(7));
    let vector = TypeInfo { shape: Shape::Vector(2), data_type: DataType::Integer };
    let no_match = terminal_from_draws(vector, &vars, true, 0, Value::Vector(vec![1, 2]), 0, 0);
    assert_eq!(no_match.variable_id, None);
    assert_eq!(no_match.value, Value::Vector(vec![1, 2]));
}

#[test]
fn full_trees_fill_every_level_above_the_last() {
    let grammar = add_grammar();
    let vars = x_only();
    for depth in 1..=4usize {
        let table = PossibilityTable::new(&grammar, &vars, int_scalar(), depth);
        let mut rng = RandomSource::from_seed(depth as u64);
        let tree = ParseTree::generate_random(0, depth, int_scalar(), &grammar, &vars, GenerationMethod::Full, &table, &mut rng);
        assert_eq!(tree.tree.len(), (1usize << depth) - 1);
        assert_tree_shape(&tree);
    }
}

#[test]
fn rows_are_validated_against_the_declarations() {
    let vars = x_only();
    let other = VariableDefinitions::new(vec![Variable { name: "w".to_string(), _type: int_scalar() }]);
    let good = Dataset::new(vec![DataRow::new(&vars, vec![Value::Scalar(1)]).unwrap()], vec![1]).unwrap();
    assert_eq!(good.validate_rows(&vars), Ok(()));
    assert_eq!(good.validate_rows(&other), Err(GpError::MalformedDataset));
}

#[test]
fn constants_are_laid_out_row_major_from_the_draws() {
    let draws = vec![1, 2, 3, 4, 5, 6];
    assert_eq!(value_from_draws(Shape::Matrix(2, 3), &draws), Value::Matrix(vec![vec![1, 2, 3], vec![4, 5, 6]]));
    assert_eq!(value_from_draws(Shape::Vector(6), &draws), Value::Vector(draws.clone()));
    assert_eq!(value_from_draws(Shape::Scalar, &vec![-4]), Value::Scalar(-4));
}
