use rustfmsynth::algorithm::Algorithm;
use rustfmsynth::plan::{AlgorithmError, FeedbackLoop, PlanNode};

fn node(op_index: usize, inputs: Vec<usize>) -> PlanNode {
    PlanNode { op_index, inputs }
}

fn print_structure(algorithm: &Algorithm) {
    println!("Algorithm Structure:");
    for (i, n) in algorithm.get_plan().iter().enumerate() {
        println!("  Node {} -> Operator {} | Inputs: {:?}", i, n.op_index, n.inputs);
    }
    println!("Carriers: {:?}", algorithm.get_carrier_indices());
    println!("Repeat Rules: {:?}", algorithm.get_repeat_rules());
}

#[test]
fn test_simple_self_feedback() {
    println!("\n--- Running test_simple_self_feedback (in-module) ---");
    let num_ops = 1;
    let mut algorithm =
        Algorithm::default_simple(num_ops).expect("Failed to create simple algorithm");

    println!("Initial Structure (1 op, no connections):");
    print_structure(&algorithm);

    let ui_matrix: Vec<Vec<u32>> = vec![vec![1, 1]];

    println!("\nCalling set_matrix with self-feedback [1, 1]...");
    match algorithm.set_matrix(&ui_matrix) {
        Ok(_) => println!("set_matrix call succeeded."),
        Err(e) => {
            println!("set_matrix call failed: {:?}", e);
            panic!("set_matrix failed unexpectedly: {:?}", e);
        }
    }

    println!("\nStructure after set_matrix (Self-Feedback):");
    print_structure(&algorithm);

    let unrolled_nodes = algorithm.get_plan();
    assert_eq!(
        unrolled_nodes.len(),
        2,
        "Expected 2 unrolled nodes for A->A feedback (depth limit 2)"
    );

    if unrolled_nodes.len() == 2 {
        assert_eq!(unrolled_nodes[0].op_index, 0, "Node 0 should be Operator 0");
        assert_eq!(
            unrolled_nodes[0].inputs,
            vec![1],
            "Node 0 should have Node 1 as input"
        );
        assert_eq!(unrolled_nodes[1].op_index, 0, "Node 1 should be Operator 0");
        assert!(
            unrolled_nodes[1].inputs.is_empty(),
            "Node 1 should have no inputs (end of feedback unroll)"
        );
    } else {
        panic!("Node count assertion failed, cannot check node details.");
    }

    assert_eq!(
        algorithm.get_carrier_indices(),
        &vec![0],
        "Carrier should still be Op 0"
    );
    assert!(
        algorithm.get_repeat_rules().is_empty(),
        "set_matrix should clear repeat rules"
    );

    println!("--- Test Finished: test_simple_self_feedback (in-module) ---");
}

#[test]
fn test_set_matrix_with_feedback() {
    println!("\n--- Running test_set_matrix_with_feedback ---");
    let num_ops = 4;
    let mut algorithm = Algorithm::default_fanout_feedback(num_ops).unwrap();
    println!("Initial Structure:");
    print_structure(&algorithm);

    let ui_matrix_feedback_on: Vec<Vec<u32>> = vec![
        vec![1, 0, 0, 0, 1],
        vec![0, 0, 0, 0, 0],
        vec![0, 0, 0, 0, 0],
        vec![0, 0, 0, 0, 0],
    ];

    println!("\nCalling set_matrix with feedback ON...");
    match algorithm.set_matrix(&ui_matrix_feedback_on) {
        Ok(_) => println!("set_matrix call succeeded."),
        Err(e) => {
            println!("set_matrix call failed: {:?}", e);
            panic!("set_matrix failed: {:?}", e);
        }
    }

    println!("\nStructure after set_matrix (Feedback ON):");
    print_structure(&algorithm);
    assert_eq!(
        algorithm.get_plan(),
        &vec![node(0, vec![1]), node(0, vec![])]
    );
    assert_eq!(algorithm.get_carrier_indices(), &vec![0]);
    assert!(algorithm.get_repeat_rules().is_empty());

    let ui_matrix_feedback_off: Vec<Vec<u32>> = vec![
        vec![0, 0, 0, 0, 1],
        vec![0, 0, 0, 0, 0],
        vec![0, 0, 0, 0, 0],
        vec![0, 0, 0, 0, 0],
    ];

    println!("\nCalling set_matrix with feedback OFF...");
    match algorithm.set_matrix(&ui_matrix_feedback_off) {
        Ok(_) => println!("set_matrix call succeeded."),
        Err(e) => {
            println!("set_matrix call failed: {:?}", e);
            panic!("set_matrix failed: {:?}", e);
        }
    }

    println!("\nStructure after set_matrix (Feedback OFF):");
    print_structure(&algorithm);
    assert_eq!(algorithm.get_plan(), &vec![node(0, vec![])]);

    println!("--- Test Finished ---");
}

#[test]
fn fanout_feedback_plan_is_as_documented() {
    let algorithm = Algorithm::default_fanout_feedback(4).unwrap();
    assert_eq!(
        algorithm.get_plan(),
        &vec![
            node(0, vec![1]),
            node(3, vec![]),
            node(1, vec![3, 4]),
            node(2, vec![5]),
            node(3, vec![]),
            node(2, vec![]),
        ]
    );
    assert_eq!(algorithm.get_carrier_indices(), &vec![0, 1]);
    assert_eq!(
        algorithm.get_repeat_rules(),
        &vec![FeedbackLoop { from_node: 3, to_node: 3, count: 1 }]
    );
    assert_eq!(algorithm.length(), 6);
}

#[test]
fn stack_3_feedback_duplicates_the_chain_once() {
    let algorithm = Algorithm::stack_3_feedback(3).unwrap();
    assert_eq!(
        algorithm.get_plan(),
        &vec![
            node(2, vec![1]),
            node(1, vec![2]),
            node(0, vec![3]),
            node(1, vec![4]),
            node(0, vec![]),
        ]
    );
}

#[test]
fn new_refuses_ragged_table_and_wild_carrier() {
    let ragged = vec![vec![false, false], vec![false]];
    assert_eq!(
        Algorithm::new(ragged, vec![0]).err(),
        Some(AlgorithmError::MatrixNotSquare)
    );
    let square = vec![vec![false, false], vec![false, false]];
    assert_eq!(
        Algorithm::new(square, vec![1, 5, 3]).err(),
        Some(AlgorithmError::CarrierOutOfBounds { carrier: 5, operators: 2 })
    );
}

#[test]
fn single_carrier_without_connections_is_one_node() {
    let algorithm = Algorithm::default_simple(1).unwrap();
    assert_eq!(algorithm.get_plan(), &vec![node(0, vec![])]);
    assert_eq!(algorithm.operator_count(), 1);
    assert_eq!(algorithm.get_matrix(), &vec![vec![false]]);
}

#[test]
fn simple_algorithm_without_operators_is_empty() {
    let algorithm = Algorithm::default_simple(0).unwrap();
    assert_eq!(algorithm.length(), 0);
    assert!(algorithm.get_carrier_indices().is_empty());
}

#[test]
fn presets_fall_back_to_simple_when_operators_are_few() {
    assert_eq!(Algorithm::default_stack_2(1).unwrap().get_plan(), &vec![node(0, vec![])]);
    assert_eq!(Algorithm::default_fanout(2).unwrap().length(), 1);
    assert_eq!(Algorithm::default_dual_stack(3).unwrap().length(), 1);
    assert_eq!(Algorithm::stack_3_feedback(2).unwrap().length(), 1);
    assert_eq!(Algorithm::default_fanout_feedback(3).unwrap().length(), 1);
    assert_eq!(Algorithm::default_feedback_1(0).unwrap().length(), 0);
}

#[test]
fn two_operator_stack_puts_the_modulator_behind_the_carrier() {
    let algorithm = Algorithm::default_stack_2(2).unwrap();
    assert_eq!(algorithm.get_plan(), &vec![node(0, vec![1]), node(1, vec![])]);
    assert_eq!(algorithm.get_modulator_indices(0), vec![1]);
    assert_eq!(algorithm.get_modulator_indices(1), Vec::<usize>::new());
    assert_eq!(algorithm.get_modulator_indices(7), Vec::<usize>::new());
}

#[test]
fn dual_stack_and_fanout_duplicate_shared_modulators() {
    let dual = Algorithm::default_dual_stack(4).unwrap();
    assert_eq!(
        dual.get_plan(),
        &vec![node(0, vec![1]), node(2, vec![]), node(1, vec![3]), node(3, vec![])]
    );
    let fanout = Algorithm::default_fanout(3).unwrap();
    assert_eq!(
        fanout.get_plan(),
        &vec![node(0, vec![1]), node(2, vec![]), node(1, vec![3]), node(2, vec![])]
    );
}

#[test]
fn feedback_rule_on_single_operator_chains_a_copy() {
    let algorithm = Algorithm::default_feedback_1(1).unwrap();
    assert_eq!(algorithm.get_plan(), &vec![node(0, vec![1]), node(0, vec![])]);
    let mut twice = Algorithm::default_simple(1).unwrap();
    twice.add_repeat_rule(0, 0, 2);
    assert_eq!(
        twice.get_plan(),
        &vec![node(0, vec![1]), node(0, vec![2]), node(0, vec![])]
    );
}

#[test]
fn feedback_rule_out_of_range_is_skipped() {
    let mut algorithm = Algorithm::default_stack_2(2).unwrap();
    algorithm.add_repeat_rule(5, 0, 1);
    algorithm.add_repeat_rule(0, 9, 3);
    assert_eq!(algorithm.get_plan(), &vec![node(0, vec![1]), node(1, vec![])]);
    assert_eq!(algorithm.get_repeat_rules().len(), 2);
}

#[test]
fn mutual_modulation_unrolls_each_operator_twice() {
    let mut algorithm = Algorithm::default_simple(2).unwrap();
    algorithm.set_connection(1, 0).unwrap();
    algorithm.set_connection(0, 1).unwrap();
    assert_eq!(
        algorithm.get_plan(),
        &vec![node(0, vec![1]), node(1, vec![2]), node(0, vec![3]), node(1, vec![])]
    );
}

#[test]
fn set_connection_refuses_unknown_operator() {
    let mut algorithm = Algorithm::default_simple(2).unwrap();
    assert_eq!(algorithm.set_connection(2, 0), Err(AlgorithmError::OperatorOutOfBounds));
    assert_eq!(algorithm.set_connection(0, 2), Err(AlgorithmError::OperatorOutOfBounds));
    assert_eq!(algorithm.get_plan(), &vec![node(0, vec![])]);
    assert_eq!(algorithm.set_connection(1, 0), Ok(()));
    assert_eq!(algorithm.get_plan(), &vec![node(0, vec![1]), node(1, vec![])]);
}

#[test]
fn set_matrix_refuses_wrong_shape_and_missing_carrier() {
    let mut algorithm = Algorithm::default_stack_2(2).unwrap();
    let before = algorithm.get_plan().clone();
    let empty: Vec<Vec<u32>> = vec![];
    assert_eq!(algorithm.set_matrix(&empty), Err(AlgorithmError::ShapeMismatch));
    assert_eq!(
        algorithm.set_matrix(&vec![vec![0, 0, 1], vec![0, 0]]),
        Err(AlgorithmError::ShapeMismatch)
    );
    assert_eq!(
        algorithm.set_matrix(&vec![vec![0, 0, 1], vec![0, 0, 0], vec![0, 0, 0]]),
        Err(AlgorithmError::ShapeMismatch)
    );
    assert_eq!(
        algorithm.set_matrix(&vec![vec![0, 1, 0], vec![1, 0, 0]]),
        Err(AlgorithmError::NoCarriers)
    );
    assert_eq!(algorithm.get_plan(), &before);
    assert_eq!(algorithm.get_carrier_indices(), &vec![0]);
}

#[test]
fn set_matrix_twice_gives_identical_plans() {
    let table: Vec<Vec<u32>> = vec![
        vec![0, 1, 0, 0, 1],
        vec![0, 0, 1, 0, 0],
        vec![1, 0, 0, 0, 0],
        vec![0, 2, 0, 1, 1],
    ];
    let mut first = Algorithm::default_fanout_feedback(4).unwrap();
    first.set_matrix(&table).unwrap();
    let once = first.get_plan().clone();
    first.set_matrix(&table).unwrap();
    assert_eq!(first.get_plan(), &once);
    let mut second = Algorithm::default_simple(4).unwrap();
    second.set_matrix(&table).unwrap();
    assert_eq!(second.get_plan(), &once);
    assert_eq!(second.get_carrier_indices(), &vec![0, 3]);
    assert_eq!(
        second.get_matrix(),
        &vec![
            vec![false, true, false, false],
            vec![false, false, true, false],
            vec![true, false, false, false],
            vec![false, true, false, true],
        ]
    );
}

#[test]
fn every_carrier_is_run_and_inputs_point_forward() {
    let table: Vec<Vec<u32>> = vec![
        vec![1, 1, 0, 0, 0],
        vec![0, 0, 1, 0, 1],
        vec![1, 0, 0, 1, 0],
        vec![0, 1, 0, 0, 1],
    ];
    let mut algorithm = Algorithm::default_simple(4).unwrap();
    algorithm.set_matrix(&table).unwrap();
    algorithm.add_repeat_rule(1, 0, 2);
    let plan = algorithm.get_plan();
    for carrier in algorithm.get_carrier_indices() {
        assert!(plan.iter().any(|n| n.op_index == *carrier));
    }
    for (i, n) in plan.iter().enumerate() {
        assert!(n.op_index < 4);
        for input in &n.inputs {
            assert!(*input > i && *input < plan.len());
        }
    }
}

#[test]
fn evaluation_order_names_inputs_first() {
    let stack = Algorithm::stack_3_feedback(3).unwrap();
    assert_eq!(stack.evaluation_order(), vec![4, 3, 2, 1, 0]);
    let fanout = Algorithm::default_fanout_feedback(4).unwrap();
    assert_eq!(fanout.evaluation_order(), vec![1, 0, 5, 3, 4, 2]);
    assert_eq!(fanout.carrier_nodes(), vec![0, 2]);
    assert_eq!(Algorithm::default_simple(0).unwrap().evaluation_order(), Vec::<usize>::new());
}

#[test]
fn self_feedback_first_node_is_modulated_second_is_not() {
    let mut algorithm = Algorithm::default_simple(1).unwrap();
    algorithm.set_matrix(&vec![vec![1, 1]]).unwrap();
    assert_eq!(algorithm.evaluation_order(), vec![1, 0]);
    assert_eq!(algorithm.carrier_nodes(), vec![0]);
    assert_eq!(algorithm.get_plan()[0].inputs.len(), 1);
    assert_eq!(algorithm.get_plan()[1].inputs.len(), 0);
}

#[test]
fn finished_asks_every_carrier() {
    let algorithm = Algorithm::default_dual_stack(4).unwrap();
    assert!(algorithm.finished(&[true, true, false, false]));
    assert!(!algorithm.finished(&[true, false, true, true]));
    assert!(!algorithm.finished(&[true]));
    assert!(Algorithm::default_simple(0).unwrap().finished(&[]));
}

#[test]
fn repeated_carrier_is_unrolled_once() {
    let algorithm =
        Algorithm::new(vec![vec![false, false], vec![true, false]], vec![0, 0, 1, 0]).unwrap();
    assert_eq!(
        algorithm.get_plan(),
        &vec![node(0, vec![1]), node(1, vec![]), node(1, vec![])]
    );
    assert_eq!(algorithm.carrier_nodes(), vec![0, 0, 1, 0]);
}

#[test]
fn compiling_the_same_graph_again_gives_the_same_plan_and_order() {
    let first = Algorithm::default_fanout_feedback(4).unwrap();
    let second = Algorithm::default_fanout_feedback(4).unwrap();
    assert_eq!(first.get_plan(), second.get_plan());
    assert_eq!(first.evaluation_order(), second.evaluation_order());
    assert_eq!(first.evaluation_order(), first.evaluation_order());
    assert_eq!(first.carrier_nodes(), second.carrier_nodes());
}
