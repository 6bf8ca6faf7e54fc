use advent::schedule::cost;
use advent::schedule::serial_walk;
use advent::schedule::simulate;
use advent::schedule::Instruction;
use advent::schedule::TaskGraph;

fn get_instructions() -> Vec<Instruction> {
    vec![
        Instruction::new("A", "C"), // Step C must be finished before step A can begin.
        Instruction::new("F", "C"), // Step C must be finished before step F can begin.
        Instruction::new("B", "A"), // Step A must be finished before step B can begin.
        Instruction::new("D", "A"), // Step A must be finished before step D can begin.
        Instruction::new("E", "B"), // Step B must be finished before step E can begin.
        Instruction::new("E", "D"), // Step D must be finished before step E can begin.
        Instruction::new("E", "F"), // Step F must be finished before step E can begin.
    ]
}

#[test]
fn main_build_graph_test() {
    let instructions = get_instructions();
    let graph = TaskGraph::build(&instructions);

    for i in 0..graph.len() {
        let succ_count = graph.successors(i).len();
        match graph.name(i).as_str() {
            "A" => assert_eq!(2, succ_count),
            "B" => assert_eq!(1, succ_count),
            "C" => assert_eq!(2, succ_count),
            "D" => assert_eq!(1, succ_count),
            "E" => assert_eq!(0, succ_count),
            "F" => assert_eq!(1, succ_count),
            _ => panic!("unexpected node"),
        }
    }
}

#[test]
fn main_walk_node_test() {
    let instructions = get_instructions();
    let graph = TaskGraph::build(&instructions);
    assert_eq!("CABDFE", serial_walk(&graph).unwrap());
}

#[test]
fn calc_cost_test() {
    assert_eq!(61, cost("A", 60));
    assert_eq!(86, cost("Z", 60));
}

#[test]
fn walk_node2_test() {
    let instructions = get_instructions();
    let graph = TaskGraph::build(&instructions);
    assert_eq!((15, "CABFDE".to_string()), simulate(&graph, 2, 0).unwrap());
}

#[test]
fn single_worker_matches_serial_test() {
    let instructions = get_instructions();
    let graph = TaskGraph::build(&instructions);
    let serial = serial_walk(&graph).unwrap();
    let (total, order) = simulate(&graph, 1, 0).unwrap();
    assert_eq!(serial, order);
    assert_eq!(21, total);
}

#[test]
fn cycle_stalls_test() {
    let instructions = vec![Instruction::new("B", "A"), Instruction::new("A", "B")];
    let graph = TaskGraph::build(&instructions);
    assert!(serial_walk(&graph).is_err());
    assert!(simulate(&graph, 2, 0).is_err());
}

#[test]
fn repeated_runs_agree_test() {
    let instructions = get_instructions();
    let graph = TaskGraph::build(&instructions);
    assert_eq!(serial_walk(&graph), serial_walk(&graph));
    assert_eq!(simulate(&graph, 2, 0), simulate(&graph, 2, 0));
    assert_eq!(simulate(&graph, 4, 60), simulate(&graph, 4, 60));
}

#[test]
fn frontier_order_test() {
    let instructions = get_instructions();
    let graph = TaskGraph::build(&instructions);
    let mut frontier = graph.initial_frontier();
    assert!(!frontier.is_empty());
    let first = frontier.pop_smallest(&graph);
    assert_eq!("C", graph.name(first).as_str());
    assert!(frontier.is_empty());
}
