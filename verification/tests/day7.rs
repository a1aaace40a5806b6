use puzzlegrid::steps::compute_order;
use puzzlegrid::steps::parse_dependencies;
use puzzlegrid::steps::simulate;
use puzzlegrid::steps::StepsError;

fn example_lines() -> Vec<String> {
    [
        "Step C must be finished before step A can begin.",
        "Step C must be finished before step F can begin.",
        "Step A must be finished before step B can begin.",
        "Step A must be finished before step D can begin.",
        "Step B must be finished before step E can begin.",
        "Step D must be finished before step E can begin.",
        "Step F must be finished before step E can begin.",
    ]
    .iter()
    .map(|s| s.to_string())
    .collect()
}

#[test]
fn day7_test() {
    let (steps, deps) = parse_dependencies(&example_lines()).unwrap();
    let time = simulate(steps, &deps, 2, 0);
    assert_eq!(time, 15);
}

#[test]
fn order_is_alphabetical_among_ready_steps() {
    let (steps, deps) = parse_dependencies(&example_lines()).unwrap();
    assert_eq!(compute_order(steps, &deps).unwrap(), "CABDFE");
}

#[test]
fn malformed_line_is_rejected() {
    let lines: Vec<String> = ["Step C must happen first".to_string()].to_vec();
    assert_eq!(parse_dependencies(&lines), Err(StepsError::BadLine));
}

#[test]
fn cyclic_dependencies_are_reported() {
    let lines: Vec<String> = [
        "Step A must be finished before step B can begin.",
        "Step B must be finished before step A can begin.",
    ]
    .iter()
    .map(|s| s.to_string())
    .collect();
    let (steps, deps) = parse_dependencies(&lines).unwrap();
    assert_eq!(compute_order(steps, &deps), Err(StepsError::Cycle));
}
