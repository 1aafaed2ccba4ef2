use note_automaton::{Automaton, ConstructionError, Note, RunResult, State, Symbol, Transition};

fn note(pitch: u8, velocity: u8, duration: u8) -> Note {
    Note { pitch, velocity, duration }
}

fn state(name: &str, edges: Vec<(Symbol, usize, Note)>) -> State {
    State {
        name: name.to_string(),
        transitions: edges
            .into_iter()
            .map(|(s, next_state, note)| (s, Transition { next_state, note }))
            .collect(),
    }
}

fn run(a: &Automaton, text: &str) -> (bool, usize, Vec<Note>) {
    let r: RunResult = a.run(&Symbol::from(text));
    (r.accepted, r.consumed, r.emissions)
}

fn single_edge() -> Automaton {
    let s0 = state("s0", vec![(Symbol::Letter('a'), 1, note(60, 100, 200))]);
    let s1 = state("s1", vec![]);
    Automaton::build(vec![s0, s1], 0, vec![1]).unwrap()
}

fn two_epsilon_branches() -> Automaton {
    let s0 = state("s0", vec![(Symbol::Epsilon, 1, note(1, 1, 1))]);
    let s1 = state(
        "s1",
        vec![(Symbol::Epsilon, 2, note(1, 1, 1)), (Symbol::Letter('x'), 3, note(40, 80, 100))],
    );
    let s2 = state("s2", vec![(Symbol::Letter('x'), 3, note(50, 80, 100))]);
    let s3 = state("s3", vec![]);
    Automaton::build(vec![s0, s1, s2, s3], 0, vec![3]).unwrap()
}

/// States 0 -ε-> 1 -ε-> 2 -ε-> 0 form a cycle; 3 -ε-> 4 stands apart.
fn epsilon_cycle() -> Automaton {
    let n = note(10, 10, 10);
    let s0 = state("s0", vec![(Symbol::Epsilon, 1, n), (Symbol::Letter('a'), 3, note(20, 20, 20))]);
    let s1 = state("s1", vec![(Symbol::Epsilon, 2, n)]);
    let s2 = state("s2", vec![(Symbol::Epsilon, 0, n), (Symbol::Letter('a'), 0, note(30, 30, 30))]);
    let s3 = state("s3", vec![(Symbol::Epsilon, 4, n)]);
    let s4 = state("s4", vec![]);
    Automaton::build(vec![s0, s1, s2, s3, s4], 0, vec![4]).unwrap()
}

#[test]
fn single_edge_accepts_a() {
    let a = single_edge();
    assert_eq!(run(&a, "a"), (true, 1, vec![note(60, 100, 200)]));
}

#[test]
fn single_edge_rejects_b_without_consuming() {
    let a = single_edge();
    assert_eq!(run(&a, "b"), (false, 0, vec![]));
}

#[test]
fn single_edge_rejects_empty_input() {
    let a = single_edge();
    assert_eq!(run(&a, ""), (false, 0, vec![]));
}

#[test]
fn single_edge_rejects_after_consuming_a() {
    let a = single_edge();
    assert_eq!(run(&a, "aa"), (false, 1, vec![note(60, 100, 200)]));
}

#[test]
fn epsilon_branches_emit_in_ascending_source_order() {
    let a = two_epsilon_branches();
    assert_eq!(run(&a, "x"), (true, 1, vec![note(40, 80, 100), note(50, 80, 100)]));
}

#[test]
fn epsilon_cycle_run_terminates_and_collects_all_edges() {
    let a = epsilon_cycle();
    assert_eq!(
        run(&a, "a"),
        (true, 1, vec![note(20, 20, 20), note(30, 30, 30)])
    );
    assert_eq!(run(&a, ""), (false, 0, vec![]));
}

#[test]
fn runs_twice_give_identical_results() {
    let a = two_epsilon_branches();
    let input = Symbol::from("xx");
    let r1 = a.run(&input);
    let r2 = a.run(&input);
    assert_eq!(r1.accepted, r2.accepted);
    assert_eq!(r1.consumed, r2.consumed);
    assert_eq!(r1.emissions, r2.emissions);
    assert_eq!((r1.accepted, r1.consumed), (false, 1));
}

#[test]
fn closure_follows_epsilon_cycle() {
    let a = epsilon_cycle();
    assert_eq!(a.epsilon_closure(&vec![0]), vec![0, 1, 2]);
    assert_eq!(a.epsilon_closure(&vec![2]), vec![0, 1, 2]);
    assert_eq!(a.epsilon_closure(&vec![3]), vec![3, 4]);
    assert_eq!(a.epsilon_closure(&vec![4, 1]), vec![0, 1, 2, 4]);
    assert_eq!(a.epsilon_closure(&vec![]), Vec::<usize>::new());
}

#[test]
fn closure_is_idempotent() {
    let a = epsilon_cycle();
    for seed in [vec![0], vec![3], vec![1, 3], vec![4]] {
        let once = a.epsilon_closure(&seed);
        let twice = a.epsilon_closure(&once);
        assert_eq!(once, twice);
    }
}

#[test]
fn build_rejects_dangling_destination() {
    let s0 = state("s0", vec![(Symbol::Letter('a'), 2, note(60, 100, 200))]);
    let s1 = state("s1", vec![]);
    assert_eq!(
        Automaton::build(vec![s0, s1], 0, vec![1]).err(),
        Some(ConstructionError::DanglingIndex)
    );
}

#[test]
fn build_rejects_dangling_start_and_accepting() {
    let mk = || vec![state("s0", vec![]), state("s1", vec![])];
    assert_eq!(Automaton::build(mk(), 2, vec![1]).err(), Some(ConstructionError::DanglingIndex));
    assert_eq!(Automaton::build(mk(), 0, vec![5]).err(), Some(ConstructionError::DanglingIndex));
    assert_eq!(Automaton::build(vec![], 0, vec![]).err(), Some(ConstructionError::DanglingIndex));
}

#[test]
fn build_rejects_note_out_of_range() {
    let pitch = state("s0", vec![(Symbol::Letter('a'), 0, note(128, 100, 200))]);
    assert_eq!(
        Automaton::build(vec![pitch], 0, vec![]).err(),
        Some(ConstructionError::EmissionOutOfRange)
    );
    let duration = state("s0", vec![(Symbol::Letter('a'), 0, note(60, 100, 0))]);
    assert_eq!(
        Automaton::build(vec![duration], 0, vec![]).err(),
        Some(ConstructionError::EmissionOutOfRange)
    );
}

#[test]
fn build_reports_dangling_before_range() {
    let s0 = state("s0", vec![(Symbol::Letter('a'), 9, note(128, 100, 0))]);
    assert_eq!(
        Automaton::build(vec![s0], 0, vec![]).err(),
        Some(ConstructionError::DanglingIndex)
    );
}

#[test]
fn build_rejects_two_edges_on_one_symbol() {
    let s0 = state(
        "s0",
        vec![
            (Symbol::Letter('a'), 0, note(60, 100, 200)),
            (Symbol::Letter('a'), 0, note(61, 100, 200)),
        ],
    );
    assert_eq!(
        Automaton::build(vec![s0], 0, vec![]).err(),
        Some(ConstructionError::DuplicateEdge)
    );
}

#[test]
fn lookups_on_built_automaton() {
    let a = single_edge();
    assert!(a.is_accepting(1));
    assert!(!a.is_accepting(0));
    assert!(!a.is_accepting(7));
    assert_eq!(
        a.edge(0, Symbol::Letter('a')),
        Some(Transition { next_state: 1, note: note(60, 100, 200) })
    );
    assert_eq!(a.edge(0, Symbol::Letter('b')), None);
    assert_eq!(a.edge(1, Symbol::Letter('a')), None);
}
