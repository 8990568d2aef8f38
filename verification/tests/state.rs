use hourglass::state::{StateMachine, StateMachineError, StateOp, Transition};

#[derive(Debug, PartialEq, Clone)]
struct MockState {
    label: String,
    counter: u32,
}

impl MockState {
    fn new(label: &str) -> Self {
        MockState {
            label: label.to_string(),
            counter: 0,
        }
    }
}

/// Performs the lifecycle callbacks a machine operation asked for: here
/// the only observable effect is that starting a state bumps its counter.
fn run_ops(machine: &mut StateMachine<MockState>, ops: Vec<StateOp<MockState>>) {
    for op in ops {
        match op {
            StateOp::Start(_index) => {
                if let Ok(state) = machine.active_state_mut() {
                    state.counter += 1;
                }
            }
            StateOp::Stop(_state) => {}
            StateOp::Suspend(_index) => {}
            StateOp::Resume(_index) => {}
        }
    }
}

fn active_label(machine: &StateMachine<MockState>) -> Option<String> {
    machine.active_state().map(|state| state.label.clone())
}

#[test]
fn test_initial_state() {
    let state = MockState::new("TestState");
    let state_machine = StateMachine::new(state);

    assert_eq!(state_machine.is_running(), false);
    assert_eq!(active_label(&state_machine), None);
}

#[test]
fn test_start_state_machine() {
    let state = MockState::new("TestState");
    let mut state_machine = StateMachine::new(state);

    let ops = state_machine.start().unwrap();
    run_ops(&mut state_machine, ops);

    assert_eq!(state_machine.is_running(), true);
    assert_eq!(active_label(&state_machine), Some("TestState".to_string()));
    assert_eq!(state_machine.active_state().unwrap().counter, 1);
}

#[test]
fn test_state_transition() {
    let state = MockState::new("TestState");
    let mut state_machine = StateMachine::new(state);

    let ops = state_machine.start().unwrap();
    run_ops(&mut state_machine, ops);

    let state2 = MockState::new("TestState2");
    let ops = state_machine.transition(Transition::Push(state2));
    run_ops(&mut state_machine, ops);

    assert_eq!(active_label(&state_machine), Some("TestState2".to_string()));

    let ops = state_machine.transition(Transition::Pop);
    run_ops(&mut state_machine, ops);

    assert_eq!(active_label(&state_machine), Some("TestState".to_string()));
}

#[test]
fn test_stop_state_machine() {
    let state = MockState::new("TestState");
    let mut state_machine = StateMachine::new(state);

    let ops = state_machine.start().unwrap();
    run_ops(&mut state_machine, ops);
    let ops = state_machine.stop();
    run_ops(&mut state_machine, ops);

    assert_eq!(state_machine.is_running(), false);
    assert_eq!(active_label(&state_machine), None);
}

#[test]
fn test_stopped_states_are_handed_back() {
    let mut state_machine = StateMachine::new(MockState::new("Bottom"));
    let ops = state_machine.start().unwrap();
    run_ops(&mut state_machine, ops);
    let ops = state_machine.transition(Transition::Push(MockState::new("Top")));
    run_ops(&mut state_machine, ops);

    let ops = state_machine.stop();
    let labels: Vec<String> = ops
        .into_iter()
        .filter_map(|op| match op {
            StateOp::Stop(state) => Some(state.label),
            _ => None,
        })
        .collect();
    assert_eq!(labels, vec!["Top".to_string(), "Bottom".to_string()]);
}

#[test]
fn test_switch_replaces_active_state() {
    let mut state_machine = StateMachine::new(MockState::new("First"));
    let ops = state_machine.start().unwrap();
    run_ops(&mut state_machine, ops);

    let ops = state_machine.transition(Transition::Switch(MockState::new("Second")));
    run_ops(&mut state_machine, ops);

    assert_eq!(active_label(&state_machine), Some("Second".to_string()));
    assert_eq!(state_machine.active_state().unwrap().counter, 1);
}

#[test]
fn test_active_state_requires_a_state() {
    let mut state_machine = StateMachine::new(MockState::new("Only"));
    let ops = state_machine.start().unwrap();
    run_ops(&mut state_machine, ops);
    let ops = state_machine.stop();
    run_ops(&mut state_machine, ops);

    assert_eq!(
        state_machine.active_state_mut().err(),
        Some(StateMachineError::NoStatesPresent)
    );
}

#[test]
fn test_transition_ignored_while_stopped() {
    let mut state_machine = StateMachine::new(MockState::new("Idle"));

    let ops = state_machine.transition(Transition::Push(MockState::new("Ignored")));
    assert!(ops.is_empty());
    assert_eq!(state_machine.is_running(), false);
    assert_eq!(active_label(&state_machine), None);
}
