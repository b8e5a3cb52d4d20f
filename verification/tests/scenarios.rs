use vm_proto::engine::module_code;
use vm_proto::{
    ContractId, Counter, Increment, Module, Pop, Push, ReadCount, SmashReturn, SmashState,
    State, Trap, VMError,
};

#[test]
fn counter_scenario() {
    let mut state = State::default();
    let code = module_code(&Module::Counter);
    let id = state.deploy(Counter::new(0), code.as_slice()).unwrap();

    state.apply(id, Increment(5)).unwrap();
    assert_eq!(state.query(id, &ReadCount).unwrap(), 5);
    state.apply(id, Increment(3)).unwrap();
    assert_eq!(state.query(id, &ReadCount).unwrap(), 8);
}

#[test]
fn stack_scenario() {
    let mut state = State::default();
    let code = module_code(&Module::FunLink);
    let id = state.deploy(vm_proto::FunLink::new(), code.as_slice()).unwrap();

    state.apply(id, Push(1)).unwrap();
    state.apply(id, Push(2)).unwrap();
    assert_eq!(state.apply(id, Pop).unwrap(), Some(2));
    assert_eq!(state.apply(id, Pop).unwrap(), Some(1));
    assert_eq!(state.apply(id, Pop).unwrap(), None);
}

#[test]
fn unknown_contract_leaves_registry_unchanged() {
    let mut state = State::default();
    let code = module_code(&Module::Counter);
    let id = state.deploy(Counter::new(7), code.as_slice()).unwrap();
    let before = state.contract_state(id).unwrap();

    let ghost_id = ContractId::from_words(1, 2, 3, 4);
    assert_eq!(state.query(ghost_id, &ReadCount), Err(VMError::UnknownContract));
    assert_eq!(state.apply(ghost_id, Increment(1)), Err(VMError::UnknownContract));

    assert_eq!(state.contract_state(id).unwrap(), before);
    assert_eq!(state.query(id, &ReadCount).unwrap(), 7);
}

#[test]
fn unknown_method() {
    let mut state = State::default();
    let code = module_code(&Module::Counter);
    let id = state.deploy(Counter::new(0), code.as_slice()).unwrap();

    assert_eq!(state.apply(id, Pop), Err(VMError::UnknownMethod));
    assert_eq!(state.query(id, &vm_proto::TotalSupply), Err(VMError::UnknownMethod));
}

#[test]
fn invalid_code() {
    let mut state = State::default();
    let id = state.deploy(Counter::new(0), b"not a module").unwrap();

    assert_eq!(state.query(id, &ReadCount), Err(VMError::InvalidCode));
    assert_eq!(state.apply(id, Increment(1)), Err(VMError::InvalidCode));
}

#[test]
fn trap_leaves_state_untouched() {
    let mut state = State::default();
    let code = module_code(&Module::Counter);
    let id = state.deploy(Counter::new(5), code.as_slice()).unwrap();
    let before = state.contract_state(id).unwrap();

    assert_eq!(
        state.apply(id, Increment(u32::MAX)),
        Err(VMError::ExecutionTrap(Trap::Arithmetic))
    );

    assert_eq!(state.contract_state(id).unwrap(), before);
    assert_eq!(state.query(id, &ReadCount).unwrap(), 5);
}

#[test]
fn corrupt_state_is_not_committed() {
    let mut state = State::default();
    let code = module_code(&Module::Rogue);
    let initial: Option<i32> = Some(11);
    let id = state.deploy(initial, code.as_slice()).unwrap();
    let before = state.contract_state(id).unwrap();

    assert_eq!(state.apply(id, SmashState), Err(VMError::CorruptState));

    assert_eq!(state.contract_state(id).unwrap(), before);
}

#[test]
fn corrupt_return_is_rejected() {
    let mut state = State::default();
    let code = module_code(&Module::Rogue);
    let initial: Option<i32> = None;
    let id = state.deploy(initial, code.as_slice()).unwrap();
    let before = state.contract_state(id).unwrap();

    assert_eq!(state.apply(id, SmashReturn), Err(VMError::CorruptReturn));

    assert_eq!(state.contract_state(id).unwrap(), before);
}

#[test]
fn queries_leave_state_bitwise_unchanged() {
    let mut state = State::default();
    let code = module_code(&Module::Counter);
    let id = state.deploy(Counter::new(42), code.as_slice()).unwrap();
    let before = state.contract_state(id).unwrap();

    let mut i: usize = 0;
    while i < 10 {
        assert_eq!(state.query(id, &ReadCount).unwrap(), 42);
        i += 1;
    }

    assert_eq!(state.contract_state(id).unwrap(), before);
}

#[test]
fn mismatched_state_and_code_traps() {
    let mut state = State::default();
    let code = module_code(&Module::FunLink);
    let id = state.deploy(Counter::new(0), code.as_slice()).unwrap();

    let result = state.apply(id, Push(1));
    assert!(matches!(result, Err(VMError::ExecutionTrap(_))));
}

#[test]
fn pop_reports_through_debug_import() {
    let mut state = State::default();
    let code = module_code(&Module::FunLink);
    let id = state.deploy(vm_proto::FunLink::new(), code.as_slice()).unwrap();

    state.apply(id, Pop).unwrap();

    let entry = state.debug_entry(0).unwrap();
    assert_eq!(entry.as_slice(), b"yolo");
}

#[test]
fn deploys_get_distinct_identifiers() {
    let mut state = State::default();
    let code = module_code(&Module::Counter);
    let a = state.deploy(Counter::new(0), code.as_slice()).unwrap();
    let b = state.deploy(Counter::new(0), code.as_slice()).unwrap();
    assert!(a != b);

    state.apply(a, Increment(5)).unwrap();
    assert_eq!(state.query(a, &ReadCount).unwrap(), 5);
    assert_eq!(state.query(b, &ReadCount).unwrap(), 0);
}
