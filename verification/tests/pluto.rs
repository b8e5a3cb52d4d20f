use vm_proto::engine::module_code;
use vm_proto::{
    AbiStore, Apply, Execute, Mint, Module, Plutocracy, State, Store, TotalSupply, Wire,
};

fn query_archived(state: &Plutocracy, query: &TotalSupply) -> u64 {
    let mut store = AbiStore::new();

    let stored = store.put_bytes(state.encode().as_slice());
    let bytes = store.get_bytes(stored).unwrap();
    let archived = Plutocracy::decode(bytes.as_slice()).unwrap();

    // for test only, arguments should generally not be stored
    let stored_arg = store.put_bytes(query.encode().as_slice());
    let arg_bytes = store.get_bytes(stored_arg).unwrap();
    let archived_arg = TotalSupply::decode(arg_bytes.as_slice()).unwrap();

    Execute::<TotalSupply, AbiStore>::execute(&archived, &archived_arg, &store)
}

#[test]
fn pluto_contract_standalone() {
    let store = AbiStore::new();
    let mut pluto = Plutocracy::new();

    assert_eq!(query_archived(&pluto, &TotalSupply), 0);

    pluto.apply(Mint { amount: 100 }, &store);

    assert_eq!(query_archived(&pluto, &TotalSupply), 100);
}

#[test]
fn pluto_query_deployed_contract() {
    let n = 201;

    let mut state = State::default();
    let store = AbiStore::new();
    let mut pluto = Plutocracy::new();
    pluto.apply(Mint { amount: n }, &store);

    let code = module_code(&Module::Plutocracy);
    let id = state.deploy(pluto, code.as_slice()).unwrap();

    assert_eq!(state.query(id, &TotalSupply).unwrap(), n);
}

#[test]
fn transact_deployed_contract() {
    let mut state = State::default();
    let pluto = Plutocracy::new();
    let code = module_code(&Module::Plutocracy);
    let id = state.deploy(pluto, code.as_slice()).unwrap();

    assert_eq!(state.query(id, &TotalSupply).unwrap(), 0);

    state.apply(id, Mint { amount: 100 }).unwrap();

    assert_eq!(state.query(id, &TotalSupply).unwrap(), 100);
}
