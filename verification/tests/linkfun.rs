use vm_proto::engine::module_code;
use vm_proto::{AbiStore, Apply, FunLink, Module, Pop, Push, State};

const N: i32 = 1;

#[test]
fn linkfun_contract_standalone() {
    let store = AbiStore::new();
    let mut fun = FunLink::new();

    assert_eq!(fun.apply(Pop, &store), None);

    for i in 0..N {
        fun.apply(Push(i), &store);
    }

    for i in 0..N {
        assert_eq!(fun.apply(Pop, &store), Some(N - i - 1));
    }

    assert_eq!(fun.apply(Pop, &store), None);
}

#[test]
fn linkfun_query_deployed_contract() {
    let mut state = State::default();
    let fun = FunLink::new();
    let code = module_code(&Module::FunLink);

    let id = state.deploy(fun, code.as_slice()).unwrap();

    assert_eq!(state.apply(id, Pop).unwrap(), None);

    for i in 0..N {
        state.apply(id, Push(i)).unwrap();
    }

    for i in 0..N {
        assert_eq!(state.apply(id, Pop).unwrap(), Some(N - i - 1));
    }

    assert_eq!(state.apply(id, Pop).unwrap(), None);
}
