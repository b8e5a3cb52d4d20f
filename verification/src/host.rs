//! The contract registry and the host side of the calling convention.
//!
//! [`State`] maps contract identifiers to deployed instances.  A call builds
//! a fresh memory image (state, then argument, then a zeroed return slot),
//! invokes the named export, and believes nothing that comes back until it
//! has been structurally validated.  A mutating call replaces the stored
//! state wholesale, and only after the full round trip succeeded: a failed
//! call never touches it.

use crate::abi::{AbiStore, DebugLog};
use crate::counter::{lemma_counter_accepts, Counter, Increment};
use crate::definitions::{ContractId, Query, RootState, Store, Transaction};
use crate::engine::{
    check_state, invoke_query, invoke_transaction, mem_read, module_of_code, spec_has_query,
    spec_has_transaction, spec_method_ready, spec_module_of_code, spec_query_ready,
    spec_query_ret_len, spec_ret_plausible, spec_state_ok, spec_transaction_ready,
    spec_transaction_ret_len, InvokeError, Module, Trap,
};
use crate::funlink::Push;
use crate::linked_list::spec_node_len;
use crate::plutocracy::{lemma_plutocracy_accepts, Mint, Plutocracy};
use crate::wire::{lemma_option_i32_canonical, Wire};
use vstd::prelude::*;
use vstd::string::StringSliceAdditionalSpecFns;

verus! {

/// Everything a call on the registry can fail with.  The taxonomy keeps a
/// malformed or missing target, guest misbehavior, and storage failure
/// distinguishable.
#[derive(PartialEq, Eq, Structural, Clone, Copy, Debug)]
pub enum VMError {
    /// The identifier names no deployed contract.
    UnknownContract,
    /// The module has no export under the method's name.
    UnknownMethod,
    /// The code bytes failed to instantiate.
    InvalidCode,
    /// The guest faulted during execution; carries the guest diagnostic.
    ExecutionTrap(Trap),
    /// The bytes in the return slot did not validate.
    CorruptReturn,
    /// The state bytes read back did not validate.
    CorruptState,
    /// The backing store refused the state.
    StoreError,
    /// A deploy collided with an already-registered identifier.
    DuplicateContract,
}

/// One deployed contract: immutable code bytes and the current serialized
/// root-state buffer.  Code never changes after deploy; state is replaced
/// wholesale after each successful mutating call.
struct ContractInstance {
    id: ContractId,
    code: Vec<u8>,
    state: Vec<u8>,
}

impl ContractInstance {
    fn id(&self) -> (r: ContractId)
        ensures
            r == self.id,
    {
        self.id
    }
}

/// What the registry knows about an identifier: the code and state bytes of
/// the first instance carrying it.
spec fn spec_lookup(s: Seq<ContractInstance>, id: ContractId) -> Option<(Seq<u8>, Seq<u8>)>
    decreases s.len(),
{
    if s.len() == 0 {
        None
    } else if s[0].id == id {
        Some((s[0].code@, s[0].state@))
    } else {
        spec_lookup(s.drop_first(), id)
    }
}

/// The contract registry: maps a contract identifier to its immutable code
/// and current serialized state, and orchestrates deploy, query and apply
/// through the marshaller.
pub struct State {
    contracts: Vec<ContractInstance>,
    store: AbiStore,
    nonce: u64,
    log: DebugLog,
}

impl State {
    /// Whether a contract is registered under this identifier.
    pub closed spec fn spec_has(self, id: ContractId) -> bool {
        spec_lookup(self.contracts@, id) is Some
    }

    /// The registered code bytes.
    pub closed spec fn spec_code_of(self, id: ContractId) -> Seq<u8> {
        spec_lookup(self.contracts@, id)->Some_0.0
    }

    /// The current serialized state bytes.
    pub closed spec fn spec_state_of(self, id: ContractId) -> Seq<u8> {
        spec_lookup(self.contracts@, id)->Some_0.1
    }

    /// The shared backing store's contents.
    pub closed spec fn spec_store(self) -> Seq<u8> {
        self.store.contents()
    }

    /// The deployment nonce the next deploy will use.
    pub closed spec fn spec_nonce(self) -> u64 {
        self.nonce
    }

    /// Every stored state buffer fits the 32-bit offset arithmetic of the
    /// calling convention.
    pub closed spec fn wf(self) -> bool {
        forall|i: int|
            0 <= i < self.contracts@.len() ==> (#[trigger] self.contracts@[i]).state@.len()
                <= 0x0010_0000
    }
}

/// Two registries bind exactly the same identifiers to exactly the same code
/// and state bytes.
pub open spec fn spec_same_contracts(a: State, b: State) -> bool {
    &&& forall|id: ContractId| #[trigger] a.spec_has(id) == b.spec_has(id)
    &&& forall|id: ContractId|
        #[trigger] a.spec_has(id) ==> a.spec_state_of(id) == b.spec_state_of(id)
            && a.spec_code_of(id) == b.spec_code_of(id)
}

impl Default for State {
    fn default() -> (r: State)
        ensures
            r.wf(),
            forall|id: ContractId| !(#[trigger] r.spec_has(id)),
            r.spec_store() == Seq::<u8>::empty(),
            r.spec_nonce() == 0,
    {
        State {
            contracts: Vec::new(),
            store: AbiStore::new(),
            nonce: 0,
            log: DebugLog::new(),
        }
    }
}

/// The fold the registry hashes code bytes with when deriving identifiers.
spec fn spec_fnv(s: Seq<u8>, acc: u64) -> u64
    decreases s.len(),
{
    if s.len() == 0 {
        acc
    } else {
        spec_fnv(
            s.drop_first(),
            vstd::wrapping::u64_specs::wrapping_mul(acc ^ (s[0] as u64), 0x100000001b3),
        )
    }
}

/// The identifier a deploy with this code and nonce is assigned: a hash of
/// the code bytes combined with the deployment nonce.  The derivation scheme
/// is a policy of the registry, not part of its interface; all that callers
/// rely on is that it is deterministic.
pub closed spec fn spec_derive_id(code: Seq<u8>, nonce: u64) -> ContractId {
    let h = spec_fnv(code, 0xcbf29ce484222325);
    ContractId::spec_of(h, nonce, code.len() as u64, h ^ nonce)
}

/// Derives the identifier for a deployment.
fn derive_id(code: &[u8], nonce: u64) -> (r: ContractId)
    ensures
        r == spec_derive_id(code@, nonce),
{
    let mut acc: u64 = 0xcbf29ce484222325;
    let n = code.len();
    let mut i: usize = 0;
    proof {
        assert(code@.skip(0) =~= code@);
    }
    while i < n
        invariant
            i <= n,
            code@.len() == n,
            spec_fnv(code@.skip(i as int), acc) == spec_fnv(code@, 0xcbf29ce484222325),
        decreases n - i,
    {
        let b = *vstd::slice::slice_index_get(code, i);
        proof {
            let rest = code@.skip(i as int);
            assert(rest[0] == code@[i as int]);
            assert(rest.drop_first() =~= code@.skip(i as int + 1));
        }
        acc = (acc ^ (b as u64)).wrapping_mul(0x100000001b3);
        i = i + 1;
    }
    proof {
        assert(code@.skip(n as int) =~= Seq::<u8>::empty());
    }
    ContractId::from_words(acc, nonce, code.len() as u64, acc ^ nonce)
}

impl State {
    /// Looks an identifier up; `Some` exactly when a contract is registered
    /// under it, and then the index found is the binding the views speak of.
    fn find(&self, id: ContractId) -> (r: Option<usize>)
        ensures
            r matches Some(i) ==> {
                &&& i < self.contracts@.len()
                &&& self.contracts@[i as int].id == id
                &&& self.spec_has(id)
                &&& self.spec_code_of(id) == self.contracts@[i as int].code@
                &&& self.spec_state_of(id) == self.contracts@[i as int].state@
                &&& forall|j: int| 0 <= j < i ==> self.contracts@[j].id != id
            },
            r is None ==> !self.spec_has(id),
    {
        let n = self.contracts.len();
        let mut i: usize = 0;
        proof {
            assert(self.contracts@.skip(0) =~= self.contracts@);
        }
        while i < n
            invariant
                i <= n,
                self.contracts@.len() == n,
                spec_lookup(self.contracts@.skip(i as int), id) == spec_lookup(
                    self.contracts@,
                    id,
                ),
                forall|j: int| 0 <= j < i ==> self.contracts@[j].id != id,
            decreases n - i,
        {
            proof {
                let rest = self.contracts@.skip(i as int);
                assert(rest[0] == self.contracts@[i as int]);
                assert(rest.drop_first() =~= self.contracts@.skip(i as int + 1));
            }
            if self.contracts[i].id() == id {
                return Some(i);
            }
            i = i + 1;
        }
        proof {
            assert(self.contracts@.skip(n as int) =~= Seq::<ContractInstance>::empty());
        }
        None
    }

    /// Deploys a contract: assigns an identifier from the code and the
    /// deployment nonce, archives the initial state, and registers the
    /// instance.  An identifier collision is refused; nothing else in the
    /// registry changes either way.
    pub fn deploy<T: RootState<AbiStore>>(&mut self, state: T, code: &[u8]) -> (r: Result<
        ContractId,
        VMError,
    >)
        requires
            old(self).wf(),
        ensures
            final(self).wf(),
            old(self).spec_store().is_prefix_of(final(self).spec_store()),
            (r == Err::<ContractId, VMError>(VMError::DuplicateContract)) == old(self).spec_has(
                spec_derive_id(code@, old(self).spec_nonce()),
            ),
            r is Err ==> spec_same_contracts(*old(self), *final(self)),
            r is Err ==> r == Err::<ContractId, VMError>(VMError::DuplicateContract) || r
                == Err::<ContractId, VMError>(VMError::StoreError),
            r matches Ok(id) ==> {
                &&& id == spec_derive_id(code@, old(self).spec_nonce())
                &&& !old(self).spec_has(id)
                &&& final(self).spec_has(id)
                &&& final(self).spec_code_of(id) == code@
                &&& final(self).spec_state_of(id).len() <= 0x0010_0000
                &&& state.spec_persisted(
                    old(self).spec_store(),
                    final(self).spec_store(),
                    final(self).spec_state_of(id),
                )
                &&& forall|o: ContractId|
                    o != id ==> #[trigger] old(self).spec_has(o) == final(self).spec_has(o)
                &&& forall|o: ContractId|
                    o != id && #[trigger] old(self).spec_has(o) ==> final(self).spec_state_of(o)
                        == old(self).spec_state_of(o) && final(self).spec_code_of(o) == old(
                        self,
                    ).spec_code_of(o)
            },
            r == Err::<ContractId, VMError>(VMError::StoreError) ==> !state.spec_can_persist(
                old(self).spec_store(),
            ) || old(self).spec_store().len() + state.spec_persist_budget() > u32::MAX,
    {
        let id = derive_id(code, self.nonce);
        proof {
            lemma_prefix_refl(self.store.contents());
        }
        if self.find(id).is_some() {
            return Err(VMError::DuplicateContract);
        }
        let bytes = match state.persist_state(&mut self.store) {
            Some(b) => b,
            None => {
                return Err(VMError::StoreError);
            },
        };
        let ghost pre = *self;
        let instance = ContractInstance {
            id,
            code: vstd::slice::slice_to_vec(code),
            state: bytes,
        };
        self.contracts.push(instance);
        self.nonce = self.nonce.wrapping_add(1);
        proof {
            assert(self.contracts@.drop_last() =~= pre.contracts@);
            lemma_lookup_push(pre.contracts@, self.contracts@[pre.contracts@.len() as int], id);
        }
        Ok(id)
    }

    /// Answers a read-only method on a deployed contract.  The registry is
    /// only borrowed: no sequence of queries can change any stored state,
    /// bit for bit, nor the backing store.
    pub fn query<Q: Query>(&self, id: ContractId, arg: &Q) -> (r: Result<Q::Return, VMError>)
        requires
            self.wf(),
        ensures
            (r == Err::<Q::Return, VMError>(VMError::UnknownContract)) == !self.spec_has(id),
            self.spec_has(id) ==> (match spec_module_of_code(self.spec_code_of(id)) {
                None => r == Err::<Q::Return, VMError>(VMError::InvalidCode),
                Some(m) => {
                    &&& ((r == Err::<Q::Return, VMError>(VMError::UnknownMethod))
                        == !spec_has_query(m, Q::spec_name()))
                    &&& (r is Ok ==> spec_has_query(m, Q::spec_name()))
                },
            }),
            (self.spec_has(id) && (match spec_module_of_code(self.spec_code_of(id)) {
                Some(m) => {
                    &&& spec_has_query(m, Q::spec_name())
                    &&& spec_state_ok(m, self.spec_state_of(id), self.spec_store())
                    &&& <Q::Return as Wire>::spec_wire_len() == spec_query_ret_len(m)
                    &&& (forall|b: Seq<u8>|
                        b.len() == spec_query_ret_len(m) ==> (#[trigger] <Q::Return as Wire>::of_wire(
                            b,
                        )) is Some)
                },
                None => false,
            })) ==> r is Ok,
            (r is Ok && spec_module_of_code(self.spec_code_of(id)) == Some(Module::Counter)
                && Counter::of_wire(self.spec_state_of(id)) is Some
                && <Q::Return as Wire>::spec_wire_len() == 4) ==> Some(r->Ok_0)
                == <Q::Return as Wire>::of_wire(
                Counter::of_wire(self.spec_state_of(id))->Some_0.spec_value().to_wire(),
            ),
            (r is Ok && spec_module_of_code(self.spec_code_of(id)) == Some(Module::Plutocracy)
                && Plutocracy::of_wire(self.spec_state_of(id)) is Some
                && <Q::Return as Wire>::spec_wire_len() == 8) ==> Some(r->Ok_0)
                == <Q::Return as Wire>::of_wire(
                Plutocracy::of_wire(self.spec_state_of(id))->Some_0.spec_treasury().to_wire(),
            ),
    {
        let i = match self.find(id) {
            Some(i) => i,
            None => {
                return Err(VMError::UnknownContract);
            },
        };
        let m = match module_of_code(self.contracts[i].code.as_slice()) {
            Some(m) => m,
            None => {
                return Err(VMError::InvalidCode);
            },
        };
        let state_len = self.contracts[i].state.len();
        let arg_bytes = arg.encode();
        proof {
            Q::lemma_wire_len_bound();
            <Q::Return as Wire>::lemma_wire_len_bound();
            arg.lemma_wire_len();
        }
        let ret_len = <Q::Return as Wire>::wire_len();
        let arg_ofs = state_len;
        let ret_ofs = state_len + arg_bytes.len();
        let mut mem: Vec<u8> = Vec::new();
        mem.extend_from_slice(self.contracts[i].state.as_slice());
        mem.extend_from_slice(arg_bytes.as_slice());
        let zeros = vec![0u8; ret_len];
        mem.extend_from_slice(zeros.as_slice());
        proof {
            let st = self.spec_state_of(id);
            if spec_state_ok(m, st, self.spec_store()) && <Q::Return as Wire>::spec_wire_len()
                == spec_query_ret_len(m) {
                match m {
                    Module::Counter => {
                        lemma_counter_accepts(st);
                        assert(mem@.subrange(0, 4) =~= st);
                    },
                    Module::Plutocracy => {
                        lemma_plutocracy_accepts(st);
                        assert(mem@.subrange(0, 8) =~= st);
                    },
                    Module::FunLink => {},
                    Module::Rogue => {},
                }
            }
        }
        let mut log = DebugLog::new();
        let ghost m0 = mem@;
        let res = invoke_query(
            &m,
            Q::name(),
            &mut mem,
            &self.store,
            &mut log,
            0u32,
            arg_ofs as u32,
            ret_ofs as u32,
        );
        match res {
            Err(InvokeError::NoExport) => Err(VMError::UnknownMethod),
            Err(InvokeError::Trapped(t)) => Err(VMError::ExecutionTrap(t)),
            Ok(()) => {
                let ret_bytes = match mem_read(&mem, ret_ofs as u32, ret_len) {
                    Some(b) => b,
                    None => {
                        return Err(VMError::CorruptReturn);
                    },
                };
                proof {
                    let st = self.spec_state_of(id);
                    if m == Module::Counter && Counter::of_wire(st) is Some
                        && <Q::Return as Wire>::spec_wire_len() == 4 {
                        lemma_counter_accepts(st);
                        assert(m0.subrange(0, 4) =~= st);
                        let value = Counter::of_wire(st)->Some_0.spec_value();
                        value.lemma_wire_len();
                        assert(ret_bytes@ =~= value.to_wire());
                    }
                    if m == Module::Plutocracy && Plutocracy::of_wire(st) is Some
                        && <Q::Return as Wire>::spec_wire_len() == 8 {
                        lemma_plutocracy_accepts(st);
                        assert(m0.subrange(0, 8) =~= st);
                        let value = Plutocracy::of_wire(st)->Some_0.spec_treasury();
                        value.lemma_wire_len();
                        assert(ret_bytes@ =~= value.to_wire());
                    }
                }
                match <Q::Return as Wire>::decode(ret_bytes.as_slice()) {
                    Some(v) => Ok(v),
                    None => Err(VMError::CorruptReturn),
                }
            },
        }
    }

    /// Applies a mutating method to a deployed contract.  The new state is
    /// committed only after the full round trip (write, invoke, validate)
    /// succeeded, and the replacement is all-or-nothing: any failure leaves
    /// every stored state byte-identical to before.
    pub fn apply<T: Transaction>(&mut self, id: ContractId, transaction: T) -> (r: Result<
        T::Return,
        VMError,
    >)
        requires
            old(self).wf(),
        ensures
            final(self).wf(),
            old(self).spec_store().is_prefix_of(final(self).spec_store()),
            (r == Err::<T::Return, VMError>(VMError::UnknownContract)) == !old(self).spec_has(
                id,
            ),
            r is Err ==> spec_same_contracts(*old(self), *final(self)),
            old(self).spec_has(id) ==> (match spec_module_of_code(old(self).spec_code_of(id)) {
                None => r == Err::<T::Return, VMError>(VMError::InvalidCode),
                Some(m) => {
                    &&& ((r == Err::<T::Return, VMError>(VMError::UnknownMethod))
                        == !spec_has_transaction(m, T::spec_name()))
                    &&& (r is Ok ==> {
                        &&& spec_has_transaction(m, T::spec_name())
                        &&& final(self).spec_has(id)
                        &&& final(self).spec_code_of(id) == old(self).spec_code_of(id)
                        &&& final(self).spec_state_of(id).len() == old(self).spec_state_of(
                            id,
                        ).len()
                        &&& spec_state_ok(
                            m,
                            final(self).spec_state_of(id),
                            final(self).spec_store(),
                        )
                        &&& forall|o: ContractId|
                            #![trigger old(self).spec_has(o)]
                            o != id ==> old(self).spec_has(o) == final(self).spec_has(o)
                        &&& forall|o: ContractId|
                            #![trigger old(self).spec_has(o)]
                            o != id && old(self).spec_has(o) ==> final(self).spec_state_of(o)
                                == old(self).spec_state_of(o) && final(self).spec_code_of(o)
                                == old(self).spec_code_of(o)
                    })
                },
            }),
            (old(self).spec_has(id) && (match spec_module_of_code(old(self).spec_code_of(id)) {
                Some(m) => {
                    &&& spec_has_transaction(m, T::spec_name())
                    &&& spec_method_ready(
                        m,
                        T::spec_name(),
                        old(self).spec_state_of(id),
                        transaction.to_wire(),
                        old(self).spec_store(),
                    )
                    &&& <T::Return as Wire>::spec_wire_len() == spec_transaction_ret_len(
                        m,
                        T::spec_name(),
                    )
                    &&& (forall|b: Seq<u8>|
                        b.len() == spec_transaction_ret_len(m, T::spec_name())
                            && spec_ret_plausible(m, T::spec_name(), b) ==> (
                        #[trigger] <T::Return as Wire>::of_wire(b)) is Some)
                },
                None => false,
            })) ==> r is Ok,
            ({
                &&& r is Ok
                &&& spec_module_of_code(old(self).spec_code_of(id)) == Some(Module::Counter)
                &&& Counter::of_wire(old(self).spec_state_of(id)) is Some
                &&& Increment::of_wire(transaction.to_wire()) is Some
                &&& Counter::of_wire(old(self).spec_state_of(id))->Some_0.spec_value()
                    + Increment::of_wire(transaction.to_wire())->Some_0.0 <= u32::MAX
            }) ==> final(self).spec_state_of(id) == ((Counter::of_wire(
                old(self).spec_state_of(id),
            )->Some_0.spec_value() + Increment::of_wire(transaction.to_wire())->Some_0.0)
                as u32).to_wire(),
            ({
                &&& r is Ok
                &&& spec_module_of_code(old(self).spec_code_of(id)) == Some(Module::Plutocracy)
                &&& Plutocracy::of_wire(old(self).spec_state_of(id)) is Some
                &&& Mint::of_wire(transaction.to_wire()) is Some
                &&& Plutocracy::of_wire(old(self).spec_state_of(id))->Some_0.spec_treasury()
                    + Mint::of_wire(transaction.to_wire())->Some_0.amount <= u64::MAX
            }) ==> final(self).spec_state_of(id) == ((Plutocracy::of_wire(
                old(self).spec_state_of(id),
            )->Some_0.spec_treasury() + Mint::of_wire(transaction.to_wire())->Some_0.amount)
                as u64).to_wire(),
    {
        proof {
            lemma_prefix_refl(self.store.contents());
            lemma_same_contracts_refl(*self);
        }
        let i = match self.find(id) {
            Some(i) => i,
            None => {
                return Err(VMError::UnknownContract);
            },
        };
        let m = match module_of_code(self.contracts[i].code.as_slice()) {
            Some(m) => m,
            None => {
                return Err(VMError::InvalidCode);
            },
        };
        let state_len = self.contracts[i].state.len();
        let arg_bytes = transaction.encode();
        proof {
            T::lemma_wire_len_bound();
            <T::Return as Wire>::lemma_wire_len_bound();
            transaction.lemma_wire_len();
        }
        let ret_len = <T::Return as Wire>::wire_len();
        let arg_ofs = state_len;
        let ret_ofs = state_len + arg_bytes.len();
        let mut mem: Vec<u8> = Vec::new();
        mem.extend_from_slice(self.contracts[i].state.as_slice());
        mem.extend_from_slice(arg_bytes.as_slice());
        let zeros = vec![0u8; ret_len];
        mem.extend_from_slice(zeros.as_slice());
        proof {
            let st = old(self).spec_state_of(id);
            let nm = T::spec_name();
            let argw = transaction.to_wire();
            if spec_method_ready(m, nm, st, argw, old(self).spec_store())
                && <T::Return as Wire>::spec_wire_len() == spec_transaction_ret_len(m, nm) {
                match m {
                    Module::Counter => {
                        lemma_counter_accepts(st);
                        Increment::lemma_parse_len(argw);
                        assert(mem@.subrange(0, 4) =~= st);
                        assert(mem@.subrange(4, 8) =~= argw);
                    },
                    Module::Plutocracy => {
                        lemma_plutocracy_accepts(st);
                        Mint::lemma_parse_len(argw);
                        assert(mem@.subrange(0, 8) =~= st);
                        assert(mem@.subrange(8, 16) =~= argw);
                    },
                    Module::FunLink => {
                        let nl = spec_node_len::<i32, ()>() as int;
                        assert(st.len() == nl);
                        assert(mem@.subrange(0, nl) =~= st);
                        if nm == "push".spec_bytes() {
                            Push::lemma_parse_len(argw);
                            assert(mem@.subrange(nl, nl + 4) =~= argw);
                        } else {
                            assert(argw.len() == 0);
                        }
                    },
                    Module::Rogue => {},
                }
                assert(spec_transaction_ready(
                    m,
                    nm,
                    mem@,
                    self.store.contents(),
                    0u32,
                    arg_ofs as u32,
                    ret_ofs as u32,
                ));
            }
        }
        let mut log = DebugLog::new();
        let ghost m0 = mem@;
        let res = invoke_transaction(
            &m,
            T::name(),
            &mut mem,
            &mut self.store,
            &mut log,
            0u32,
            arg_ofs as u32,
            ret_ofs as u32,
        );
        proof {
            lemma_same_contracts_refl(*self);
            assert(spec_same_contracts(*old(self), *self));
        }
        match res {
            Err(InvokeError::NoExport) => {
                return Err(VMError::UnknownMethod);
            },
            Err(InvokeError::Trapped(t)) => {
                return Err(VMError::ExecutionTrap(t));
            },
            Ok(()) => {},
        }
        let ret_bytes = match mem_read(&mem, ret_ofs as u32, ret_len) {
            Some(b) => b,
            None => {
                return Err(VMError::CorruptReturn);
            },
        };
        proof {
            let nm = T::spec_name();
            if m == Module::FunLink && nm != "push".spec_bytes() && spec_method_ready(
                m,
                nm,
                old(self).spec_state_of(id),
                transaction.to_wire(),
                old(self).spec_store(),
            ) && <T::Return as Wire>::spec_wire_len() == spec_transaction_ret_len(m, nm) {
                lemma_option_i32_canonical(ret_bytes@);
                assert(ret_bytes@ == (<Option<i32> as Wire>::of_wire(
                    ret_bytes@,
                )->Some_0).to_wire());
                assert(spec_ret_plausible(m, nm, ret_bytes@));
            }
        }
        let ret_value = match <T::Return as Wire>::decode(ret_bytes.as_slice()) {
            Some(v) => v,
            None => {
                return Err(VMError::CorruptReturn);
            },
        };
        let new_state = match mem_read(&mem, 0u32, state_len) {
            Some(b) => b,
            None => {
                return Err(VMError::CorruptState);
            },
        };
        proof {
            let nm = T::spec_name();
            if spec_method_ready(
                m,
                nm,
                old(self).spec_state_of(id),
                transaction.to_wire(),
                old(self).spec_store(),
            ) {
                match m {
                    Module::Counter => {
                        lemma_counter_accepts(new_state@);
                    },
                    Module::Plutocracy => {
                        lemma_plutocracy_accepts(new_state@);
                    },
                    Module::FunLink => {},
                    Module::Rogue => {},
                }
            }
        }
        if !check_state(&m, new_state.as_slice(), &self.store) {
            return Err(VMError::CorruptState);
        }
        let ghost mid = *self;
        let ghost committed = new_state@;
        let inst = vstd::std_specs::vec::vec_index_mut(&mut self.contracts, i);
        inst.state = new_state;
        self.log = log;
        proof {
            assert(self.contracts@ =~= mid.contracts@.update(
                i as int,
                self.contracts@[i as int],
            ));
            assert(self.contracts@[i as int].id == id);
            assert(self.contracts@[i as int].state@.len() == state_len);
            lemma_lookup_update(mid.contracts@, self.contracts@, i as int, id);
            assert(self.spec_state_of(id) == committed);
            let st = old(self).spec_state_of(id);
            let argw = transaction.to_wire();
            if m == Module::Counter && Counter::of_wire(st) is Some && Increment::of_wire(
                argw,
            ) is Some && Counter::of_wire(st)->Some_0.spec_value() + Increment::of_wire(
                argw,
            )->Some_0.0 <= u32::MAX {
                lemma_counter_accepts(st);
                assert(m0.subrange(0, 4) =~= st);
                assert(m0.subrange(4, 8) =~= argw);
                let value = ((Counter::of_wire(st)->Some_0.spec_value() + Increment::of_wire(
                    argw,
                )->Some_0.0) as u32);
                value.lemma_wire_len();
                assert(committed =~= value.to_wire());
            }
            if m == Module::Plutocracy && Plutocracy::of_wire(st) is Some && Mint::of_wire(
                argw,
            ) is Some && Plutocracy::of_wire(st)->Some_0.spec_treasury() + Mint::of_wire(
                argw,
            )->Some_0.amount <= u64::MAX {
                lemma_plutocracy_accepts(st);
                assert(m0.subrange(0, 8) =~= st);
                assert(m0.subrange(8, 16) =~= argw);
                let value = ((Plutocracy::of_wire(st)->Some_0.spec_treasury() + Mint::of_wire(
                    argw,
                )->Some_0.amount) as u64);
                value.lemma_wire_len();
                assert(committed =~= value.to_wire());
            }
        }
        Ok(ret_value)
    }

    /// A copy of the current serialized state bytes of a contract, for
    /// callers that want to observe durability from outside.
    pub fn contract_state(&self, id: ContractId) -> (r: Option<Vec<u8>>)
        ensures
            r matches Some(v) ==> self.spec_has(id) && v@ == self.spec_state_of(id),
            r is None ==> !self.spec_has(id),
    {
        match self.find(id) {
            Some(i) => Some(vstd::slice::slice_to_vec(self.contracts[i].state.as_slice())),
            None => None,
        }
    }

    /// What the last mutating call reported through the debug import.
    pub fn debug_entry(&self, i: usize) -> (r: Option<&Vec<u8>>) {
        self.log.entry(i)
    }
}

proof fn lemma_prefix_refl(s: Seq<u8>)
    ensures
        s.is_prefix_of(s),
{
    assert(s.subrange(0, s.len() as int) =~= s);
}

/// A registry is bound to the same contracts as itself, and more generally
/// as any registry with the very same instance sequence.
proof fn lemma_same_contracts_refl(a: State)
    ensures
        spec_same_contracts(a, a),
{
}

/// Appending a fresh instance leaves every other identifier's binding as it
/// was, and binds the new identifier to the new instance.
proof fn lemma_lookup_push(s: Seq<ContractInstance>, inst: ContractInstance, id: ContractId)
    requires
        inst.id == id,
        spec_lookup(s, id) is None,
    ensures
        spec_lookup(s.push(inst), id) == Some((inst.code@, inst.state@)),
        forall|o: ContractId|
            o != id ==> #[trigger] spec_lookup(s.push(inst), o) == spec_lookup(s, o),
    decreases s.len(),
{
    if s.len() == 0 {
        assert(s.push(inst)[0] == inst);
        assert(s.push(inst).drop_first() =~= Seq::<ContractInstance>::empty());
        assert forall|o: ContractId| o != id implies #[trigger] spec_lookup(s.push(inst), o)
            == spec_lookup(s, o) by {
            assert(spec_lookup(Seq::<ContractInstance>::empty(), o) is None);
        }
    } else {
        assert(s.push(inst)[0] == s[0]);
        assert(s.push(inst).drop_first() =~= s.drop_first().push(inst));
        lemma_lookup_push(s.drop_first(), inst, id);
        assert forall|o: ContractId| o != id implies #[trigger] spec_lookup(s.push(inst), o)
            == spec_lookup(s, o) by {
            if s[0].id != o {
                assert(spec_lookup(s.drop_first().push(inst), o) == spec_lookup(
                    s.drop_first(),
                    o,
                ));
            }
        }
    }
}

/// Replacing the state of the instance a lookup resolves to rebinds exactly
/// that identifier and no other.
proof fn lemma_lookup_update(
    s1: Seq<ContractInstance>,
    s2: Seq<ContractInstance>,
    i: int,
    id: ContractId,
)
    requires
        0 <= i < s1.len(),
        s2.len() == s1.len(),
        s2 =~= s1.update(i, s2[i]),
        s1[i].id == id,
        s2[i].id == id,
        s2[i].code@ == s1[i].code@,
        forall|j: int| 0 <= j < i ==> s1[j].id != id,
    ensures
        spec_lookup(s2, id) == Some((s1[i].code@, s2[i].state@)),
        forall|o: ContractId| o != id ==> #[trigger] spec_lookup(s2, o) == spec_lookup(s1, o),
    decreases i,
{
    if i == 0 {
        assert(s2[0].id == id);
        assert forall|o: ContractId| o != id implies #[trigger] spec_lookup(s2, o)
            == spec_lookup(s1, o) by {
            assert(s2.drop_first() =~= s1.drop_first());
        }
    } else {
        assert(s2[0] == s1[0]);
        assert(s2[0].id != id);
        assert(s2.drop_first() =~= s1.drop_first().update(i - 1, s2[i]));
        assert(s2.drop_first()[i - 1] == s2[i]);
        lemma_lookup_update(s1.drop_first(), s2.drop_first(), i - 1, id);
        assert forall|o: ContractId| o != id implies #[trigger] spec_lookup(s2, o)
            == spec_lookup(s1, o) by {
            if s1[0].id == o {
            } else {
                assert(spec_lookup(s2.drop_first(), o) == spec_lookup(s1.drop_first(), o));
            }
        }
    }
}

} // verus!
