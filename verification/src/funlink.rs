//! A stack contract fixture built on the persistent list: push and pop
//! transactions, together with the guest exports a sandboxed build of it
//! would expose.
//!
//! The contract's archived state is the fixed-footprint root node of the
//! list; the rest of the chain lives in the shared backing store.

use crate::abi::DebugLog;
use crate::definitions::{Apply, RootState, Store, Transaction};
use crate::engine::{debug_import, mem_read, mem_write, Trap};
use crate::linked_list::{
    lemma_local_anno, lemma_parsed_persist_size, spec_node_len, spec_node_of_wire,
    spec_persist_size, spec_view, spec_wf, LinkedList,
};
use crate::scratch::Scratch;
use crate::wire::Wire;
use vstd::prelude::*;
use vstd::string::StringSliceAdditionalSpecFns;

verus! {

/// The contract state: a persistent stack of integers.
pub struct FunLink {
    list: LinkedList<i32, ()>,
}

impl FunLink {
    pub closed spec fn spec_list(self) -> LinkedList<i32, ()> {
        self.list
    }

    pub fn new() -> (r: FunLink)
        ensures
            r.spec_list() == LinkedList::<i32, ()>::Empty,
    {
        FunLink { list: LinkedList::new() }
    }
}

impl Default for FunLink {
    fn default() -> (r: FunLink)
        ensures
            r.spec_list() == LinkedList::<i32, ()>::Empty,
    {
        FunLink { list: LinkedList::new() }
    }
}

/// The stack's root state archives after its chain is persisted: any nodes
/// still owned in memory reach the store first, then the fixed-footprint
/// root archive stands for the whole structure.
impl<S: Store> RootState<S> for FunLink {
    open spec fn spec_can_persist(self, s: Seq<u8>) -> bool {
        spec_wf(self.spec_list(), s)
    }

    open spec fn spec_persist_budget(self) -> nat {
        spec_persist_size(self.spec_list())
    }

    open spec fn spec_persisted(self, s0: Seq<u8>, s1: Seq<u8>, b: Seq<u8>) -> bool {
        match spec_node_of_wire::<i32, ()>(b) {
            Some(root) => spec_view(root, s1) == spec_view(self.spec_list(), s0),
            None => false,
        }
    }

    fn persist_state(self, store: &mut S) -> (r: Option<Vec<u8>>)
        ensures
            r matches Some(b) ==> match spec_node_of_wire::<i32, ()>(b@) {
                Some(root) => spec_view(root, final(store).contents()) == spec_view(
                    self.spec_list(),
                    old(store).contents(),
                ),
                None => false,
            },
    {
        proof {
            assert(store.contents().is_prefix_of(store.contents())) by {
                assert(store.contents().subrange(0, store.contents().len() as int)
                    =~= store.contents());
            }
        }
        if self.list.check_anno(store).is_none() {
            return None;
        }
        let size = match self.list.persist_size_exec() {
            Some(n) => n,
            None => {
                return None;
            },
        };
        if (store.len() as u128) + (size as u128) > u32::MAX as u128 {
            return None;
        }
        let bytes = self.list.to_state_bytes(store);
        Some(bytes)
    }
}

/// Pushes a value onto the stack.
#[derive(Debug)]
pub struct Push(pub i32);

impl Wire for Push {
    open spec fn spec_wire_len() -> nat {
        4
    }

    open spec fn to_wire(self) -> Seq<u8> {
        self.0.to_wire()
    }

    open spec fn of_wire(b: Seq<u8>) -> Option<Self> {
        match i32::of_wire(b) {
            Some(v) => Some(Push(v)),
            None => None,
        }
    }

    fn wire_len() -> usize {
        i32::wire_len()
    }

    fn encode(&self) -> Vec<u8> {
        self.0.encode()
    }

    fn decode(b: &[u8]) -> Option<Self> {
        match i32::decode(b) {
            Some(v) => Some(Push(v)),
            None => None,
        }
    }

    proof fn lemma_wire_len(self) {
        self.0.lemma_wire_len();
    }

    proof fn lemma_wire_len_bound() {
    }

    proof fn lemma_parse_len(b: Seq<u8>) {
        i32::lemma_parse_len(b);
    }

    proof fn lemma_round_trip(self) {
        self.0.lemma_round_trip();
    }
}

impl Transaction for Push {
    type Return = ();

    open spec fn spec_name() -> Seq<u8> {
        "push".spec_bytes()
    }

    fn name() -> &'static str {
        "push"
    }
}

/// Pops the top value off the stack.
#[derive(Debug)]
pub struct Pop;

impl Wire for Pop {
    open spec fn spec_wire_len() -> nat {
        0
    }

    open spec fn to_wire(self) -> Seq<u8> {
        Seq::empty()
    }

    open spec fn of_wire(b: Seq<u8>) -> Option<Self> {
        if b.len() == 0 {
            Some(Pop)
        } else {
            None
        }
    }

    fn wire_len() -> usize {
        0
    }

    fn encode(&self) -> Vec<u8> {
        Vec::new()
    }

    fn decode(b: &[u8]) -> Option<Self> {
        if b.len() == 0 {
            Some(Pop)
        } else {
            None
        }
    }

    proof fn lemma_wire_len(self) {
    }

    proof fn lemma_wire_len_bound() {
    }

    proof fn lemma_parse_len(b: Seq<u8>) {
    }

    proof fn lemma_round_trip(self) {
        assert(self.to_wire().len() == 0);
    }
}

impl Transaction for Pop {
    type Return = Option<i32>;

    open spec fn spec_name() -> Seq<u8> {
        "pop".spec_bytes()
    }

    fn name() -> &'static str {
        "pop"
    }
}

impl<S: Store> Apply<Push, S> for FunLink {
    open spec fn apply_pre(self, t: Push, store: S) -> bool {
        spec_wf(self.spec_list(), store.contents())
    }

    fn apply(&mut self, t: Push, store: &S) -> (r: ())
        ensures
            spec_view(final(self).spec_list(), store.contents()) == Some(
                seq![t.0] + spec_view(old(self).spec_list(), store.contents())->Some_0,
            ),
            spec_persist_size(final(self).spec_list()) == spec_node_len::<i32, ()>()
                + spec_persist_size(old(self).spec_list()),
    {
        proof {
            lemma_local_anno(self.list, store.contents());
        }
        self.list.push(t.0);
    }
}

impl<S: Store> Apply<Pop, S> for FunLink {
    open spec fn apply_pre(self, t: Pop, store: S) -> bool {
        spec_wf(self.spec_list(), store.contents())
    }

    fn apply(&mut self, t: Pop, store: &S) -> (r: Option<i32>)
        ensures
            spec_persist_size(final(self).spec_list()) <= spec_persist_size(
                old(self).spec_list(),
            ),
            ({
                let v = spec_view(old(self).spec_list(), store.contents())->Some_0;
                match r {
                    None => v.len() == 0 && final(self).spec_list() == old(self).spec_list(),
                    Some(x) => {
                        &&& v.len() > 0
                        &&& x == v[0]
                        &&& spec_view(final(self).spec_list(), store.contents()) == Some(
                            v.drop_first(),
                        )
                    },
                }
            }),
    {
        self.list.pop(store)
    }
}

/// When the `push` export is owed success: its regions lie inside the
/// memory image, the archived root and its whole chain validate, the
/// argument validates, and the store has room for the new nodes.
pub open spec fn spec_push_ready(
    m0: Seq<u8>,
    s: Seq<u8>,
    state_ofs: u32,
    arg_ofs: u32,
    ret_ofs: u32,
) -> bool {
    let nl = spec_node_len::<i32, ()>() as int;
    &&& state_ofs + nl <= m0.len()
    &&& arg_ofs + 4 <= m0.len()
    &&& (match spec_node_of_wire::<i32, ()>(
        m0.subrange(state_ofs as int, state_ofs as int + nl),
    ) {
        Some(root) => spec_wf(root, s),
        None => false,
    })
    &&& Push::of_wire(m0.subrange(arg_ofs as int, arg_ofs as int + 4)) is Some
    &&& s.len() + 2 * spec_node_len::<i32, ()>() <= u32::MAX
}

/// What holds of the memory image and store after a successful `push`: the
/// inputs validated, everything outside the state region is untouched, and
/// the new archived root stands for the old stack with the argument in
/// front.
pub open spec fn spec_push_post(
    m0: Seq<u8>,
    m1: Seq<u8>,
    s0: Seq<u8>,
    s1: Seq<u8>,
    state_ofs: u32,
    arg_ofs: u32,
    ret_ofs: u32,
) -> bool {
    let nl = spec_node_len::<i32, ()>() as int;
    let root0 = spec_node_of_wire::<i32, ()>(m0.subrange(state_ofs as int, state_ofs as int + nl));
    let arg = Push::of_wire(m0.subrange(arg_ofs as int, arg_ofs as int + 4));
    &&& state_ofs + nl <= m0.len()
    &&& root0 is Some
    &&& arg is Some
    &&& spec_wf(root0->Some_0, s0)
    &&& m1.subrange(0, state_ofs as int) == m0.subrange(0, state_ofs as int)
    &&& m1.subrange(state_ofs as int + nl, m0.len() as int) == m0.subrange(
        state_ofs as int + nl,
        m0.len() as int,
    )
    &&& ({
        let st1 = m1.subrange(state_ofs as int, state_ofs as int + nl);
        match spec_node_of_wire::<i32, ()>(st1) {
            Some(root1) => spec_view(root1, s1) == Some(
                seq![arg->Some_0.0] + spec_view(root0->Some_0, s0)->Some_0,
            ),
            None => false,
        }
    })
}

/// The `push` export: validates the archived root and the whole chain it
/// refers to, applies the push, persists the new node, and writes the new
/// root back over the state region.
pub fn push<S: Store>(
    mem: &mut Vec<u8>,
    store: &mut S,
    state_ofs: u32,
    arg_ofs: u32,
    ret_ofs: u32,
) -> (r: Result<(), Trap>)
    ensures
        final(mem)@.len() == old(mem)@.len(),
        old(store).contents().is_prefix_of(final(store).contents()),
        r is Err ==> final(mem)@ == old(mem)@,
        spec_push_ready(old(mem)@, old(store).contents(), state_ofs, arg_ofs, ret_ofs)
            ==> r is Ok,
        r is Ok ==> spec_push_post(
            old(mem)@,
            final(mem)@,
            old(store).contents(),
            final(store).contents(),
            state_ofs,
            arg_ofs,
            ret_ofs,
        ),
{
    let nl = LinkedList::<i32, ()>::node_len();
    let state_bytes = match mem_read(mem, state_ofs, nl) {
        Some(b) => b,
        None => {
            return Err(Trap::MemoryOverrun);
        },
    };
    let list = match LinkedList::<i32, ()>::from_state_bytes(state_bytes.as_slice(), store) {
        Some(l) => l,
        None => {
            return Err(Trap::BadState);
        },
    };
    let arg_bytes = match mem_read(mem, arg_ofs, Push::wire_len()) {
        Some(b) => b,
        None => {
            return Err(Trap::MemoryOverrun);
        },
    };
    let t = match Push::decode(arg_bytes.as_slice()) {
        Some(t) => t,
        None => {
            return Err(Trap::BadArgument);
        },
    };
    if store.len() as u64 > u32::MAX as u64 - 2 * nl as u64 {
        return Err(Trap::StoreFull);
    }
    let ghost s0 = store.contents();
    let ghost root0 = list;
    let mut fl = FunLink { list };
    Apply::<Push, S>::apply(&mut fl, t, &*store);
    proof {
        lemma_parsed_persist_size::<i32, ()>(state_bytes@);
    }
    let FunLink { list: new_list } = fl;
    let st1 = new_list.to_state_bytes(store);
    if mem_write(mem, state_ofs, st1.as_slice()) {
        proof {
            assert(final(mem)@.subrange(state_ofs as int, state_ofs as int + nl as int)
                =~= st1@);
            assert(final(mem)@.subrange(0, state_ofs as int) =~= old(mem)@.subrange(
                0,
                state_ofs as int,
            ));
            assert(final(mem)@.subrange(state_ofs as int + nl as int, old(mem)@.len() as int)
                =~= old(mem)@.subrange(state_ofs as int + nl as int, old(mem)@.len() as int));
        }
        Ok(())
    } else {
        Err(Trap::MemoryOverrun)
    }
}

/// When the `pop` export is owed success: its regions lie inside the memory
/// image and apart from each other, the archived root and its whole chain
/// validate, and the store has room for the new root.
pub open spec fn spec_pop_ready(
    m0: Seq<u8>,
    s: Seq<u8>,
    state_ofs: u32,
    arg_ofs: u32,
    ret_ofs: u32,
) -> bool {
    let nl = spec_node_len::<i32, ()>() as int;
    &&& state_ofs + nl <= m0.len()
    &&& arg_ofs <= m0.len()
    &&& ret_ofs + 5 <= m0.len()
    &&& (state_ofs + nl <= ret_ofs || ret_ofs + 5 <= state_ofs)
    &&& (match spec_node_of_wire::<i32, ()>(
        m0.subrange(state_ofs as int, state_ofs as int + nl),
    ) {
        Some(root) => spec_wf(root, s),
        None => false,
    })
    &&& s.len() + spec_node_len::<i32, ()>() <= u32::MAX
}

/// What holds of the memory image and store after a successful `pop`: the
/// archived root validated, the return slot carries the archived popped
/// value, and the new archived root stands for the rest of the stack.
pub open spec fn spec_pop_post(
    m0: Seq<u8>,
    m1: Seq<u8>,
    s0: Seq<u8>,
    s1: Seq<u8>,
    state_ofs: u32,
    arg_ofs: u32,
    ret_ofs: u32,
) -> bool {
    let nl = spec_node_len::<i32, ()>() as int;
    let root0 = spec_node_of_wire::<i32, ()>(m0.subrange(state_ofs as int, state_ofs as int + nl));
    &&& state_ofs + nl <= m0.len()
    &&& ret_ofs + 5 <= m0.len()
    &&& root0 is Some
    &&& spec_wf(root0->Some_0, s0)
    &&& ({
        let v = spec_view(root0->Some_0, s0)->Some_0;
        let expected: Option<i32> = if v.len() == 0 {
            None
        } else {
            Some(v[0])
        };
        let retb = m1.subrange(ret_ofs as int, ret_ofs as int + 5);
        let st1 = m1.subrange(state_ofs as int, state_ofs as int + nl);
        &&& Option::<i32>::of_wire(retb) == Some(expected)
        &&& match spec_node_of_wire::<i32, ()>(st1) {
            Some(root1) => spec_view(root1, s1) == Some(
                if v.len() == 0 {
                    v
                } else {
                    v.drop_first()
                },
            ),
            None => false,
        }
    })
}

/// The `pop` export: validates the archived root and its chain, reports to
/// the debug import, applies the pop, and writes both the new root over the
/// state region and the archived result at the return offset.
pub fn pop<S: Store>(
    mem: &mut Vec<u8>,
    store: &mut S,
    log: &mut DebugLog,
    state_ofs: u32,
    arg_ofs: u32,
    ret_ofs: u32,
) -> (r: Result<(), Trap>)
    ensures
        final(mem)@.len() == old(mem)@.len(),
        old(store).contents().is_prefix_of(final(store).contents()),
        r is Err ==> final(mem)@ == old(mem)@,
        spec_pop_ready(old(mem)@, old(store).contents(), state_ofs, arg_ofs, ret_ofs)
            ==> r is Ok,
        r is Ok ==> final(log).spec_entries() == old(log).spec_entries().push(
            seq![121u8, 111u8, 108u8, 111u8],
        ),
        r is Ok ==> spec_pop_post(
            old(mem)@,
            final(mem)@,
            old(store).contents(),
            final(store).contents(),
            state_ofs,
            arg_ofs,
            ret_ofs,
        ),
{
    let nl = LinkedList::<i32, ()>::node_len();
    let state_bytes = match mem_read(mem, state_ofs, nl) {
        Some(b) => b,
        None => {
            return Err(Trap::MemoryOverrun);
        },
    };
    let list = match LinkedList::<i32, ()>::from_state_bytes(state_bytes.as_slice(), store) {
        Some(l) => l,
        None => {
            return Err(Trap::BadState);
        },
    };
    let arg_bytes = match mem_read(mem, arg_ofs, Pop::wire_len()) {
        Some(b) => b,
        None => {
            return Err(Trap::MemoryOverrun);
        },
    };
    let _t = match Pop::decode(arg_bytes.as_slice()) {
        Some(t) => t,
        None => {
            return Err(Trap::BadArgument);
        },
    };
    if store.len() as u64 > u32::MAX as u64 - nl as u64 {
        return Err(Trap::StoreFull);
    }
    let mem_len = mem.len();
    if state_ofs as u64 + nl as u64 > mem_len as u64 || ret_ofs as u64 + 5 > mem_len as u64 {
        return Err(Trap::MemoryOverrun);
    }
    if !(state_ofs as u64 + nl as u64 <= ret_ofs as u64 || ret_ofs as u64 + 5
        <= state_ofs as u64) {
        return Err(Trap::MemoryOverrun);
    }
    // report "yolo" through the debug import: stage the bytes in the return
    // slot, which is rewritten with the real result below
    let msg: Vec<u8> = vec![121u8, 111u8, 108u8, 111u8];
    let ok_msg = mem_write(mem, ret_ofs, msg.as_slice());
    proof {
        assert(ok_msg);
    }
    debug_import(mem, log, ret_ofs, 4);
    proof {
        assert(mem@.subrange(ret_ofs as int, ret_ofs as int + 4) =~= msg@);
        assert(msg@ =~= seq![121u8, 111u8, 108u8, 111u8]);
    }
    let ghost s0 = store.contents();
    let mut fl = FunLink { list };
    let result = Apply::<Pop, S>::apply(&mut fl, Pop, &*store);
    proof {
        lemma_parsed_persist_size::<i32, ()>(state_bytes@);
    }
    let FunLink { list: new_list } = fl;
    let st1 = new_list.to_state_bytes(store);
    let ok_state = mem_write(mem, state_ofs, st1.as_slice());
    proof {
        assert(ok_state);
    }
    let ghost m1 = mem@;
    let out = Scratch::write(&result);
    proof {
        result.lemma_wire_len();
        result.lemma_round_trip();
    }
    let ok_ret = mem_write(mem, ret_ofs, out.as_slice());
    proof {
        assert(ok_ret);
        assert(final(mem)@.subrange(ret_ofs as int, ret_ofs as int + 5) =~= out.spec_bytes());
        assert(m1.subrange(state_ofs as int, state_ofs as int + nl as int) =~= st1@);
        assert(final(mem)@.subrange(state_ofs as int, state_ofs as int + nl as int) =~= st1@);
    }
    Ok(())
}

} // verus!
