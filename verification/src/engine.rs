//! The sandbox side of the calling convention: a flat addressable guest
//! memory, the modules the host can instantiate, and the dispatch of a named
//! export against a memory image.
//!
//! The execution engine proper is an external collaborator; what lives here
//! is the contract between host and guest: code bytes name a module, a
//! module exposes exports by name, and an export reads and writes nothing
//! but the one memory region and the shared store it was handed.

use crate::abi::DebugLog;
use crate::counter::{
    self, spec_incr_post, spec_incr_ready, spec_read_post, spec_read_ready, Counter, Increment,
};
use crate::definitions::Store;
use crate::funlink::{self, spec_pop_post, spec_pop_ready, spec_push_post, spec_push_ready, Push};
use crate::linked_list::{spec_node_len, spec_node_of_wire, spec_wf, LinkedList};
use crate::plutocracy::{
    self, spec_mint_post, spec_mint_ready, spec_total_supply_post, spec_total_supply_ready, Mint,
    Plutocracy,
};
use crate::rogue;
use crate::wire::Wire;
use vstd::bytes::*;
use vstd::pervasive::VecAdditionalExecFns;
use vstd::prelude::*;
use vstd::string::StringSliceAdditionalSpecFns;

verus! {

/// A guest-side fault: the guest stopped without completing the call.  The
/// variant is the guest diagnostic the host surfaces.
#[derive(PartialEq, Eq, Structural, Clone, Copy, Debug)]
pub enum Trap {
    /// A read or write fell outside the guest's memory region.
    MemoryOverrun,
    /// The state bytes handed in did not validate.
    BadState,
    /// The argument bytes handed in did not validate.
    BadArgument,
    /// An arithmetic bound was hit.
    Arithmetic,
    /// The backing store has no room for the new state.
    StoreFull,
}

/// Copies `len` bytes at `ofs` out of guest memory, if the range is inside
/// the region.
pub fn mem_read(mem: &Vec<u8>, ofs: u32, len: usize) -> (r: Option<Vec<u8>>)
    ensures
        r matches Some(v) ==> {
            &&& ofs + len <= mem@.len()
            &&& v@ == mem@.subrange(ofs as int, ofs as int + len as int)
        },
        r is None ==> ofs + len > mem@.len(),
{
    if len <= mem.len() && ofs as usize <= mem.len() - len {
        let slice = vstd::slice::slice_subrange(mem.as_slice(), ofs as usize, ofs as usize + len);
        Some(vstd::slice::slice_to_vec(slice))
    } else {
        None
    }
}

/// Writes bytes into guest memory at `ofs`; refuses, leaving the memory
/// untouched, when the range falls outside the region.  The region never
/// changes size.
pub fn mem_write(mem: &mut Vec<u8>, ofs: u32, data: &[u8]) -> (ok: bool)
    ensures
        final(mem)@.len() == old(mem)@.len(),
        ok ==> {
            &&& ofs + data@.len() <= old(mem)@.len()
            &&& final(mem)@ == old(mem)@.subrange(0, ofs as int) + data@ + old(mem)@.subrange(
                ofs as int + data@.len() as int,
                old(mem)@.len() as int,
            )
        },
        !ok ==> final(mem)@ == old(mem)@ && ofs + data@.len() > old(mem)@.len(),
{
    let len = data.len();
    if !(len <= mem.len() && ofs as usize <= mem.len() - len) {
        return false;
    }
    let base = ofs as usize;
    let mut i: usize = 0;
    while i < len
        invariant
            i <= len,
            base + len <= usize::MAX,
            base + len <= mem@.len(),
            mem@.len() == old(mem)@.len(),
            data@.len() == len,
            forall|j: int| 0 <= j < i ==> mem@[base + j] == data@[j],
            forall|j: int|
                0 <= j < mem@.len() && !(base <= j < base + i) ==> mem@[j] == old(mem)@[j],
        decreases len - i,
    {
        let v = *vstd::slice::slice_index_get(data, i);
        mem.set(base + i, v);
        i = i + 1;
    }
    proof {
        assert(mem@ =~= old(mem)@.subrange(0, base as int) + data@ + old(mem)@.subrange(
            base as int + len as int,
            old(mem)@.len() as int,
        ));
    }
    true
}

/// The one host import guests can call during execution: best-effort logs
/// the byte slice at the given memory range.  A range outside the region is
/// ignored rather than aborting the call; reporting never fails and never
/// touches contract state.
pub fn debug_import(mem: &Vec<u8>, log: &mut DebugLog, ofs: u32, len: u32)
    ensures
        ofs + len <= mem@.len() ==> final(log).spec_entries() == old(log).spec_entries().push(
            mem@.subrange(ofs as int, ofs as int + len as int),
        ),
        ofs + len > mem@.len() ==> final(log).spec_entries() == old(log).spec_entries(),
{
    match mem_read(mem, ofs, len as usize) {
        Some(bytes) => log.log(bytes),
        None => (),
    }
}

/// Byte-for-byte equality of two slices.
pub fn bytes_eq(a: &[u8], b: &[u8]) -> (r: bool)
    ensures
        r == (a@ == b@),
{
    if a.len() != b.len() {
        proof {
            assert(a@ != b@);
        }
        return false;
    }
    let n = a.len();
    let mut i: usize = 0;
    while i < n
        invariant
            i <= n,
            a@.len() == n,
            b@.len() == n,
            forall|j: int| 0 <= j < i ==> a@[j] == b@[j],
        decreases n - i,
    {
        if *vstd::slice::slice_index_get(a, i) != *vstd::slice::slice_index_get(b, i) {
            proof {
                assert(a@[i as int] != b@[i as int]);
            }
            return false;
        }
        i = i + 1;
    }
    proof {
        assert(a@ =~= b@);
    }
    true
}

/// The built-in modules contract code can name.  Code bytes are a four-byte
/// little-endian module tag; anything else fails to instantiate.
#[derive(PartialEq, Eq, Structural, Clone, Copy, Debug)]
pub enum Module {
    Counter,
    Plutocracy,
    FunLink,
    Rogue,
}

/// Which module, if any, a code blob names.
pub open spec fn spec_module_of_code(code: Seq<u8>) -> Option<Module> {
    if code.len() == 4 {
        let v = spec_u32_from_le_bytes(code);
        if v == 1 {
            Some(Module::Counter)
        } else if v == 2 {
            Some(Module::Plutocracy)
        } else if v == 3 {
            Some(Module::FunLink)
        } else if v == 4 {
            Some(Module::Rogue)
        } else {
            None
        }
    } else {
        None
    }
}

/// Compiles code bytes: accepts exactly the four-byte tags of the built-in
/// modules.
pub fn module_of_code(code: &[u8]) -> (r: Option<Module>)
    ensures
        r == spec_module_of_code(code@),
{
    if code.len() != 4 {
        return None;
    }
    let v = u32_from_le_bytes(code);
    if v == 1 {
        Some(Module::Counter)
    } else if v == 2 {
        Some(Module::Plutocracy)
    } else if v == 3 {
        Some(Module::FunLink)
    } else if v == 4 {
        Some(Module::Rogue)
    } else {
        None
    }
}

/// The code blob that names a module.
pub fn module_code(m: &Module) -> (code: Vec<u8>)
    ensures
        spec_module_of_code(code@) == Some(*m),
{
    proof {
        lemma_auto_spec_u32_to_from_le_bytes();
    }
    match m {
        Module::Counter => u32_to_le_bytes(1),
        Module::Plutocracy => u32_to_le_bytes(2),
        Module::FunLink => u32_to_le_bytes(3),
        Module::Rogue => u32_to_le_bytes(4),
    }
}

/// The read-only exports a module offers, by name.
pub open spec fn spec_has_query(m: Module, name: Seq<u8>) -> bool {
    match m {
        Module::Counter => name == "read".spec_bytes(),
        Module::Plutocracy => name == "total_supply".spec_bytes(),
        Module::FunLink => false,
        Module::Rogue => false,
    }
}

/// The mutating exports a module offers, by name.
pub open spec fn spec_has_transaction(m: Module, name: Seq<u8>) -> bool {
    match m {
        Module::Counter => name == "incr".spec_bytes(),
        Module::Plutocracy => name == "mint".spec_bytes(),
        Module::FunLink => name == "push".spec_bytes() || name == "pop".spec_bytes(),
        Module::Rogue => name == "smash_state".spec_bytes() || name
            == "smash_return".spec_bytes(),
    }
}

/// When the named read-only export is owed success: the export's own
/// readiness condition over the memory image and the store.
pub open spec fn spec_query_ready(
    m: Module,
    name: Seq<u8>,
    m0: Seq<u8>,
    s: Seq<u8>,
    state_ofs: u32,
    arg_ofs: u32,
    ret_ofs: u32,
) -> bool {
    match m {
        Module::Counter => spec_read_ready(m0, state_ofs, arg_ofs, ret_ofs),
        Module::Plutocracy => spec_total_supply_ready(m0, state_ofs, arg_ofs, ret_ofs),
        Module::FunLink => false,
        Module::Rogue => false,
    }
}

/// When the named mutating export is owed success: the export's own
/// readiness condition over the memory image and the store.
pub open spec fn spec_transaction_ready(
    m: Module,
    name: Seq<u8>,
    m0: Seq<u8>,
    s: Seq<u8>,
    state_ofs: u32,
    arg_ofs: u32,
    ret_ofs: u32,
) -> bool {
    match m {
        Module::Counter => spec_incr_ready(m0, state_ofs, arg_ofs, ret_ofs),
        Module::Plutocracy => spec_mint_ready(m0, state_ofs, arg_ofs, ret_ofs),
        Module::FunLink => {
            if name == "push".spec_bytes() {
                spec_push_ready(m0, s, state_ofs, arg_ofs, ret_ofs)
            } else {
                spec_pop_ready(m0, s, state_ofs, arg_ofs, ret_ofs)
            }
        },
        Module::Rogue => {
            if name == "smash_state".spec_bytes() {
                state_ofs + 5 <= m0.len()
            } else {
                ret_ofs + 5 <= m0.len()
            }
        },
    }
}

/// The archived footprint of the one read-only export a module offers.
pub open spec fn spec_query_ret_len(m: Module) -> nat {
    match m {
        Module::Counter => 4,
        Module::Plutocracy => 8,
        Module::FunLink => 0,
        Module::Rogue => 0,
    }
}

/// The archived footprint of the named mutating export's return value.
pub open spec fn spec_transaction_ret_len(m: Module, name: Seq<u8>) -> nat {
    match m {
        Module::Counter => 0,
        Module::Plutocracy => 0,
        Module::FunLink => {
            if name == "push".spec_bytes() {
                0
            } else {
                5
            }
        },
        Module::Rogue => {
            if name == "smash_state".spec_bytes() {
                0
            } else {
                5
            }
        },
    }
}

/// When a mutating method is owed success, phrased over the state and
/// argument archives themselves rather than a memory image: both validate,
/// any arithmetic stays in range, and the store has room.  The misbehaving
/// fixture is owed nothing.
pub open spec fn spec_method_ready(
    m: Module,
    name: Seq<u8>,
    st: Seq<u8>,
    arg: Seq<u8>,
    s: Seq<u8>,
) -> bool {
    match m {
        Module::Counter => {
            let c = Counter::of_wire(st);
            let t = Increment::of_wire(arg);
            &&& c is Some
            &&& t is Some
            &&& c->Some_0.spec_value() + t->Some_0.0 <= u32::MAX
        },
        Module::Plutocracy => {
            let c = Plutocracy::of_wire(st);
            let t = Mint::of_wire(arg);
            &&& c is Some
            &&& t is Some
            &&& c->Some_0.spec_treasury() + t->Some_0.amount <= u64::MAX
        },
        Module::FunLink => {
            &&& (match spec_node_of_wire::<i32, ()>(st) {
                Some(root) => spec_wf(root, s),
                None => false,
            })
            &&& (if name == "push".spec_bytes() {
                Push::of_wire(arg) is Some && s.len() + 2 * spec_node_len::<i32, ()>()
                    <= u32::MAX
            } else {
                arg.len() == 0 && s.len() + spec_node_len::<i32, ()>() <= u32::MAX
            })
        },
        Module::Rogue => false,
    }
}

/// The byte strings the named mutating export may leave in the return slot
/// on success: a zeroed slot for exports that return nothing, or a canonical
/// archive of the popped value.
pub open spec fn spec_ret_plausible(m: Module, name: Seq<u8>, b: Seq<u8>) -> bool {
    match m {
        Module::FunLink => {
            if name == "push".spec_bytes() {
                forall|i: int| 0 <= i < b.len() ==> b[i] == 0u8
            } else {
                exists|x: Option<i32>| b == x.to_wire()
            }
        },
        _ => forall|i: int| 0 <= i < b.len() ==> b[i] == 0u8,
    }
}

/// How an invocation can fail short of completing: the module has no export
/// of that name, or the guest trapped.
#[derive(PartialEq, Eq, Structural, Clone, Copy, Debug)]
pub enum InvokeError {
    NoExport,
    Trapped(Trap),
}

/// Invokes a read-only export against a memory image.  The store is only
/// readable here, so no query can change it; a failed call leaves the memory
/// image untouched as well.
pub fn invoke_query<S: Store>(
    m: &Module,
    name: &str,
    mem: &mut Vec<u8>,
    store: &S,
    log: &mut DebugLog,
    state_ofs: u32,
    arg_ofs: u32,
    ret_ofs: u32,
) -> (r: Result<(), InvokeError>)
    ensures
        final(mem)@.len() == old(mem)@.len(),
        (r == Err::<(), InvokeError>(InvokeError::NoExport)) == !spec_has_query(
            *m,
            name.spec_bytes(),
        ),
        r is Err ==> final(mem)@ == old(mem)@,
        spec_has_query(*m, name.spec_bytes()) && spec_query_ready(
            *m,
            name.spec_bytes(),
            old(mem)@,
            store.contents(),
            state_ofs,
            arg_ofs,
            ret_ofs,
        ) ==> r is Ok,
        r is Ok && *m == Module::Counter ==> spec_read_post(
            old(mem)@,
            final(mem)@,
            state_ofs,
            arg_ofs,
            ret_ofs,
        ),
        r is Ok && *m == Module::Plutocracy ==> spec_total_supply_post(
            old(mem)@,
            final(mem)@,
            state_ofs,
            arg_ofs,
            ret_ofs,
        ),
{
    match m {
        Module::Counter => {
            if bytes_eq(name.as_bytes(), "read".as_bytes()) {
                match counter::read(mem, store, state_ofs, arg_ofs, ret_ofs) {
                    Ok(()) => Ok(()),
                    Err(t) => Err(InvokeError::Trapped(t)),
                }
            } else {
                Err(InvokeError::NoExport)
            }
        },
        Module::Plutocracy => {
            if bytes_eq(name.as_bytes(), "total_supply".as_bytes()) {
                match plutocracy::total_supply(mem, store, state_ofs, arg_ofs, ret_ofs) {
                    Ok(()) => Ok(()),
                    Err(t) => Err(InvokeError::Trapped(t)),
                }
            } else {
                Err(InvokeError::NoExport)
            }
        },
        Module::FunLink => Err(InvokeError::NoExport),
        Module::Rogue => Err(InvokeError::NoExport),
    }
}

/// Invokes a mutating export against a memory image.  The store can only
/// grow; a failed call leaves the memory image untouched.
pub fn invoke_transaction<S: Store>(
    m: &Module,
    name: &str,
    mem: &mut Vec<u8>,
    store: &mut S,
    log: &mut DebugLog,
    state_ofs: u32,
    arg_ofs: u32,
    ret_ofs: u32,
) -> (r: Result<(), InvokeError>)
    ensures
        final(mem)@.len() == old(mem)@.len(),
        old(store).contents().is_prefix_of(final(store).contents()),
        (r == Err::<(), InvokeError>(InvokeError::NoExport)) == !spec_has_transaction(
            *m,
            name.spec_bytes(),
        ),
        r is Err ==> final(mem)@ == old(mem)@,
        spec_has_transaction(*m, name.spec_bytes()) && spec_transaction_ready(
            *m,
            name.spec_bytes(),
            old(mem)@,
            old(store).contents(),
            state_ofs,
            arg_ofs,
            ret_ofs,
        ) ==> r is Ok,
        r is Ok && *m == Module::Counter ==> spec_incr_post(
            old(mem)@,
            final(mem)@,
            state_ofs,
            arg_ofs,
            ret_ofs,
        ),
        r is Ok && *m == Module::Plutocracy ==> spec_mint_post(
            old(mem)@,
            final(mem)@,
            state_ofs,
            arg_ofs,
            ret_ofs,
        ),
        r is Ok && *m == Module::FunLink ==> (if name.spec_bytes() == "push".spec_bytes() {
            spec_push_post(
                old(mem)@,
                final(mem)@,
                old(store).contents(),
                final(store).contents(),
                state_ofs,
                arg_ofs,
                ret_ofs,
            )
        } else {
            spec_pop_post(
                old(mem)@,
                final(mem)@,
                old(store).contents(),
                final(store).contents(),
                state_ofs,
                arg_ofs,
                ret_ofs,
            )
        }),
{
    proof {
        lemma_prefix_refl(store.contents());
    }
    match m {
        Module::Counter => {
            if bytes_eq(name.as_bytes(), "incr".as_bytes()) {
                match counter::incr(mem, &*store, state_ofs, arg_ofs, ret_ofs) {
                    Ok(()) => Ok(()),
                    Err(t) => Err(InvokeError::Trapped(t)),
                }
            } else {
                Err(InvokeError::NoExport)
            }
        },
        Module::Plutocracy => {
            if bytes_eq(name.as_bytes(), "mint".as_bytes()) {
                match plutocracy::mint(mem, &*store, state_ofs, arg_ofs, ret_ofs) {
                    Ok(()) => Ok(()),
                    Err(t) => Err(InvokeError::Trapped(t)),
                }
            } else {
                Err(InvokeError::NoExport)
            }
        },
        Module::FunLink => {
            if bytes_eq(name.as_bytes(), "push".as_bytes()) {
                match funlink::push(mem, store, state_ofs, arg_ofs, ret_ofs) {
                    Ok(()) => Ok(()),
                    Err(t) => Err(InvokeError::Trapped(t)),
                }
            } else if bytes_eq(name.as_bytes(), "pop".as_bytes()) {
                match funlink::pop(mem, store, log, state_ofs, arg_ofs, ret_ofs) {
                    Ok(()) => Ok(()),
                    Err(t) => Err(InvokeError::Trapped(t)),
                }
            } else {
                Err(InvokeError::NoExport)
            }
        },
        Module::Rogue => {
            if bytes_eq(name.as_bytes(), "smash_state".as_bytes()) {
                match rogue::smash_state(mem, state_ofs) {
                    Ok(()) => Ok(()),
                    Err(t) => Err(InvokeError::Trapped(t)),
                }
            } else if bytes_eq(name.as_bytes(), "smash_return".as_bytes()) {
                match rogue::smash_return(mem, ret_ofs) {
                    Ok(()) => Ok(()),
                    Err(t) => Err(InvokeError::Trapped(t)),
                }
            } else {
                Err(InvokeError::NoExport)
            }
        },
    }
}

/// Whether a byte blob is a well-formed state archive for a module, against
/// the given store contents.
pub open spec fn spec_state_ok(m: Module, b: Seq<u8>, s: Seq<u8>) -> bool {
    match m {
        Module::Counter => Counter::of_wire(b) is Some,
        Module::Plutocracy => Plutocracy::of_wire(b) is Some,
        Module::FunLink => match spec_node_of_wire::<i32, ()>(b) {
            Some(root) => spec_wf(root, s),
            None => false,
        },
        Module::Rogue => Option::<i32>::of_wire(b) is Some,
    }
}

/// Structurally validates state bytes read back from guest memory before the
/// host commits them.
pub fn check_state<S: Store>(m: &Module, b: &[u8], store: &S) -> (r: bool)
    ensures
        r == spec_state_ok(*m, b@, store.contents()),
{
    match m {
        Module::Counter => Counter::decode(b).is_some(),
        Module::Plutocracy => Plutocracy::decode(b).is_some(),
        Module::FunLink => LinkedList::<i32, ()>::from_state_bytes(b, store).is_some(),
        Module::Rogue => Option::<i32>::decode(b).is_some(),
    }
}

proof fn lemma_prefix_refl(s: Seq<u8>)
    ensures
        s.is_prefix_of(s),
{
    assert(s.subrange(0, s.len() as int) =~= s);
}

} // verus!
