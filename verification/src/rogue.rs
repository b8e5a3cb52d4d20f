//! A deliberately misbehaving contract fixture.  Its exports ignore the
//! calling convention and scribble over guest memory; the host must catch
//! that during validation and leave the stored state untouched.  Its state
//! is a plain optional integer so that well-formed and malformed archives
//! both exist.

use crate::definitions::{RootState, Store, Transaction};
use crate::engine::{mem_write, Trap};
use crate::wire::Wire;
use vstd::prelude::*;
use vstd::string::StringSliceAdditionalSpecFns;

verus! {

/// Asks the guest to overwrite its own state region with garbage.
#[derive(Debug)]
pub struct SmashState;

impl Wire for SmashState {
    open spec fn spec_wire_len() -> nat {
        0
    }

    open spec fn to_wire(self) -> Seq<u8> {
        Seq::empty()
    }

    open spec fn of_wire(b: Seq<u8>) -> Option<Self> {
        if b.len() == 0 {
            Some(SmashState)
        } else {
            None
        }
    }

    fn wire_len() -> usize {
        0
    }

    fn encode(&self) -> Vec<u8> {
        Vec::new()
    }

    fn decode(b: &[u8]) -> Option<Self> {
        if b.len() == 0 {
            Some(SmashState)
        } else {
            None
        }
    }

    proof fn lemma_wire_len(self) {
    }

    proof fn lemma_wire_len_bound() {
    }

    proof fn lemma_parse_len(b: Seq<u8>) {
    }

    proof fn lemma_round_trip(self) {
        assert(self.to_wire().len() == 0);
    }
}

impl Transaction for SmashState {
    type Return = ();

    open spec fn spec_name() -> Seq<u8> {
        "smash_state".spec_bytes()
    }

    fn name() -> &'static str {
        "smash_state"
    }
}

/// An optional integer archives in place: nothing needs to reach the store first.
impl<S: Store> RootState<S> for Option<i32> {
    open spec fn spec_can_persist(self, s: Seq<u8>) -> bool {
        true
    }

    open spec fn spec_persist_budget(self) -> nat {
        0
    }

    open spec fn spec_persisted(self, s0: Seq<u8>, s1: Seq<u8>, b: Seq<u8>) -> bool {
        b == self.to_wire()
    }

    fn persist_state(self, store: &mut S) -> (r: Option<Vec<u8>>)
        ensures
            r matches Some(b) ==> b@ == self.to_wire(),
    {
        proof {
            Self::lemma_wire_len_bound();
            self.lemma_wire_len();
            assert(store.contents().is_prefix_of(store.contents())) by {
                assert(store.contents().subrange(0, store.contents().len() as int)
                    =~= store.contents());
            }
        }
        Some(self.encode())
    }
}

/// Asks the guest to write garbage into the return slot.
#[derive(Debug)]
pub struct SmashReturn;

impl Wire for SmashReturn {
    open spec fn spec_wire_len() -> nat {
        0
    }

    open spec fn to_wire(self) -> Seq<u8> {
        Seq::empty()
    }

    open spec fn of_wire(b: Seq<u8>) -> Option<Self> {
        if b.len() == 0 {
            Some(SmashReturn)
        } else {
            None
        }
    }

    fn wire_len() -> usize {
        0
    }

    fn encode(&self) -> Vec<u8> {
        Vec::new()
    }

    fn decode(b: &[u8]) -> Option<Self> {
        if b.len() == 0 {
            Some(SmashReturn)
        } else {
            None
        }
    }

    proof fn lemma_wire_len(self) {
    }

    proof fn lemma_wire_len_bound() {
    }

    proof fn lemma_parse_len(b: Seq<u8>) {
    }

    proof fn lemma_round_trip(self) {
        assert(self.to_wire().len() == 0);
    }
}

impl Transaction for SmashReturn {
    type Return = Option<i32>;

    open spec fn spec_name() -> Seq<u8> {
        "smash_return".spec_bytes()
    }

    fn name() -> &'static str {
        "smash_return"
    }
}

/// The `smash_state` export: replaces the guest's five-byte state archive
/// with bytes that no optional integer archives to.
pub fn smash_state(mem: &mut Vec<u8>, state_ofs: u32) -> (r: Result<(), Trap>)
    ensures
        final(mem)@.len() == old(mem)@.len(),
        r is Err ==> final(mem)@ == old(mem)@,
        state_ofs + 5 <= old(mem)@.len() ==> r is Ok,
        r is Ok ==> ({
            &&& state_ofs + 5 <= old(mem)@.len()
            &&& Option::<i32>::of_wire(
                final(mem)@.subrange(state_ofs as int, state_ofs as int + 5),
            ) is None
            &&& final(mem)@.subrange(0, state_ofs as int) == old(mem)@.subrange(
                0,
                state_ofs as int,
            )
            &&& final(mem)@.subrange(state_ofs as int + 5, old(mem)@.len() as int) == old(
                mem,
            )@.subrange(state_ofs as int + 5, old(mem)@.len() as int)
        }),
{
    let garbage: Vec<u8> = vec![7u8, 7u8, 7u8, 7u8, 7u8];
    if mem_write(mem, state_ofs, garbage.as_slice()) {
        proof {
            assert(final(mem)@.subrange(state_ofs as int, state_ofs as int + 5) =~= garbage@);
            assert(final(mem)@.subrange(0, state_ofs as int) =~= old(mem)@.subrange(
                0,
                state_ofs as int,
            ));
            assert(final(mem)@.subrange(state_ofs as int + 5, old(mem)@.len() as int)
                =~= old(mem)@.subrange(state_ofs as int + 5, old(mem)@.len() as int));
        }
        Ok(())
    } else {
        Err(Trap::MemoryOverrun)
    }
}

/// The `smash_return` export: writes bytes that no optional integer archives
/// to into the return slot, leaving the state region alone.
pub fn smash_return(mem: &mut Vec<u8>, ret_ofs: u32) -> (r: Result<(), Trap>)
    ensures
        final(mem)@.len() == old(mem)@.len(),
        r is Err ==> final(mem)@ == old(mem)@,
        ret_ofs + 5 <= old(mem)@.len() ==> r is Ok,
        r is Ok ==> ({
            &&& ret_ofs + 5 <= old(mem)@.len()
            &&& Option::<i32>::of_wire(
                final(mem)@.subrange(ret_ofs as int, ret_ofs as int + 5),
            ) is None
            &&& final(mem)@.subrange(0, ret_ofs as int) == old(mem)@.subrange(0, ret_ofs as int)
            &&& final(mem)@.subrange(ret_ofs as int + 5, old(mem)@.len() as int) == old(
                mem,
            )@.subrange(ret_ofs as int + 5, old(mem)@.len() as int)
        }),
{
    let garbage: Vec<u8> = vec![9u8, 9u8, 9u8, 9u8, 9u8];
    if mem_write(mem, ret_ofs, garbage.as_slice()) {
        proof {
            assert(final(mem)@.subrange(ret_ofs as int, ret_ofs as int + 5) =~= garbage@);
            assert(final(mem)@.subrange(0, ret_ofs as int) =~= old(mem)@.subrange(
                0,
                ret_ofs as int,
            ));
            assert(final(mem)@.subrange(ret_ofs as int + 5, old(mem)@.len() as int)
                =~= old(mem)@.subrange(ret_ofs as int + 5, old(mem)@.len() as int));
        }
        Ok(())
    } else {
        Err(Trap::MemoryOverrun)
    }
}

} // verus!
