//! A minimal contract fixture: a single counter with a read query and an
//! increment transaction, together with the guest exports a sandboxed build
//! of it would expose.

use crate::definitions::{Apply, Execute, Query, RootState, Store, Transaction};
use crate::engine::{mem_read, mem_write, Trap};
use crate::scratch::Scratch;
use crate::wire::Wire;
use vstd::prelude::*;
use vstd::string::StringSliceAdditionalSpecFns;

verus! {

/// The contract state: one counter.
#[derive(Clone, Debug)]
pub struct Counter {
    value: u32,
}

impl Counter {
    pub closed spec fn spec_value(self) -> u32 {
        self.value
    }

    pub fn new(value: u32) -> (r: Counter)
        ensures
            r.spec_value() == value,
    {
        Counter { value }
    }
}

impl Wire for Counter {
    open spec fn spec_wire_len() -> nat {
        4
    }

    open spec fn to_wire(self) -> Seq<u8> {
        self.spec_value().to_wire()
    }

    closed spec fn of_wire(b: Seq<u8>) -> Option<Self> {
        match u32::of_wire(b) {
            Some(v) => Some(Counter { value: v }),
            None => None,
        }
    }

    fn wire_len() -> usize {
        u32::wire_len()
    }

    fn encode(&self) -> Vec<u8> {
        self.value.encode()
    }

    fn decode(b: &[u8]) -> Option<Self> {
        match u32::decode(b) {
            Some(v) => Some(Counter { value: v }),
            None => None,
        }
    }

    proof fn lemma_wire_len(self) {
        self.spec_value().lemma_wire_len();
    }

    proof fn lemma_wire_len_bound() {
    }

    proof fn lemma_parse_len(b: Seq<u8>) {
        u32::lemma_parse_len(b);
    }

    proof fn lemma_round_trip(self) {
        self.spec_value().lemma_round_trip();
    }
}

/// A counter archive is any four bytes: the strict length check is the whole
/// of its validation.
pub proof fn lemma_counter_accepts(b: Seq<u8>)
    ensures
        Counter::of_wire(b) is Some <==> b.len() == 4,
{
}

/// Counter archives in place: nothing needs to reach the store first.
impl<S: Store> RootState<S> for Counter {
    open spec fn spec_can_persist(self, s: Seq<u8>) -> bool {
        true
    }

    open spec fn spec_persist_budget(self) -> nat {
        0
    }

    open spec fn spec_persisted(self, s0: Seq<u8>, s1: Seq<u8>, b: Seq<u8>) -> bool {
        b == self.to_wire()
    }

    fn persist_state(self, store: &mut S) -> (r: Option<Vec<u8>>)
        ensures
            r matches Some(b) ==> b@ == self.to_wire(),
    {
        proof {
            Self::lemma_wire_len_bound();
            self.lemma_wire_len();
            assert(store.contents().is_prefix_of(store.contents())) by {
                assert(store.contents().subrange(0, store.contents().len() as int)
                    =~= store.contents());
            }
        }
        Some(self.encode())
    }
}

/// Reads the counter.
#[derive(Debug)]
pub struct ReadCount;

impl Wire for ReadCount {
    open spec fn spec_wire_len() -> nat {
        0
    }

    open spec fn to_wire(self) -> Seq<u8> {
        Seq::empty()
    }

    open spec fn of_wire(b: Seq<u8>) -> Option<Self> {
        if b.len() == 0 {
            Some(ReadCount)
        } else {
            None
        }
    }

    fn wire_len() -> usize {
        0
    }

    fn encode(&self) -> Vec<u8> {
        Vec::new()
    }

    fn decode(b: &[u8]) -> Option<Self> {
        if b.len() == 0 {
            Some(ReadCount)
        } else {
            None
        }
    }

    proof fn lemma_wire_len(self) {
    }

    proof fn lemma_wire_len_bound() {
    }

    proof fn lemma_parse_len(b: Seq<u8>) {
    }

    proof fn lemma_round_trip(self) {
        assert(self.to_wire().len() == 0);
    }
}

impl Query for ReadCount {
    type Return = u32;

    open spec fn spec_name() -> Seq<u8> {
        "read".spec_bytes()
    }

    fn name() -> &'static str {
        "read"
    }
}

/// Adds to the counter.
#[derive(Debug)]
pub struct Increment(pub u32);

impl Wire for Increment {
    open spec fn spec_wire_len() -> nat {
        4
    }

    open spec fn to_wire(self) -> Seq<u8> {
        self.0.to_wire()
    }

    open spec fn of_wire(b: Seq<u8>) -> Option<Self> {
        match u32::of_wire(b) {
            Some(v) => Some(Increment(v)),
            None => None,
        }
    }

    fn wire_len() -> usize {
        u32::wire_len()
    }

    fn encode(&self) -> Vec<u8> {
        self.0.encode()
    }

    fn decode(b: &[u8]) -> Option<Self> {
        match u32::decode(b) {
            Some(v) => Some(Increment(v)),
            None => None,
        }
    }

    proof fn lemma_wire_len(self) {
        self.0.lemma_wire_len();
    }

    proof fn lemma_wire_len_bound() {
    }

    proof fn lemma_parse_len(b: Seq<u8>) {
        u32::lemma_parse_len(b);
    }

    proof fn lemma_round_trip(self) {
        self.0.lemma_round_trip();
    }
}

impl Transaction for Increment {
    type Return = ();

    open spec fn spec_name() -> Seq<u8> {
        "incr".spec_bytes()
    }

    fn name() -> &'static str {
        "incr"
    }
}

impl<S: Store> Execute<ReadCount, S> for Counter {
    fn execute(&self, q: &ReadCount, store: &S) -> (r: u32)
        ensures
            r == self.spec_value(),
    {
        self.value
    }
}

impl<S: Store> Apply<Increment, S> for Counter {
    open spec fn apply_pre(self, t: Increment, store: S) -> bool {
        self.spec_value() + t.0 <= u32::MAX
    }

    fn apply(&mut self, t: Increment, store: &S) -> (r: ())
        ensures
            final(self).spec_value() == old(self).spec_value() + t.0,
    {
        self.value = self.value + t.0;
    }
}

/// When the `read` export is owed success: its regions lie inside the
/// memory image and the state archive validates.
pub open spec fn spec_read_ready(m0: Seq<u8>, state_ofs: u32, arg_ofs: u32, ret_ofs: u32) -> bool {
    &&& state_ofs + 4 <= m0.len()
    &&& arg_ofs <= m0.len()
    &&& ret_ofs + 4 <= m0.len()
    &&& Counter::of_wire(m0.subrange(state_ofs as int, state_ofs as int + 4)) is Some
}

/// What holds of the memory image after a successful `read`: the state
/// archive validated and the return slot carries the archived counter value,
/// with nothing else changed.
pub open spec fn spec_read_post(
    m0: Seq<u8>,
    m1: Seq<u8>,
    state_ofs: u32,
    arg_ofs: u32,
    ret_ofs: u32,
) -> bool {
    let c = Counter::of_wire(m0.subrange(state_ofs as int, state_ofs as int + 4));
    &&& c is Some
    &&& ret_ofs + 4 <= m0.len()
    &&& m1 == m0.subrange(0, ret_ofs as int) + c->Some_0.spec_value().to_wire() + m0.subrange(
        ret_ofs as int + 4,
        m0.len() as int,
    )
}

/// The `read` export: validates the archived state and argument, executes
/// the query, and writes the archived return value at the return offset.
/// Nothing but the return slot changes, and a trap changes nothing.
pub fn read<S: Store>(
    mem: &mut Vec<u8>,
    store: &S,
    state_ofs: u32,
    arg_ofs: u32,
    ret_ofs: u32,
) -> (r: Result<(), Trap>)
    ensures
        final(mem)@.len() == old(mem)@.len(),
        r is Err ==> final(mem)@ == old(mem)@,
        spec_read_ready(old(mem)@, state_ofs, arg_ofs, ret_ofs) ==> r is Ok,
        r is Ok ==> spec_read_post(old(mem)@, final(mem)@, state_ofs, arg_ofs, ret_ofs),
{
    let state_bytes = match mem_read(mem, state_ofs, Counter::wire_len()) {
        Some(b) => b,
        None => {
            return Err(Trap::MemoryOverrun);
        },
    };
    let c = match Counter::decode(state_bytes.as_slice()) {
        Some(c) => c,
        None => {
            return Err(Trap::BadState);
        },
    };
    let arg_bytes = match mem_read(mem, arg_ofs, ReadCount::wire_len()) {
        Some(b) => b,
        None => {
            return Err(Trap::MemoryOverrun);
        },
    };
    let q = match ReadCount::decode(arg_bytes.as_slice()) {
        Some(q) => q,
        None => {
            return Err(Trap::BadArgument);
        },
    };
    let result = Execute::<ReadCount, S>::execute(&c, &q, store);
    let out = Scratch::write(&result);
    proof {
        result.lemma_wire_len();
    }
    if mem_write(mem, ret_ofs, out.as_slice()) {
        Ok(())
    } else {
        Err(Trap::MemoryOverrun)
    }
}

/// When the `incr` export is owed success: its regions lie inside the
/// memory image, state and argument validate, and the sum stays in range.
pub open spec fn spec_incr_ready(m0: Seq<u8>, state_ofs: u32, arg_ofs: u32, ret_ofs: u32) -> bool {
    &&& state_ofs + 4 <= m0.len()
    &&& arg_ofs + 4 <= m0.len()
    &&& ({
        let c = Counter::of_wire(m0.subrange(state_ofs as int, state_ofs as int + 4));
        let t = Increment::of_wire(m0.subrange(arg_ofs as int, arg_ofs as int + 4));
        &&& c is Some
        &&& t is Some
        &&& c->Some_0.spec_value() + t->Some_0.0 <= u32::MAX
    })
}

/// What holds of the memory image after a successful `incr`: state and
/// argument validated, the sum stayed in range, and the state region now
/// archives the sum, with nothing else changed.
pub open spec fn spec_incr_post(
    m0: Seq<u8>,
    m1: Seq<u8>,
    state_ofs: u32,
    arg_ofs: u32,
    ret_ofs: u32,
) -> bool {
    let c = Counter::of_wire(m0.subrange(state_ofs as int, state_ofs as int + 4));
    let t = Increment::of_wire(m0.subrange(arg_ofs as int, arg_ofs as int + 4));
    &&& c is Some
    &&& t is Some
    &&& c->Some_0.spec_value() + t->Some_0.0 <= u32::MAX
    &&& state_ofs + 4 <= m0.len()
    &&& m1 == m0.subrange(0, state_ofs as int) + ((c->Some_0.spec_value() + t->Some_0.0)
        as u32).to_wire() + m0.subrange(state_ofs as int + 4, m0.len() as int)
}

/// The `incr` export: validates state and argument, applies the increment
/// unless it would overflow (a trap), and writes the new archived state back
/// over the state region.  A trap changes nothing.
pub fn incr<S: Store>(
    mem: &mut Vec<u8>,
    store: &S,
    state_ofs: u32,
    arg_ofs: u32,
    ret_ofs: u32,
) -> (r: Result<(), Trap>)
    ensures
        final(mem)@.len() == old(mem)@.len(),
        r is Err ==> final(mem)@ == old(mem)@,
        spec_incr_ready(old(mem)@, state_ofs, arg_ofs, ret_ofs) ==> r is Ok,
        r is Ok ==> spec_incr_post(old(mem)@, final(mem)@, state_ofs, arg_ofs, ret_ofs),
{
    let state_bytes = match mem_read(mem, state_ofs, Counter::wire_len()) {
        Some(b) => b,
        None => {
            return Err(Trap::MemoryOverrun);
        },
    };
    let mut c = match Counter::decode(state_bytes.as_slice()) {
        Some(c) => c,
        None => {
            return Err(Trap::BadState);
        },
    };
    let arg_bytes = match mem_read(mem, arg_ofs, Increment::wire_len()) {
        Some(b) => b,
        None => {
            return Err(Trap::MemoryOverrun);
        },
    };
    let t = match Increment::decode(arg_bytes.as_slice()) {
        Some(t) => t,
        None => {
            return Err(Trap::BadArgument);
        },
    };
    if c.value > u32::MAX - t.0 {
        return Err(Trap::Arithmetic);
    }
    Apply::<Increment, S>::apply(&mut c, t, store);
    let out = Scratch::write(&c);
    proof {
        c.lemma_wire_len();
    }
    if mem_write(mem, state_ofs, out.as_slice()) {
        Ok(())
    } else {
        Err(Trap::MemoryOverrun)
    }
}

} // verus!
