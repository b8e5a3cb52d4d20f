//! A treasury contract fixture: a total-supply query and a mint
//! transaction, together with the guest exports a sandboxed build of it
//! would expose.

use crate::definitions::{Apply, Execute, Query, RootState, Store, Transaction};
use crate::engine::{mem_read, mem_write, Trap};
use crate::scratch::Scratch;
use crate::wire::Wire;
use vstd::prelude::*;
use vstd::string::StringSliceAdditionalSpecFns;

verus! {

/// The contract state: the treasury's balance.
#[derive(Clone, Debug)]
pub struct Plutocracy {
    treasury: u64,
}

impl Plutocracy {
    pub closed spec fn spec_treasury(self) -> u64 {
        self.treasury
    }

    pub fn new() -> (r: Plutocracy)
        ensures
            r.spec_treasury() == 0,
    {
        Plutocracy { treasury: 0 }
    }
}

impl Default for Plutocracy {
    fn default() -> (r: Plutocracy)
        ensures
            r.spec_treasury() == 0,
    {
        Plutocracy { treasury: 0 }
    }
}

impl Wire for Plutocracy {
    open spec fn spec_wire_len() -> nat {
        8
    }

    open spec fn to_wire(self) -> Seq<u8> {
        self.spec_treasury().to_wire()
    }

    closed spec fn of_wire(b: Seq<u8>) -> Option<Self> {
        match u64::of_wire(b) {
            Some(v) => Some(Plutocracy { treasury: v }),
            None => None,
        }
    }

    fn wire_len() -> usize {
        u64::wire_len()
    }

    fn encode(&self) -> Vec<u8> {
        self.treasury.encode()
    }

    fn decode(b: &[u8]) -> Option<Self> {
        match u64::decode(b) {
            Some(v) => Some(Plutocracy { treasury: v }),
            None => None,
        }
    }

    proof fn lemma_wire_len(self) {
        self.spec_treasury().lemma_wire_len();
    }

    proof fn lemma_wire_len_bound() {
    }

    proof fn lemma_parse_len(b: Seq<u8>) {
        u64::lemma_parse_len(b);
    }

    proof fn lemma_round_trip(self) {
        self.spec_treasury().lemma_round_trip();
    }
}

/// A treasury archive is any eight bytes: the strict length check is the
/// whole of its validation.
pub proof fn lemma_plutocracy_accepts(b: Seq<u8>)
    ensures
        Plutocracy::of_wire(b) is Some <==> b.len() == 8,
{
}

/// Plutocracy archives in place: nothing needs to reach the store first.
impl<S: Store> RootState<S> for Plutocracy {
    open spec fn spec_can_persist(self, s: Seq<u8>) -> bool {
        true
    }

    open spec fn spec_persist_budget(self) -> nat {
        0
    }

    open spec fn spec_persisted(self, s0: Seq<u8>, s1: Seq<u8>, b: Seq<u8>) -> bool {
        b == self.to_wire()
    }

    fn persist_state(self, store: &mut S) -> (r: Option<Vec<u8>>)
        ensures
            r matches Some(b) ==> b@ == self.to_wire(),
    {
        proof {
            Self::lemma_wire_len_bound();
            self.lemma_wire_len();
            assert(store.contents().is_prefix_of(store.contents())) by {
                assert(store.contents().subrange(0, store.contents().len() as int)
                    =~= store.contents());
            }
        }
        Some(self.encode())
    }
}

/// Reads the treasury's balance.
#[derive(Debug)]
pub struct TotalSupply;

impl Wire for TotalSupply {
    open spec fn spec_wire_len() -> nat {
        0
    }

    open spec fn to_wire(self) -> Seq<u8> {
        Seq::empty()
    }

    open spec fn of_wire(b: Seq<u8>) -> Option<Self> {
        if b.len() == 0 {
            Some(TotalSupply)
        } else {
            None
        }
    }

    fn wire_len() -> usize {
        0
    }

    fn encode(&self) -> Vec<u8> {
        Vec::new()
    }

    fn decode(b: &[u8]) -> Option<Self> {
        if b.len() == 0 {
            Some(TotalSupply)
        } else {
            None
        }
    }

    proof fn lemma_wire_len(self) {
    }

    proof fn lemma_wire_len_bound() {
    }

    proof fn lemma_parse_len(b: Seq<u8>) {
    }

    proof fn lemma_round_trip(self) {
        assert(self.to_wire().len() == 0);
    }
}

impl Query for TotalSupply {
    type Return = u64;

    open spec fn spec_name() -> Seq<u8> {
        "total_supply".spec_bytes()
    }

    fn name() -> &'static str {
        "total_supply"
    }
}

/// Mints coins into the treasury.
#[derive(Debug)]
pub struct Mint {
    pub amount: u64,
}

impl Wire for Mint {
    open spec fn spec_wire_len() -> nat {
        8
    }

    open spec fn to_wire(self) -> Seq<u8> {
        self.amount.to_wire()
    }

    open spec fn of_wire(b: Seq<u8>) -> Option<Self> {
        match u64::of_wire(b) {
            Some(v) => Some(Mint { amount: v }),
            None => None,
        }
    }

    fn wire_len() -> usize {
        u64::wire_len()
    }

    fn encode(&self) -> Vec<u8> {
        self.amount.encode()
    }

    fn decode(b: &[u8]) -> Option<Self> {
        match u64::decode(b) {
            Some(v) => Some(Mint { amount: v }),
            None => None,
        }
    }

    proof fn lemma_wire_len(self) {
        self.amount.lemma_wire_len();
    }

    proof fn lemma_wire_len_bound() {
    }

    proof fn lemma_parse_len(b: Seq<u8>) {
        u64::lemma_parse_len(b);
    }

    proof fn lemma_round_trip(self) {
        self.amount.lemma_round_trip();
    }
}

impl Transaction for Mint {
    type Return = ();

    open spec fn spec_name() -> Seq<u8> {
        "mint".spec_bytes()
    }

    fn name() -> &'static str {
        "mint"
    }
}

impl<S: Store> Execute<TotalSupply, S> for Plutocracy {
    fn execute(&self, q: &TotalSupply, store: &S) -> (r: u64)
        ensures
            r == self.spec_treasury(),
    {
        self.treasury
    }
}

impl<S: Store> Apply<Mint, S> for Plutocracy {
    open spec fn apply_pre(self, t: Mint, store: S) -> bool {
        self.spec_treasury() + t.amount <= u64::MAX
    }

    fn apply(&mut self, t: Mint, store: &S) -> (r: ())
        ensures
            final(self).spec_treasury() == old(self).spec_treasury() + t.amount,
    {
        self.treasury = self.treasury + t.amount;
    }
}

/// When the `total_supply` export is owed success: its regions lie inside
/// the memory image and the state archive validates.
pub open spec fn spec_total_supply_ready(
    m0: Seq<u8>,
    state_ofs: u32,
    arg_ofs: u32,
    ret_ofs: u32,
) -> bool {
    &&& state_ofs + 8 <= m0.len()
    &&& arg_ofs <= m0.len()
    &&& ret_ofs + 8 <= m0.len()
    &&& Plutocracy::of_wire(m0.subrange(state_ofs as int, state_ofs as int + 8)) is Some
}

/// What holds of the memory image after a successful `total_supply`: the
/// state archive validated and the return slot carries the archived balance,
/// with nothing else changed.
pub open spec fn spec_total_supply_post(
    m0: Seq<u8>,
    m1: Seq<u8>,
    state_ofs: u32,
    arg_ofs: u32,
    ret_ofs: u32,
) -> bool {
    let c = Plutocracy::of_wire(m0.subrange(state_ofs as int, state_ofs as int + 8));
    &&& c is Some
    &&& ret_ofs + 8 <= m0.len()
    &&& m1 == m0.subrange(0, ret_ofs as int) + c->Some_0.spec_treasury().to_wire() + m0.subrange(
        ret_ofs as int + 8,
        m0.len() as int,
    )
}

/// The `total_supply` export: validates state and argument, executes the
/// query, and writes the archived balance at the return offset.
pub fn total_supply<S: Store>(
    mem: &mut Vec<u8>,
    store: &S,
    state_ofs: u32,
    arg_ofs: u32,
    ret_ofs: u32,
) -> (r: Result<(), Trap>)
    ensures
        final(mem)@.len() == old(mem)@.len(),
        r is Err ==> final(mem)@ == old(mem)@,
        spec_total_supply_ready(old(mem)@, state_ofs, arg_ofs, ret_ofs) ==> r is Ok,
        r is Ok ==> spec_total_supply_post(old(mem)@, final(mem)@, state_ofs, arg_ofs, ret_ofs),
{
    let state_bytes = match mem_read(mem, state_ofs, Plutocracy::wire_len()) {
        Some(b) => b,
        None => {
            return Err(Trap::MemoryOverrun);
        },
    };
    let c = match Plutocracy::decode(state_bytes.as_slice()) {
        Some(c) => c,
        None => {
            return Err(Trap::BadState);
        },
    };
    let arg_bytes = match mem_read(mem, arg_ofs, TotalSupply::wire_len()) {
        Some(b) => b,
        None => {
            return Err(Trap::MemoryOverrun);
        },
    };
    let q = match TotalSupply::decode(arg_bytes.as_slice()) {
        Some(q) => q,
        None => {
            return Err(Trap::BadArgument);
        },
    };
    let result = Execute::<TotalSupply, S>::execute(&c, &q, store);
    let out = Scratch::write(&result);
    proof {
        result.lemma_wire_len();
    }
    if mem_write(mem, ret_ofs, out.as_slice()) {
        Ok(())
    } else {
        Err(Trap::MemoryOverrun)
    }
}

/// When the `mint` export is owed success: its regions lie inside the
/// memory image, state and argument validate, and the sum stays in range.
pub open spec fn spec_mint_ready(m0: Seq<u8>, state_ofs: u32, arg_ofs: u32, ret_ofs: u32) -> bool {
    &&& state_ofs + 8 <= m0.len()
    &&& arg_ofs + 8 <= m0.len()
    &&& ({
        let c = Plutocracy::of_wire(m0.subrange(state_ofs as int, state_ofs as int + 8));
        let t = Mint::of_wire(m0.subrange(arg_ofs as int, arg_ofs as int + 8));
        &&& c is Some
        &&& t is Some
        &&& c->Some_0.spec_treasury() + t->Some_0.amount <= u64::MAX
    })
}

/// What holds of the memory image after a successful `mint`: state and
/// argument validated, the sum stayed in range, and the state region now
/// archives the sum, with nothing else changed.
pub open spec fn spec_mint_post(
    m0: Seq<u8>,
    m1: Seq<u8>,
    state_ofs: u32,
    arg_ofs: u32,
    ret_ofs: u32,
) -> bool {
    let c = Plutocracy::of_wire(m0.subrange(state_ofs as int, state_ofs as int + 8));
    let t = Mint::of_wire(m0.subrange(arg_ofs as int, arg_ofs as int + 8));
    &&& c is Some
    &&& t is Some
    &&& c->Some_0.spec_treasury() + t->Some_0.amount <= u64::MAX
    &&& state_ofs + 8 <= m0.len()
    &&& m1 == m0.subrange(0, state_ofs as int) + ((c->Some_0.spec_treasury()
        + t->Some_0.amount) as u64).to_wire() + m0.subrange(
        state_ofs as int + 8,
        m0.len() as int,
    )
}

/// The `mint` export: validates state and argument, applies the mint unless
/// it would overflow (a trap), and writes the new archived state back over
/// the state region.
pub fn mint<S: Store>(
    mem: &mut Vec<u8>,
    store: &S,
    state_ofs: u32,
    arg_ofs: u32,
    ret_ofs: u32,
) -> (r: Result<(), Trap>)
    ensures
        final(mem)@.len() == old(mem)@.len(),
        r is Err ==> final(mem)@ == old(mem)@,
        spec_mint_ready(old(mem)@, state_ofs, arg_ofs, ret_ofs) ==> r is Ok,
        r is Ok ==> spec_mint_post(old(mem)@, final(mem)@, state_ofs, arg_ofs, ret_ofs),
{
    let state_bytes = match mem_read(mem, state_ofs, Plutocracy::wire_len()) {
        Some(b) => b,
        None => {
            return Err(Trap::MemoryOverrun);
        },
    };
    let mut c = match Plutocracy::decode(state_bytes.as_slice()) {
        Some(c) => c,
        None => {
            return Err(Trap::BadState);
        },
    };
    let arg_bytes = match mem_read(mem, arg_ofs, Mint::wire_len()) {
        Some(b) => b,
        None => {
            return Err(Trap::MemoryOverrun);
        },
    };
    let t = match Mint::decode(arg_bytes.as_slice()) {
        Some(t) => t,
        None => {
            return Err(Trap::BadArgument);
        },
    };
    if c.treasury > u64::MAX - t.amount {
        return Err(Trap::Arithmetic);
    }
    Apply::<Mint, S>::apply(&mut c, t, store);
    let out = Scratch::write(&c);
    proof {
        c.lemma_wire_len();
    }
    if mem_write(mem, state_ofs, out.as_slice()) {
        Ok(())
    } else {
        Err(Trap::MemoryOverrun)
    }
}

} // verus!
