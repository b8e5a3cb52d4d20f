//! Core definitions shared by hosts and contract state types: contract
//! identifiers, the content-addressed backing store abstraction, and the
//! method protocol (query and transaction capabilities).

use crate::wire::Wire;
use vstd::prelude::*;
use vstd::string::StringSliceAdditionalSpecFns;

verus! {

/// A fixed-width (256-bit) opaque identifier for a deployed contract.
#[derive(PartialEq, Eq, Structural, Hash, Clone, Copy, Debug, Default)]
pub struct ContractId {
    w0: u64,
    w1: u64,
    w2: u64,
    w3: u64,
}

impl ContractId {
    pub closed spec fn spec_words(self) -> (u64, u64, u64, u64) {
        (self.w0, self.w1, self.w2, self.w3)
    }

    pub closed spec fn spec_of(w0: u64, w1: u64, w2: u64, w3: u64) -> ContractId {
        ContractId { w0, w1, w2, w3 }
    }

    pub fn from_words(w0: u64, w1: u64, w2: u64, w3: u64) -> (r: ContractId)
        ensures
            r.spec_words() == (w0, w1, w2, w3),
            r == ContractId::spec_of(w0, w1, w2, w3),
    {
        ContractId { w0, w1, w2, w3 }
    }
}

/// A handle returned by [`Store::put_bytes`]: the position and length of the
/// stored bytes inside the store.  A given identifier always resolves to the
/// same bytes for the lifetime of the store.
#[derive(PartialEq, Eq, Structural, Clone, Copy, Debug)]
pub struct Ident {
    pub ofs: u32,
    pub len: u32,
}

/// A content-addressable backing store: `put_bytes` archives a value's bytes
/// and returns an identifier; `get_bytes` resolves an identifier back to the
/// very bytes that were stored.
///
/// The store only ever grows, so an identifier handed out once stays valid
/// and keeps resolving to the same bytes.
pub trait Store: Sized {
    /// Every byte the store holds, in storage order.
    spec fn contents(self) -> Seq<u8>;

    fn put_bytes(&mut self, data: &[u8]) -> (id: Ident)
        requires
            old(self).contents().len() + data@.len() <= u32::MAX,
        ensures
            final(self).contents() == old(self).contents() + data@,
            id.ofs as nat == old(self).contents().len(),
            id.len as nat == data@.len(),
    ;

    fn get_bytes(&self, id: Ident) -> (r: Option<Vec<u8>>)
        ensures
            r matches Some(v) ==> {
                &&& id.ofs + id.len <= self.contents().len()
                &&& v@ == self.contents().subrange(
                    id.ofs as int,
                    id.ofs as int + id.len as int,
                )
            },
            r is None ==> id.ofs + id.len > self.contents().len(),
    ;

    fn len(&self) -> (n: usize)
        ensures
            n as nat == self.contents().len(),
    ;
}

/// The store only grows, so anything reachable through an identifier before
/// more content is stored resolves to the same bytes afterwards.
pub proof fn lemma_store_stability<S: Store>(pre: S, post: S, id: Ident)
    requires
        pre.contents().is_prefix_of(post.contents()),
        id.ofs + id.len <= pre.contents().len(),
    ensures
        post.contents().subrange(id.ofs as int, id.ofs as int + id.len as int)
            == pre.contents().subrange(id.ofs as int, id.ofs as int + id.len as int),
{
    assert(post.contents().subrange(id.ofs as int, id.ofs as int + id.len as int)
        =~= pre.contents().subrange(id.ofs as int, id.ofs as int + id.len as int));
}

/// A type that can be a contract's root state: it archives itself into a
/// fixed-footprint state buffer, persisting any subtrees into the store
/// first.
pub trait RootState<S: Store>: Sized {
    /// When an archive is owed: the value is well formed against the store.
    spec fn spec_can_persist(self, s: Seq<u8>) -> bool;

    /// How many bytes persisting may append to the store, at most.
    spec fn spec_persist_budget(self) -> nat;

    /// What a produced state archive means: with the store grown from `s0`
    /// to `s1`, the bytes `b` stand for this value.
    spec fn spec_persisted(self, s0: Seq<u8>, s1: Seq<u8>, b: Seq<u8>) -> bool;

    fn persist_state(self, store: &mut S) -> (r: Option<Vec<u8>>)
        ensures
            old(store).contents().is_prefix_of(final(store).contents()),
            final(store).contents().len() <= old(store).contents().len()
                + self.spec_persist_budget(),
            r matches Some(b) ==> b@.len() <= 0x0010_0000 && self.spec_persisted(
                old(store).contents(),
                final(store).contents(),
                b@,
            ),
            r is None ==> !self.spec_can_persist(old(store).contents()) || old(
                store,
            ).contents().len() + self.spec_persist_budget() > u32::MAX,
    ;
}

/// A read-only method: a stable name, an archivable argument (the type
/// itself) and an archivable return type.
pub trait Query: Wire {
    type Return: Wire;

    /// The guest export this method is dispatched to, as UTF-8 bytes.
    spec fn spec_name() -> Seq<u8>;

    fn name() -> (r: &'static str)
        ensures
            r.spec_bytes() == Self::spec_name(),
    ;
}

/// A mutating method: a stable name, an archivable argument (the type
/// itself) and an archivable return type.
pub trait Transaction: Wire {
    type Return: Wire;

    /// The guest export this method is dispatched to, as UTF-8 bytes.
    spec fn spec_name() -> Seq<u8>;

    fn name() -> (r: &'static str)
        ensures
            r.spec_bytes() == Self::spec_name(),
    ;
}

/// The capability of a state type to answer a query: it operates on an
/// immutable state snapshot and never mutates anything.
pub trait Execute<Q: Query, S: Store> {
    fn execute(&self, q: &Q, store: &S) -> Q::Return;
}

/// The capability of a state type to apply a transaction: it operates on the
/// state by mutable reference and produces a return value and the mutated
/// state.
pub trait Apply<T: Transaction, S: Store>: Sized {
    /// The inputs the transaction is defined on; a guest traps on the rest.
    spec fn apply_pre(self, t: T, store: S) -> bool;

    fn apply(&mut self, t: T, store: &S) -> T::Return
        requires
            old(self).apply_pre(t, *store),
    ;
}

} // verus!
