//! The store backend and the debug channel that guests see across the
//! isolation boundary.
//!
//! [`AbiStorage`] is an append-only byte arena; [`AbiStore`] wraps it into the
//! [`Store`] interface.  Because the arena only grows, an identifier resolves
//! to the same bytes for as long as the store lives.

use crate::definitions::{Ident, Store};
use vstd::prelude::*;
use vstd::string::StringSliceAdditionalSpecFns;

verus! {

/// The serializer side of the backing store: an append-only byte arena.
#[derive(Clone)]
pub struct AbiStorage {
    bytes: Vec<u8>,
}

impl AbiStorage {
    pub closed spec fn spec_bytes(self) -> Seq<u8> {
        self.bytes@
    }

    pub fn new() -> (r: AbiStorage)
        ensures
            r.spec_bytes() == Seq::<u8>::empty(),
    {
        AbiStorage { bytes: Vec::new() }
    }

    /// The position the next write lands at.
    pub fn pos(&self) -> (n: usize)
        ensures
            n as nat == self.spec_bytes().len(),
    {
        self.bytes.len()
    }

    /// Appends raw bytes to the arena.
    pub fn write(&mut self, data: &[u8])
        ensures
            final(self).spec_bytes() == old(self).spec_bytes() + data@,
    {
        self.bytes.extend_from_slice(data);
    }

    /// Copies `len` bytes starting at `ofs` out of the arena, if in range.
    pub fn read(&self, ofs: usize, len: usize) -> (r: Option<Vec<u8>>)
        ensures
            r matches Some(v) ==> {
                &&& ofs + len <= self.spec_bytes().len()
                &&& v@ == self.spec_bytes().subrange(ofs as int, ofs as int + len as int)
            },
            r is None ==> ofs + len > self.spec_bytes().len(),
    {
        if len <= self.bytes.len() && ofs <= self.bytes.len() - len {
            let slice = vstd::slice::slice_subrange(self.bytes.as_slice(), ofs, ofs + len);
            Some(vstd::slice::slice_to_vec(slice))
        } else {
            None
        }
    }
}

/// The content-addressed store guests and hosts share.
#[derive(Clone)]
pub struct AbiStore {
    storage: AbiStorage,
}

impl AbiStore {
    pub fn new() -> (r: AbiStore)
        ensures
            r.contents() == Seq::<u8>::empty(),
    {
        AbiStore { storage: AbiStorage::new() }
    }
}

impl Store for AbiStore {
    closed spec fn contents(self) -> Seq<u8> {
        self.storage.spec_bytes()
    }

    fn put_bytes(&mut self, data: &[u8]) -> (id: Ident)
        ensures
            final(self).contents() == old(self).contents() + data@,
            id.ofs as nat == old(self).contents().len(),
            id.len as nat == data@.len(),
    {
        let ofs = self.storage.pos();
        self.storage.write(data);
        Ident { ofs: ofs as u32, len: data.len() as u32 }
    }

    fn get_bytes(&self, id: Ident) -> (r: Option<Vec<u8>>)
    {
        self.storage.read(id.ofs as usize, id.len as usize)
    }

    fn len(&self) -> (n: usize)
    {
        self.storage.pos()
    }
}

/// What a contract reported through the debug import during one call: the raw
/// byte slices it pointed the host at, in order.  Decoding them as UTF-8 is
/// best-effort and left to the embedder; a decode failure never aborts a call.
pub struct DebugLog {
    entries: Vec<Vec<u8>>,
}

impl DebugLog {
    pub closed spec fn spec_entries(self) -> Seq<Seq<u8>> {
        self.entries@.map_values(|v: Vec<u8>| v@)
    }

    pub fn new() -> (r: DebugLog)
        ensures
            r.spec_entries() == Seq::<Seq<u8>>::empty(),
    {
        DebugLog { entries: Vec::new() }
    }

    pub fn log(&mut self, message: Vec<u8>)
        ensures
            final(self).spec_entries() == old(self).spec_entries().push(message@),
    {
        self.entries.push(message);
        assert(final(self).spec_entries() =~= old(self).spec_entries().push(message@));
    }

    pub fn entry_count(&self) -> (n: usize)
        ensures
            n as nat == self.spec_entries().len(),
    {
        self.entries.len()
    }

    /// Hands one reported slice out, for the embedder to decode and print.
    pub fn entry(&self, i: usize) -> (r: Option<&Vec<u8>>)
        ensures
            r matches Some(v) ==> i < self.spec_entries().len() && v@ == self.spec_entries()[i as int],
            r is None ==> i >= self.spec_entries().len(),
    {
        if i < self.entries.len() {
            Some(&self.entries[i])
        } else {
            None
        }
    }
}

/// The guest-side debug import: reports a message to the host's log.  Logging
/// never fails and never touches contract state.
pub fn debug(log: &mut DebugLog, message: &str)
    ensures
        final(log).spec_entries() == old(log).spec_entries().push(message.spec_bytes()),
{
    let bytes = message.as_bytes();
    log.log(vstd::slice::slice_to_vec(bytes));
}

} // verus!
