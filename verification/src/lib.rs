//! A host runtime that executes isolated contract modules against durable,
//! versioned state.
//!
//! The crate has two load-bearing pieces: a binary calling convention that
//! marshals a contract's root state and a method argument into a sandboxed
//! linear-memory guest, invokes a named export, and validates everything read
//! back; and a content-addressed, annotated persistent-tree framework that
//! contract state types are built from.

pub mod abi;
pub mod compound;
pub mod counter;
pub mod definitions;
pub mod engine;
pub mod funlink;
pub mod helpers;
pub mod host;
pub mod linked_list;
pub mod plutocracy;
pub mod rogue;
pub mod scratch;
pub mod wire;

pub use abi::{AbiStorage, AbiStore, DebugLog};
pub use compound::{Annotation, Cardinality, Child, Compound, Link, LinkState};
pub use counter::{Counter, Increment, ReadCount};
pub use definitions::{Apply, ContractId, Execute, Ident, Query, RootState, Store, Transaction};
pub use engine::{InvokeError, Module, Trap};
pub use funlink::{FunLink, Pop, Push};
pub use helpers::Hamt;
pub use host::{State, VMError};
pub use linked_list::LinkedList;
pub use plutocracy::{Mint, Plutocracy, TotalSupply};
pub use rogue::{SmashReturn, SmashState};
pub use scratch::Scratch;
pub use wire::Wire;
