//! The persistent annotated structure framework: compound nodes expose an
//! ordered set of children, links refer to subtrees that may live in memory
//! or in the backing store, and annotations summarize subtrees so aggregate
//! questions are answered from cached summaries instead of full traversals.

use crate::definitions::Ident;
use crate::wire::Wire;
use vstd::prelude::*;

verus! {

/// An associative, combinable summary over a subtree of leaves.
///
/// The merge operation is associative over the ordered sequence of a node's
/// children's annotations and has a neutral element (the annotation of an
/// empty subtree).
pub trait Annotation<Leaf>: Sized {
    spec fn spec_of_leaf(leaf: Leaf) -> Self;

    spec fn spec_neutral() -> Self;

    spec fn spec_combine(self, other: Self) -> Self;

    fn of_leaf(leaf: &Leaf) -> (r: Self)
        ensures
            r == Self::spec_of_leaf(*leaf),
    ;

    fn neutral() -> (r: Self)
        ensures
            r == Self::spec_neutral(),
    ;

    fn combine(self, other: Self) -> (r: Self)
        ensures
            r == self.spec_combine(other),
    ;

    fn same(&self, other: &Self) -> (r: bool)
        ensures
            r == (*self == *other),
    ;

    fn dup(&self) -> (r: Self)
        ensures
            r == *self,
    ;

    proof fn lemma_associative(a: Self, b: Self, c: Self)
        ensures
            a.spec_combine(b).spec_combine(c) == a.spec_combine(b.spec_combine(c)),
    ;

    proof fn lemma_neutral(a: Self)
        ensures
            Self::spec_neutral().spec_combine(a) == a,
            a.spec_combine(Self::spec_neutral()) == a,
    ;
}

/// The annotation of an ordered sequence of leaves: the leaves' annotations
/// merged left to right.
pub open spec fn spec_anno_of_seq<Leaf, A: Annotation<Leaf>>(leaves: Seq<Leaf>) -> A
    decreases leaves.len(),
{
    if leaves.len() == 0 {
        A::spec_neutral()
    } else {
        A::spec_of_leaf(leaves[0]).spec_combine(spec_anno_of_seq(leaves.drop_first()))
    }
}

/// The trivial annotation: summarizes nothing.
impl<Leaf> Annotation<Leaf> for () {
    open spec fn spec_of_leaf(leaf: Leaf) -> Self {
        ()
    }

    open spec fn spec_neutral() -> Self {
        ()
    }

    open spec fn spec_combine(self, other: Self) -> Self {
        ()
    }

    fn of_leaf(leaf: &Leaf) -> Self {
        ()
    }

    fn neutral() -> Self {
        ()
    }

    fn combine(self, other: Self) -> Self {
        ()
    }

    fn same(&self, other: &Self) -> bool {
        true
    }

    fn dup(&self) -> Self {
        ()
    }

    proof fn lemma_associative(a: Self, b: Self, c: Self) {
    }

    proof fn lemma_neutral(a: Self) {
    }
}

/// The number of leaves in a subtree, saturating at the counter's width.
#[derive(PartialEq, Eq, Structural, Clone, Copy, Debug)]
pub struct Cardinality {
    pub count: u64,
}

impl<Leaf> Annotation<Leaf> for Cardinality {
    open spec fn spec_of_leaf(leaf: Leaf) -> Self {
        Cardinality { count: 1 }
    }

    open spec fn spec_neutral() -> Self {
        Cardinality { count: 0 }
    }

    open spec fn spec_combine(self, other: Self) -> Self {
        if self.count + other.count <= u64::MAX {
            Cardinality { count: (self.count + other.count) as u64 }
        } else {
            Cardinality { count: u64::MAX }
        }
    }

    fn of_leaf(leaf: &Leaf) -> Self {
        Cardinality { count: 1 }
    }

    fn neutral() -> Self {
        Cardinality { count: 0 }
    }

    fn combine(self, other: Self) -> Self {
        if self.count <= u64::MAX - other.count {
            Cardinality { count: self.count + other.count }
        } else {
            Cardinality { count: u64::MAX }
        }
    }

    fn same(&self, other: &Self) -> bool {
        self.count == other.count
    }

    fn dup(&self) -> Self {
        Cardinality { count: self.count }
    }

    proof fn lemma_associative(a: Self, b: Self, c: Self) {
    }

    proof fn lemma_neutral(a: Self) {
    }
}

/// A cardinality archives as its count.
impl Wire for Cardinality {
    open spec fn spec_wire_len() -> nat {
        8
    }

    open spec fn to_wire(self) -> Seq<u8> {
        self.count.to_wire()
    }

    open spec fn of_wire(b: Seq<u8>) -> Option<Self> {
        match u64::of_wire(b) {
            Some(v) => Some(Cardinality { count: v }),
            None => None,
        }
    }

    fn wire_len() -> usize {
        u64::wire_len()
    }

    fn encode(&self) -> Vec<u8> {
        self.count.encode()
    }

    fn decode(b: &[u8]) -> Option<Self> {
        match u64::decode(b) {
            Some(v) => Some(Cardinality { count: v }),
            None => None,
        }
    }

    proof fn lemma_wire_len(self) {
        self.count.lemma_wire_len();
    }

    proof fn lemma_wire_len_bound() {
    }

    proof fn lemma_parse_len(b: Seq<u8>) {
        u64::lemma_parse_len(b);
    }

    proof fn lemma_round_trip(self) {
        self.count.lemma_round_trip();
    }
}

/// Where a link's subtree currently lives: materialized in memory (owned, not
/// yet persisted) or persisted (only an identifier held, fetched on demand).
pub enum LinkState<C> {
    Owned(Box<C>),
    Stored(Ident),
}

/// A reference to a subtree, possibly carrying a cached annotation computed
/// at the link's last construction or mutation.
///
/// The invariant a structure built from links maintains is that a cached
/// annotation always matches the subtree currently reachable through the
/// link; taking the subtree out for mutation clears the cache, and the
/// annotation is recomputed once the mutation completes.
pub struct Link<C, A> {
    pub state: LinkState<C>,
    pub anno: Option<A>,
}

impl<C, A> Link<C, A> {
    pub open spec fn spec_state(self) -> LinkState<C> {
        self.state
    }

    pub open spec fn spec_anno(self) -> Option<A> {
        self.anno
    }

    /// Wraps a freshly built subtree; no annotation is cached yet.
    pub fn new(c: C) -> (r: Link<C, A>)
        ensures
            r.spec_state() matches LinkState::Owned(b) && *b == c,
            r.spec_anno() is None,
    {
        Link { state: LinkState::Owned(Box::new(c)), anno: None }
    }

    /// Wraps a freshly built subtree together with its computed annotation.
    pub fn new_annotated(c: C, a: A) -> (r: Link<C, A>)
        ensures
            r.spec_state() matches LinkState::Owned(b) && *b == c,
            r.spec_anno() == Some(a),
    {
        Link { state: LinkState::Owned(Box::new(c)), anno: Some(a) }
    }

    /// Refers to a persisted subtree by identifier, with the annotation that
    /// was cached when the subtree was stored.
    pub fn stored(id: Ident, a: A) -> (r: Link<C, A>)
        ensures
            r.spec_state() matches LinkState::Stored(i) && i == id,
            r.spec_anno() == Some(a),
    {
        Link { state: LinkState::Stored(id), anno: Some(a) }
    }

    /// The cached annotation, if one is current.
    pub fn annotation(&self) -> (r: &Option<A>)
        ensures
            *r == self.spec_anno(),
    {
        &self.anno
    }

    /// Resolves the link one step: the owned subtree, or the identifier to
    /// fetch it by.  Consuming the link for mutation discards the cached
    /// annotation with it.
    pub fn into_state(self) -> (r: LinkState<C>)
        ensures
            r == self.spec_state(),
    {
        self.state
    }

    /// Peeks at where the subtree lives without resolving it.
    pub fn state_ref(&self) -> (r: &LinkState<C>)
        ensures
            *r == self.spec_state(),
    {
        &self.state
    }
}

/// One child of a compound node: a leaf value, a link to a subtree, or the
/// sentinel that terminates enumeration.
pub enum Child<'a, C: Compound<A>, A> {
    Leaf(&'a <C as Compound<A>>::Leaf),
    Node(&'a Link<C, A>),
    EndOfNode,
}

/// A state-tree node: an ordered set of children, each a leaf or a link to a
/// subtree.  Enumeration starts at index 0 and proceeds until `EndOfNode`;
/// child indices are stable and deterministic per node variant.
pub trait Compound<A>: Sized {
    type Leaf;

    fn child(&self, ofs: usize) -> Child<'_, Self, A>;
}

} // verus!
