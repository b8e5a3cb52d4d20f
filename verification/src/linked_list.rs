//! A singly linked list expressed in terms of the persistent structure
//! framework: every node is either empty or a value plus a link to the rest,
//! and a link's subtree may live in memory or in the backing store.
//!
//! The archived form of a node has a fixed footprint: a tag byte, the value's
//! archive, the identifier of the tail node, and the tail's cached
//! annotation.  A chain in the store is well formed when every node parses,
//! every tail lies strictly before the node referring to it, and every cached
//! annotation matches the leaves actually reachable through its link.

use crate::compound::{spec_anno_of_seq, Annotation, Child, Compound, Link, LinkState};
use crate::definitions::{Ident, Store};
use crate::wire::Wire;
use vstd::bytes::*;
use vstd::prelude::*;

verus! {

/// A persistent singly linked list: empty, or a value plus a link to the
/// rest.  Index 0 of a node is the stored value, index 1 the link to the
/// tail.
pub enum LinkedList<T, A> {
    Empty,
    Node { val: T, next: Link<LinkedList<T, A>, A> },
}

/// Archived footprint of one list node.
pub open spec fn spec_node_len<T: Wire, A: Wire>() -> nat {
    1 + T::spec_wire_len() + 8 + A::spec_wire_len()
}

/// The canonical archived form of a node whose tail is already persisted:
/// tag, value, tail identifier, tail annotation.  A node whose tail is still
/// owned has no archived form yet.
pub open spec fn spec_node_wire<T: Wire, A: Annotation<T> + Wire>(
    node: LinkedList<T, A>,
) -> Option<Seq<u8>> {
    match node {
        LinkedList::Empty => Some(
            seq![0u8] + Seq::new((spec_node_len::<T, A>() - 1) as nat, |i: int| 0u8),
        ),
        LinkedList::Node { val, next } => match (next.state, next.anno) {
            (LinkState::Stored(id), Some(a)) => Some(
                seq![1u8] + val.to_wire() + spec_u32_to_le_bytes(id.ofs)
                    + spec_u32_to_le_bytes(id.len) + a.to_wire(),
            ),
            _ => None,
        },
    }
}

/// Strict structural parse of one archived node.  The only archives accepted
/// are the canonical ones: a zero-filled empty node, or a tagged node whose
/// value and annotation both parse.
pub open spec fn spec_node_of_wire<T: Wire, A: Annotation<T> + Wire>(
    b: Seq<u8>,
) -> Option<LinkedList<T, A>> {
    let tl = T::spec_wire_len() as int;
    if b.len() == spec_node_len::<T, A>() {
        if b[0] == 0u8 {
            if forall|i: int| 1 <= i < b.len() ==> b[i] == 0u8 {
                Some(LinkedList::Empty)
            } else {
                None
            }
        } else if b[0] == 1u8 {
            match T::of_wire(b.subrange(1, 1 + tl)) {
                None => None,
                Some(val) => {
                    let ofs = spec_u32_from_le_bytes(b.subrange(1 + tl, 1 + tl + 4));
                    let len = spec_u32_from_le_bytes(b.subrange(1 + tl + 4, 1 + tl + 8));
                    match A::of_wire(b.subrange(1 + tl + 8, b.len() as int)) {
                        None => None,
                        Some(a) => Some(
                            LinkedList::Node {
                                val,
                                next: Link {
                                    state: LinkState::Stored(Ident { ofs, len }),
                                    anno: Some(a),
                                },
                            },
                        ),
                    }
                },
            }
        } else {
            None
        }
    } else {
        None
    }
}

/// The leaves reachable from the node archived at `id` in store contents
/// `s`, or `None` when the chain there is not well formed.  Chains only ever
/// point backwards in the store, so enumeration terminates.
pub open spec fn spec_rep_at<T: Wire, A: Annotation<T> + Wire>(s: Seq<u8>, id: Ident) -> Option<
    Seq<T>,
>
    decreases id.ofs,
{
    if id.len == spec_node_len::<T, A>() && id.ofs + id.len <= s.len() {
        match spec_node_of_wire::<T, A>(
            s.subrange(id.ofs as int, id.ofs as int + id.len as int),
        ) {
            None => None,
            Some(LinkedList::Empty) => Some(Seq::empty()),
            Some(LinkedList::Node { val, next }) => match next.state {
                LinkState::Owned(_) => None,
                LinkState::Stored(nid) => {
                    if nid.len == spec_node_len::<T, A>() && nid.ofs + nid.len <= id.ofs
                        && spec_node_len::<T, A>() >= 1 {
                        match spec_rep_at::<T, A>(s, nid) {
                            None => None,
                            Some(tail) => {
                                if next.anno == Some(spec_anno_of_seq::<T, A>(tail)) {
                                    Some(seq![val] + tail)
                                } else {
                                    None
                                }
                            },
                        }
                    } else {
                        None
                    }
                },
            },
        }
    } else {
        None
    }
}

/// The leaves reachable through a link, whether its subtree is owned or
/// persisted.
pub open spec fn spec_link_rep<T: Wire, A: Annotation<T> + Wire>(
    link: Link<LinkedList<T, A>, A>,
    s: Seq<u8>,
) -> Option<Seq<T>>
    decreases link,
{
    match link.state {
        LinkState::Owned(b) => spec_view(*b, s),
        LinkState::Stored(id) => spec_rep_at::<T, A>(s, id),
    }
}

/// The ordered leaves of an in-memory list relative to store contents `s`,
/// or `None` when the list (or the part of it living in the store) is not
/// well formed.  Well-formedness includes every link's cached annotation
/// matching the leaves reachable through it.
pub open spec fn spec_view<T: Wire, A: Annotation<T> + Wire>(
    l: LinkedList<T, A>,
    s: Seq<u8>,
) -> Option<Seq<T>>
    decreases l,
{
    match l {
        LinkedList::Empty => Some(Seq::empty()),
        LinkedList::Node { val, next } => {
            let tail = match next.state {
                LinkState::Owned(b) => spec_view(*b, s),
                LinkState::Stored(id) => spec_rep_at::<T, A>(s, id),
            };
            match tail {
                None => None,
                Some(ts) => {
                    if next.anno == Some(spec_anno_of_seq::<T, A>(ts)) {
                        Some(seq![val] + ts)
                    } else {
                        None
                    }
                },
            }
        },
    }
}

/// A list is well formed relative to store contents `s` when its leaves are
/// defined there.
pub open spec fn spec_wf<T: Wire, A: Annotation<T> + Wire>(
    l: LinkedList<T, A>,
    s: Seq<u8>,
) -> bool {
    spec_view(l, s) is Some
}

impl<T, A> Default for LinkedList<T, A> {
    fn default() -> (r: Self)
        ensures
            r == LinkedList::<T, A>::Empty,
    {
        LinkedList::Empty
    }
}

impl<T: Wire, A: Annotation<T> + Wire> LinkedList<T, A> {
    pub fn new() -> (r: Self)
        ensures
            r == LinkedList::<T, A>::Empty,
    {
        LinkedList::Empty
    }

    /// Archived footprint of one node, as a machine integer.
    pub fn node_len() -> (n: usize)
        ensures
            n as nat == spec_node_len::<T, A>(),
            1 <= n <= 131081,
    {
        proof {
            T::lemma_wire_len_bound();
            A::lemma_wire_len_bound();
        }
        1 + T::wire_len() + 8 + A::wire_len()
    }

    /// Encodes a node whose tail is already persisted.
    pub fn encode_node(&self) -> (out: Vec<u8>)
        requires
            spec_node_wire(*self) is Some,
        ensures
            Some(out@) == spec_node_wire(*self),
            out@.len() == spec_node_len::<T, A>(),
    {
        proof {
            T::lemma_wire_len_bound();
            A::lemma_wire_len_bound();
        }
        match self {
            LinkedList::Empty => {
                let n = Self::node_len();
                let out = vec![0u8; n];
                proof {
                    assert(out@ =~= seq![0u8] + Seq::new(
                        (spec_node_len::<T, A>() - 1) as nat,
                        |i: int| 0u8,
                    ));
                }
                out
            },
            LinkedList::Node { val, next } => {
                let mut out: Vec<u8> = Vec::new();
                out.push(1u8);
                let val_bytes = val.encode();
                out.extend_from_slice(val_bytes.as_slice());
                let id = match next.state_ref() {
                    LinkState::Stored(id) => *id,
                    LinkState::Owned(_) => {
                        proof {
                            assert(false);
                        }
                        Ident { ofs: 0, len: 0 }
                    },
                };
                let ofs_bytes = u32_to_le_bytes(id.ofs);
                out.extend_from_slice(ofs_bytes.as_slice());
                let len_bytes = u32_to_le_bytes(id.len);
                out.extend_from_slice(len_bytes.as_slice());
                let anno = match next.annotation() {
                    Some(a) => a.dup(),
                    None => {
                        proof {
                            assert(false);
                        }
                        A::neutral()
                    },
                };
                let anno_bytes = anno.encode();
                out.extend_from_slice(anno_bytes.as_slice());
                proof {
                    (*val).lemma_wire_len();
                    anno.lemma_wire_len();
                    lemma_auto_spec_u32_to_from_le_bytes();
                    assert(out@ =~= spec_node_wire(*self)->Some_0);
                }
                out
            },
        }
    }

    /// Validates and decodes one archived node; accepts exactly the
    /// canonical archives.
    pub fn decode_node(b: &[u8]) -> (r: Option<Self>)
        ensures
            r == spec_node_of_wire::<T, A>(b@),
    {
        proof {
            T::lemma_wire_len_bound();
            A::lemma_wire_len_bound();
        }
        let n = Self::node_len();
        let tl = T::wire_len();
        if b.len() != n {
            return None;
        }
        let tag = *vstd::slice::slice_index_get(b, 0);
        if tag == 0u8 {
            let mut i: usize = 1;
            while i < n
                invariant
                    1 <= i <= n,
                    b@.len() == n,
                    b@[0] == 0u8,
                    n as nat == spec_node_len::<T, A>(),
                    forall|j: int| 1 <= j < i ==> b@[j] == 0u8,
                decreases n - i,
            {
                if *vstd::slice::slice_index_get(b, i) != 0u8 {
                    proof {
                        assert(!(forall|j: int| 1 <= j < b@.len() ==> b@[j] == 0u8)) by {
                            assert(b@[i as int] != 0u8);
                        }
                    }
                    return None;
                }
                i = i + 1;
            }
            Some(LinkedList::Empty)
        } else if tag == 1u8 {
            let val_slice = vstd::slice::slice_subrange(b, 1, 1 + tl);
            let val = match T::decode(val_slice) {
                Some(v) => v,
                None => {
                    return None;
                },
            };
            let ofs_slice = vstd::slice::slice_subrange(b, 1 + tl, 1 + tl + 4);
            let ofs = u32_from_le_bytes(ofs_slice);
            let len_slice = vstd::slice::slice_subrange(b, 1 + tl + 4, 1 + tl + 8);
            let len = u32_from_le_bytes(len_slice);
            let anno_slice = vstd::slice::slice_subrange(b, 1 + tl + 8, n);
            let a = match A::decode(anno_slice) {
                Some(a) => a,
                None => {
                    return None;
                },
            };
            Some(
                LinkedList::Node {
                    val,
                    next: Link { state: LinkState::Stored(Ident { ofs, len }), anno: Some(a) },
                },
            )
        } else {
            None
        }
    }
}

/// The annotation of a list computed from what the list's head holds: the
/// neutral element for an empty list, the head leaf's annotation merged with
/// the tail link's cached annotation otherwise.  No traversal is needed.
pub open spec fn spec_local_anno<T: Wire, A: Annotation<T> + Wire>(l: LinkedList<T, A>) -> Option<
    A,
> {
    match l {
        LinkedList::Empty => Some(A::spec_neutral()),
        LinkedList::Node { val, next } => match next.anno {
            None => None,
            Some(a) => Some(A::spec_of_leaf(val).spec_combine(a)),
        },
    }
}

/// On a well-formed list the cached summary answers the aggregate question
/// exactly: it equals the annotation folded over all leaves.
pub proof fn lemma_local_anno<T: Wire, A: Annotation<T> + Wire>(l: LinkedList<T, A>, s: Seq<u8>)
    requires
        spec_wf(l, s),
    ensures
        spec_local_anno(l) == Some(spec_anno_of_seq::<T, A>(spec_view(l, s)->Some_0)),
{
    match l {
        LinkedList::Empty => {
            assert(spec_view(l, s)->Some_0 =~= Seq::<T>::empty());
        },
        LinkedList::Node { val, next } => {
            let ts = match next.state {
                LinkState::Owned(b) => spec_view(*b, s)->Some_0,
                LinkState::Stored(id) => spec_rep_at::<T, A>(s, id)->Some_0,
            };
            let v = spec_view(l, s)->Some_0;
            assert(v =~= seq![val] + ts);
            assert(v[0] == val);
            assert(v.drop_first() =~= ts);
            assert(spec_anno_of_seq::<T, A>(v) == A::spec_of_leaf(val).spec_combine(
                spec_anno_of_seq::<T, A>(ts),
            ));
        },
    }
}

impl<T: Wire, A: Annotation<T> + Wire> LinkedList<T, A> {
    /// Answers the aggregate question for the whole list from the cached
    /// summaries, without traversing the chain.
    pub fn annotation_of(&self) -> (r: A)
        requires
            spec_local_anno(*self) is Some,
        ensures
            Some(r) == spec_local_anno(*self),
    {
        match self {
            LinkedList::Empty => A::neutral(),
            LinkedList::Node { val, next } => match next.annotation() {
                Some(a) => A::of_leaf(val).combine(a.dup()),
                None => {
                    proof {
                        assert(false);
                    }
                    A::neutral()
                },
            },
        }
    }

    /// Pushes a value: wraps the current structure as the new head's tail,
    /// making the pushed value the new head.  Touches only the new node; the
    /// store is not involved.
    pub fn push(&mut self, t: T)
        requires
            spec_local_anno(*old(self)) is Some,
        ensures
            spec_local_anno(*final(self)) is Some,
            *final(self) matches LinkedList::Node { val, .. } && val == t,
            spec_persist_size(*final(self)) == spec_node_len::<T, A>() + spec_persist_size(
                *old(self),
            ),
            forall|s: Seq<u8>| (#[trigger] spec_view(*old(self), s)) is Some
                ==> spec_view(*final(self), s) == Some(
                    seq![t] + spec_view(*old(self), s)->Some_0,
                ),
    {
        let anno = self.annotation_of();
        let mut tmp = LinkedList::Empty;
        core::mem::swap(self, &mut tmp);
        *self = LinkedList::Node { val: t, next: Link::new_annotated(tmp, anno) };
        proof {
            assert forall|s: Seq<u8>| (#[trigger] spec_view(*old(self), s)) is Some implies
                spec_view(*final(self), s) == Some(
                    seq![t] + spec_view(*old(self), s)->Some_0,
                ) by {
                lemma_local_anno(*old(self), s);
            }
        }
    }

    /// Resolves a link one step: hands back the owned subtree, or fetches and
    /// validates exactly one node from the store.
    fn unlink<S: Store>(link: Link<LinkedList<T, A>, A>, store: &S) -> (r: Self)
        requires
            spec_link_rep(link, store.contents()) is Some,
        ensures
            spec_view(r, store.contents()) == spec_link_rep(link, store.contents()),
            spec_persist_size(r) <= (match link.state {
                LinkState::Owned(b) => spec_persist_size(*b),
                LinkState::Stored(_) => spec_node_len::<T, A>(),
            }),
    {
        match link.into_state() {
            LinkState::Owned(b) => *b,
            LinkState::Stored(id) => {
                let bytes = match store.get_bytes(id) {
                    Some(v) => v,
                    None => {
                        proof {
                            assert(false);
                        }
                        Vec::new()
                    },
                };
                match Self::decode_node(bytes.as_slice()) {
                    Some(node) => node,
                    None => {
                        proof {
                            assert(false);
                        }
                        LinkedList::Empty
                    },
                }
            },
        }
    }

    /// Pops the head value and replaces the structure with the unwrapped
    /// tail; signals "empty" on an empty structure.  Touches at most one node
    /// and its tail link, never the whole chain.
    pub fn pop<S: Store>(&mut self, store: &S) -> (r: Option<T>)
        requires
            spec_wf(*old(self), store.contents()),
        ensures
            spec_persist_size(*final(self)) <= spec_persist_size(*old(self)),
            ({
                let v = spec_view(*old(self), store.contents())->Some_0;
                match r {
                    None => v.len() == 0 && *final(self) == *old(self),
                    Some(t) => {
                        &&& v.len() > 0
                        &&& t == v[0]
                        &&& spec_view(*final(self), store.contents()) == Some(v.drop_first())
                    },
                }
            }),
    {
        let mut tmp = LinkedList::Empty;
        core::mem::swap(self, &mut tmp);
        match tmp {
            LinkedList::Empty => None,
            LinkedList::Node { val, next } => {
                proof {
                    let v = spec_view(*old(self), store.contents())->Some_0;
                    let ts = spec_link_rep(next, store.contents())->Some_0;
                    assert(v =~= seq![val] + ts);
                    assert(v.drop_first() =~= ts);
                }
                *self = Self::unlink(next, store);
                Some(val)
            },
        }
    }
}

/// Growing the store never changes what an already-stored chain represents.
pub proof fn lemma_rep_at_prefix<T: Wire, A: Annotation<T> + Wire>(
    s1: Seq<u8>,
    s2: Seq<u8>,
    id: Ident,
)
    requires
        s1.is_prefix_of(s2),
        id.ofs + id.len <= s1.len(),
    ensures
        spec_rep_at::<T, A>(s2, id) == spec_rep_at::<T, A>(s1, id),
    decreases id.ofs,
{
    assert(s2.subrange(id.ofs as int, id.ofs as int + id.len as int) =~= s1.subrange(
        id.ofs as int,
        id.ofs as int + id.len as int,
    ));
    if id.len == spec_node_len::<T, A>() {
        match spec_node_of_wire::<T, A>(
            s1.subrange(id.ofs as int, id.ofs as int + id.len as int),
        ) {
            Some(LinkedList::Node { val, next }) => match next.state {
                LinkState::Stored(nid) => {
                    if nid.len == spec_node_len::<T, A>() && nid.ofs + nid.len <= id.ofs {
                        lemma_rep_at_prefix::<T, A>(s1, s2, nid);
                    }
                },
                _ => {},
            },
            _ => {},
        }
    }
}

/// Growing the store never changes the view of a well-formed in-memory list.
pub proof fn lemma_view_prefix<T: Wire, A: Annotation<T> + Wire>(
    l: LinkedList<T, A>,
    s1: Seq<u8>,
    s2: Seq<u8>,
)
    requires
        s1.is_prefix_of(s2),
        spec_wf(l, s1),
    ensures
        spec_view(l, s2) == spec_view(l, s1),
    decreases l,
{
    match l {
        LinkedList::Empty => {},
        LinkedList::Node { val, next } => match next.state {
            LinkState::Owned(b) => {
                lemma_view_prefix(*b, s1, s2);
            },
            LinkState::Stored(id) => {
                lemma_rep_at_prefix::<T, A>(s1, s2, id);
            },
        },
    }
}

/// How many bytes persisting a list appends to the store at most: one node
/// for each subtree still owned in memory, plus the root.
pub open spec fn spec_persist_size<T: Wire, A: Annotation<T> + Wire>(l: LinkedList<T, A>) -> nat
    decreases l,
{
    match l {
        LinkedList::Empty => spec_node_len::<T, A>(),
        LinkedList::Node { val, next } => match next.state {
            LinkState::Owned(b) => spec_node_len::<T, A>() + spec_persist_size(*b),
            LinkState::Stored(_) => spec_node_len::<T, A>(),
        },
    }
}

impl<T: Wire, A: Annotation<T> + Wire> LinkedList<T, A> {
    /// Archives the list into the store, bottom up: every subtree still owned
    /// in memory is stored, and the identifier of the root node comes back.
    /// What the stored chain represents is exactly what the list represented
    /// before.
    pub fn persist<S: Store>(self, store: &mut S) -> (id: Ident)
        requires
            spec_wf(self, old(store).contents()),
            old(store).contents().len() + spec_persist_size(self) <= u32::MAX,
        ensures
            old(store).contents().is_prefix_of(final(store).contents()),
            final(store).contents().len() <= old(store).contents().len() + spec_persist_size(
                self,
            ),
            id.len as nat == spec_node_len::<T, A>(),
            id.ofs + id.len <= final(store).contents().len(),
            spec_rep_at::<T, A>(final(store).contents(), id) == spec_view(
                self,
                old(store).contents(),
            ),
        decreases self,
    {
        let ghost s0 = store.contents();
        match self {
            LinkedList::Empty => {
                let node = LinkedList::<T, A>::Empty;
                let bytes = node.encode_node();
                let id = store.put_bytes(bytes.as_slice());
                proof {
                    lemma_node_round_trip::<T, A>(LinkedList::Empty);
                    assert(final(store).contents().subrange(
                        id.ofs as int,
                        id.ofs as int + id.len as int,
                    ) =~= bytes@);
                    assert(s0.is_prefix_of(final(store).contents())) by {
                        assert(final(store).contents().subrange(0, s0.len() as int) =~= s0);
                    }
                }
                id
            },
            LinkedList::Node { val, next } => {
                let Link { state, anno } = next;
                let a = match anno {
                    Some(a) => a,
                    None => {
                        proof {
                            assert(false);
                        }
                        A::neutral()
                    },
                };
                let ghost tail_rep = spec_link_rep(
                    Link { state: state, anno: Some(a) },
                    s0,
                )->Some_0;
                let nid = match state {
                    LinkState::Stored(nid) => {
                        proof {
                            assert(store.contents().is_prefix_of(store.contents())) by {
                                assert(store.contents().subrange(
                                    0,
                                    store.contents().len() as int,
                                ) =~= store.contents());
                            }
                        }
                        nid
                    },
                    LinkState::Owned(b) => (*b).persist(store),
                };
                let ghost s_mid = store.contents();
                proof {
                    assert(s0.is_prefix_of(s_mid));
                    assert(spec_rep_at::<T, A>(s_mid, nid) == Some(tail_rep)) by {
                        if state is Stored {
                            assert(s_mid == s0);
                        }
                    }
                    assert(nid.len as nat == spec_node_len::<T, A>());
                    assert(nid.ofs + nid.len <= s_mid.len());
                }
                let new_node = LinkedList::Node { val, next: Link::stored(nid, a) };
                let bytes = new_node.encode_node();
                let id = store.put_bytes(bytes.as_slice());
                proof {
                    let s_fin = final(store).contents();
                    lemma_node_round_trip::<T, A>(new_node);
                    assert(s_fin.subrange(id.ofs as int, id.ofs as int + id.len as int)
                        =~= bytes@);
                    assert(s_mid.is_prefix_of(s_fin)) by {
                        assert(s_fin.subrange(0, s_mid.len() as int) =~= s_mid);
                    }
                    assert(s0.is_prefix_of(s_fin)) by {
                        assert(s_fin.subrange(0, s0.len() as int) =~= s0);
                    }
                    lemma_rep_at_prefix::<T, A>(s_mid, s_fin, nid);
                    assert(spec_rep_at::<T, A>(s_fin, nid) == Some(tail_rep));
                    assert(spec_rep_at::<T, A>(s_fin, id) == Some(seq![val] + tail_rep));
                    assert(spec_view(self, s0) == Some(seq![val] + tail_rep));
                }
                id
            },
        }
    }
}

impl<T: Wire, A: Annotation<T> + Wire> LinkedList<T, A> {
    /// Walks and validates the chain archived at `id`: every node must
    /// parse, point strictly backwards, and carry the annotation of the
    /// leaves its link actually reaches.  Returns the annotation of the whole
    /// chain when it is well formed.
    pub fn check_rep<S: Store>(store: &S, id: Ident) -> (r: Option<A>)
        ensures
            match spec_rep_at::<T, A>(store.contents(), id) {
                Some(tail) => r == Some(spec_anno_of_seq::<T, A>(tail)),
                None => r is None,
            },
        decreases id.ofs,
    {
        let n = Self::node_len();
        if id.len as usize != n {
            return None;
        }
        let bytes = match store.get_bytes(id) {
            Some(b) => b,
            None => {
                return None;
            },
        };
        match Self::decode_node(bytes.as_slice()) {
            None => None,
            Some(LinkedList::Empty) => Some(A::neutral()),
            Some(LinkedList::Node { val, next }) => {
                let Link { state, anno } = next;
                let nid = match state {
                    LinkState::Stored(nid) => nid,
                    LinkState::Owned(_) => {
                        proof {
                            assert(false);
                        }
                        return None;
                    },
                };
                if nid.len as usize != n {
                    return None;
                }
                if nid.ofs as u64 + n as u64 > id.ofs as u64 {
                    return None;
                }
                match Self::check_rep(store, nid) {
                    None => None,
                    Some(tail_anno) => {
                        let a = match anno {
                            Some(a) => a,
                            None => {
                                proof {
                                    assert(false);
                                }
                                return None;
                            },
                        };
                        if a.same(&tail_anno) {
                            let ghost tail = spec_rep_at::<T, A>(store.contents(), nid)->Some_0;
                            proof {
                                let whole = seq![val] + tail;
                                assert(whole[0] == val);
                                assert(whole.drop_first() =~= tail);
                            }
                            Some(A::of_leaf(&val).combine(tail_anno))
                        } else {
                            None
                        }
                    },
                }
            },
        }
    }

    /// Validates an in-memory list against the store: returns the annotation
    /// of all its leaves exactly when the list is well formed.
    pub fn check_anno<S: Store>(&self, store: &S) -> (r: Option<A>)
        ensures
            match spec_view(*self, store.contents()) {
                Some(v) => r == Some(spec_anno_of_seq::<T, A>(v)),
                None => r is None,
            },
        decreases self,
    {
        match self {
            LinkedList::Empty => Some(A::neutral()),
            LinkedList::Node { val, next } => {
                let tail_anno = match next.state_ref() {
                    LinkState::Owned(b) => (&**b).check_anno(store),
                    LinkState::Stored(id) => Self::check_rep(store, *id),
                };
                match tail_anno {
                    None => None,
                    Some(tail_anno) => {
                        let cached = match next.annotation() {
                            Some(a) => a,
                            None => {
                                return None;
                            },
                        };
                        if cached.same(&tail_anno) {
                            let ghost tail = spec_link_rep(*next, store.contents())->Some_0;
                            proof {
                                let whole = seq![*val] + tail;
                                assert(whole[0] == *val);
                                assert(whole.drop_first() =~= tail);
                            }
                            Some(A::of_leaf(val).combine(tail_anno))
                        } else {
                            None
                        }
                    },
                }
            },
        }
    }
}

impl<T: Wire, A: Annotation<T> + Wire> Compound<A> for LinkedList<T, A> {
    type Leaf = T;

    /// Child indices are stable: index 0 is the stored value, index 1 the
    /// link to the tail, and everything else is the end-of-node sentinel.
    fn child(&self, ofs: usize) -> (r: Child<'_, Self, A>)
        ensures
            match *self {
                LinkedList::Empty => r is EndOfNode,
                LinkedList::Node { val, next } => {
                    if ofs == 0 {
                        r matches Child::Leaf(l) && *l == val
                    } else if ofs == 1 {
                        r matches Child::Node(ln) && *ln == next
                    } else {
                        r is EndOfNode
                    }
                },
            },
    {
        match (ofs, self) {
            (0, LinkedList::Node { val, .. }) => Child::Leaf(val),
            (1, LinkedList::Node { next, .. }) => Child::Node(next),
            (_, LinkedList::Node { .. }) => Child::EndOfNode,
            (_, LinkedList::Empty) => Child::EndOfNode,
        }
    }
}

/// One child of a node still in its archived form: the decoded leaf value,
/// the identifier and cached annotation of the tail, or the sentinel.
pub enum ArchivedChild<T, A> {
    Leaf(T),
    Node(Ident, A),
    EndOfNode,
}

/// The node archived at `id`, if the identifier is in range and the bytes
/// parse.
pub open spec fn spec_node_at<T: Wire, A: Annotation<T> + Wire>(s: Seq<u8>, id: Ident) -> Option<
    LinkedList<T, A>,
> {
    if id.len == spec_node_len::<T, A>() && id.ofs + id.len <= s.len() {
        spec_node_of_wire::<T, A>(s.subrange(id.ofs as int, id.ofs as int + id.len as int))
    } else {
        None
    }
}

impl<T: Wire, A: Annotation<T> + Wire> LinkedList<T, A> {
    /// Enumerates one child of a node that still lives in the store, without
    /// materializing anything beyond that node.
    pub fn archived_child<S: Store>(store: &S, id: Ident, ofs: usize) -> (r: Option<
        ArchivedChild<T, A>,
    >)
        ensures
            match spec_node_at::<T, A>(store.contents(), id) {
                None => r is None,
                Some(LinkedList::Empty) => r matches Some(c) && c is EndOfNode,
                Some(LinkedList::Node { val, next }) => {
                    if ofs == 0 {
                        r matches Some(c) && c matches ArchivedChild::Leaf(v) && v == val
                    } else if ofs == 1 {
                        r matches Some(c) && c matches ArchivedChild::Node(nid, a)
                            && next.state == LinkState::Stored::<LinkedList<T, A>>(nid)
                            && next.anno == Some(a)
                    } else {
                        r matches Some(c) && c is EndOfNode
                    }
                },
            },
    {
        let n = Self::node_len();
        if id.len as usize != n {
            return None;
        }
        let bytes = match store.get_bytes(id) {
            Some(b) => b,
            None => {
                return None;
            },
        };
        match Self::decode_node(bytes.as_slice()) {
            None => None,
            Some(LinkedList::Empty) => Some(ArchivedChild::EndOfNode),
            Some(LinkedList::Node { val, next }) => {
                if ofs == 0 {
                    Some(ArchivedChild::Leaf(val))
                } else if ofs == 1 {
                    let Link { state, anno } = next;
                    match (state, anno) {
                        (LinkState::Stored(nid), Some(a)) => Some(ArchivedChild::Node(nid, a)),
                        _ => {
                            proof {
                                assert(false);
                            }
                            None
                        },
                    }
                } else {
                    Some(ArchivedChild::EndOfNode)
                }
            },
        }
    }

    /// How many bytes persisting this list would append to the store, if
    /// that number is representable at all.
    pub fn persist_size_exec(&self) -> (r: Option<u64>)
        ensures
            r matches Some(n) ==> n as nat == spec_persist_size(*self),
            r is None ==> spec_persist_size(*self) > u64::MAX,
        decreases self,
    {
        let n = Self::node_len() as u64;
        match self {
            LinkedList::Empty => Some(n),
            LinkedList::Node { val, next } => match next.state_ref() {
                LinkState::Stored(_) => Some(n),
                LinkState::Owned(b) => match (&**b).persist_size_exec() {
                    None => None,
                    Some(m) => {
                        if m > u64::MAX - n {
                            None
                        } else {
                            Some(n + m)
                        }
                    },
                },
            },
        }
    }

    /// Serializes the list's root into the fixed-footprint state archive,
    /// persisting any still-owned tail into the store first.
    pub fn to_state_bytes<S: Store>(self, store: &mut S) -> (bytes: Vec<u8>)
        requires
            spec_wf(self, old(store).contents()),
            old(store).contents().len() + spec_persist_size(self) <= u32::MAX,
        ensures
            old(store).contents().is_prefix_of(final(store).contents()),
            final(store).contents().len() <= old(store).contents().len() + spec_persist_size(
                self,
            ),
            bytes@.len() == spec_node_len::<T, A>(),
            match spec_node_of_wire::<T, A>(bytes@) {
                Some(root) => spec_view(root, final(store).contents()) == spec_view(
                    self,
                    old(store).contents(),
                ),
                None => false,
            },
    {
        let ghost s0 = store.contents();
        match self {
            LinkedList::Empty => {
                let bytes = LinkedList::<T, A>::Empty.encode_node();
                proof {
                    lemma_node_round_trip::<T, A>(LinkedList::Empty);
                    assert(s0.is_prefix_of(store.contents())) by {
                        assert(store.contents().subrange(0, s0.len() as int) =~= s0);
                    }
                }
                bytes
            },
            LinkedList::Node { val, next } => {
                let Link { state, anno } = next;
                let a = match anno {
                    Some(a) => a,
                    None => {
                        proof {
                            assert(false);
                        }
                        A::neutral()
                    },
                };
                let ghost tail_rep = spec_link_rep(
                    Link { state: state, anno: Some(a) },
                    s0,
                )->Some_0;
                let nid = match state {
                    LinkState::Stored(nid) => {
                        proof {
                            assert(store.contents().is_prefix_of(store.contents())) by {
                                assert(store.contents().subrange(
                                    0,
                                    store.contents().len() as int,
                                ) =~= store.contents());
                            }
                        }
                        nid
                    },
                    LinkState::Owned(b) => (*b).persist(store),
                };
                let ghost s_mid = store.contents();
                proof {
                    assert(spec_rep_at::<T, A>(s_mid, nid) == Some(tail_rep)) by {
                        if state is Stored {
                            assert(s_mid == s0);
                        }
                    }
                }
                let root = LinkedList::Node { val, next: Link::stored(nid, a) };
                let bytes = root.encode_node();
                proof {
                    lemma_node_round_trip::<T, A>(root);
                    assert(spec_view(root, s_mid) == Some(seq![val] + tail_rep));
                    assert(spec_view(self, s0) == Some(seq![val] + tail_rep));
                }
                bytes
            },
        }
    }

    /// Validates and decodes a state archive read back from guest memory:
    /// the root must parse and the whole chain it refers to must be well
    /// formed in the store.
    pub fn from_state_bytes<S: Store>(b: &[u8], store: &S) -> (r: Option<Self>)
        ensures
            match r {
                Some(l) => spec_node_of_wire::<T, A>(b@) == Some(l) && spec_wf(
                    l,
                    store.contents(),
                ),
                None => match spec_node_of_wire::<T, A>(b@) {
                    Some(l) => !spec_wf(l, store.contents()),
                    None => true,
                },
            },
    {
        let node = match Self::decode_node(b) {
            Some(node) => node,
            None => {
                return None;
            },
        };
        match node.check_anno(store) {
            Some(_) => Some(node),
            None => None,
        }
    }
}

/// The leaf sequence after pushing a sequence of values one by one.
pub open spec fn spec_push_all<T>(v: Seq<T>, ps: Seq<T>) -> Seq<T>
    decreases ps.len(),
{
    if ps.len() == 0 {
        v
    } else {
        spec_push_all(seq![ps[0]] + v, ps.drop_first())
    }
}

/// The list is last-in-first-out: after pushing a sequence of values one by
/// one, the pushed values stand in front in reverse order, so popping hands
/// them back newest first.  (That popping an empty list signals "empty" and
/// leaves it empty is the `None` case of [`LinkedList::pop`].)
pub proof fn lemma_lifo<T>(v: Seq<T>, ps: Seq<T>)
    ensures
        spec_push_all(v, ps) == ps.reverse() + v,
        forall|i: int|
            0 <= i < ps.len() ==> spec_push_all(v, ps)[i] == ps[ps.len() - 1 - i],
    decreases ps.len(),
{
    if ps.len() == 0 {
        assert(spec_push_all(v, ps) =~= ps.reverse() + v);
    } else {
        lemma_lifo(seq![ps[0]] + v, ps.drop_first());
        assert(ps.reverse() + v =~= ps.drop_first().reverse() + (seq![ps[0]] + v));
    }
}

/// A node fresh from a parse has a persisted tail, so re-archiving it costs
/// at most one node of store space.
pub proof fn lemma_parsed_persist_size<T: Wire, A: Annotation<T> + Wire>(b: Seq<u8>)
    ensures
        spec_node_of_wire::<T, A>(b) matches Some(l) ==> spec_persist_size(l)
            == spec_node_len::<T, A>(),
{
    match spec_node_of_wire::<T, A>(b) {
        Some(l) => {
            match l {
                LinkedList::Empty => {},
                LinkedList::Node { val, next } => {
                    assert(next.state is Stored);
                },
            }
        },
        None => {},
    }
}

/// Decoding the canonical archive of a node yields the node back.
pub proof fn lemma_node_round_trip<T: Wire, A: Annotation<T> + Wire>(node: LinkedList<T, A>)
    requires
        spec_node_wire(node) is Some,
    ensures
        spec_node_of_wire::<T, A>(spec_node_wire(node)->Some_0) == Some(node),
{
    T::lemma_wire_len_bound();
    A::lemma_wire_len_bound();
    lemma_auto_spec_u32_to_from_le_bytes();
    let b = spec_node_wire(node)->Some_0;
    match node {
        LinkedList::Empty => {
            assert(b.len() == spec_node_len::<T, A>());
            assert(b[0] == 0u8);
            assert(forall|i: int| 1 <= i < b.len() ==> b[i] == 0u8);
        },
        LinkedList::Node { val, next } => {
            let tl = T::spec_wire_len() as int;
            val.lemma_wire_len();
            match (next.state, next.anno) {
                (LinkState::Stored(id), Some(a)) => {
                    a.lemma_wire_len();
                    assert(b.len() == spec_node_len::<T, A>());
                    assert(b[0] == 1u8);
                    assert(b.subrange(1, 1 + tl) =~= val.to_wire());
                    val.lemma_round_trip();
                    assert(b.subrange(1 + tl, 1 + tl + 4) =~= spec_u32_to_le_bytes(id.ofs));
                    assert(b.subrange(1 + tl + 4, 1 + tl + 8) =~= spec_u32_to_le_bytes(id.len));
                    assert(b.subrange(1 + tl + 8, b.len() as int) =~= a.to_wire());
                    a.lemma_round_trip();
                },
                _ => {
                    assert(false);
                },
            }
        },
    }
}

} // verus!
