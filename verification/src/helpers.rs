//! A persistent map for contract state: a hash-array-mapped trie expressed
//! in terms of the framework's links.
//!
//! Each trie level consumes a fixed four-bit slice of the key to select one
//! of sixteen child slots; a slot holds nothing, one binding, or a link to a
//! deeper node.  Keys are machine words, so two distinct keys part ways
//! after at most sixteen levels and no terminal chaining is ever needed.

use crate::compound::{Link, LinkState};
use vstd::pervasive::VecAdditionalExecFns;
use vstd::prelude::*;

verus! {

/// One child slot of a trie node: empty, a single binding, or a subtree.
pub enum Slot<V> {
    Empty,
    Leaf((u64, V)),
    Node(Link<Hamt<V>, ()>),
}

/// A hash-array-mapped trie from machine-word keys to values.
pub struct Hamt<V> {
    pub slots: Vec<Slot<V>>,
}

/// The four key bits a node at the given depth dispatches on.
pub open spec fn spec_nibble(k: u64, depth: nat) -> u64 {
    (k >> ((4 * depth) as u64)) & 0xf
}

/// Whether a key agrees with the slot indices on the way down to a node.
pub open spec fn spec_on_path(k: u64, path: Seq<u64>) -> bool {
    forall|j: int| 0 <= j < path.len() ==> spec_nibble(k, j as nat) == path[j]
}

/// Structural soundness of a node sitting at the end of `path`: sixteen
/// slots, every binding's key agreeing with the path that leads to it, and
/// every subtree materialized and sound one level deeper.
pub open spec fn spec_node_wf<V>(n: Hamt<V>, path: Seq<u64>) -> bool
    decreases 16 - path.len(),
{
    &&& n.slots@.len() == 16
    &&& path.len() <= 15
    &&& forall|i: int|
        0 <= i < 16 ==> match #[trigger] n.slots@[i] {
            Slot::Empty => true,
            Slot::Leaf(kv) => spec_on_path(kv.0, path.push(i as u64)),
            Slot::Node(link) => match link.state {
                LinkState::Owned(b) => path.len() < 15 && spec_node_wf(*b, path.push(i as u64)),
                LinkState::Stored(_) => false,
            },
        }
}

/// The binding a key resolves to under a node at the given depth: follow the
/// key's nibbles down the slots.
pub open spec fn spec_node_get<V>(n: Hamt<V>, k: u64, depth: nat) -> Option<V>
    decreases 16 - depth,
{
    if depth <= 15 && n.slots@.len() == 16 {
        match n.slots@[spec_nibble(k, depth) as int] {
            Slot::Empty => None,
            Slot::Leaf(kv) => {
                if kv.0 == k {
                    Some(kv.1)
                } else {
                    None
                }
            },
            Slot::Node(link) => match link.state {
                LinkState::Owned(b) => spec_node_get(*b, k, depth + 1),
                LinkState::Stored(_) => None,
            },
        }
    } else {
        None
    }
}

/// Keys that share all sixteen nibbles are the same key.
proof fn lemma_nibbles_decide(k1: u64, k2: u64)
    requires
        forall|j: nat| j <= 15 ==> spec_nibble(k1, j) == spec_nibble(k2, j),
    ensures
        k1 == k2,
{
    assert(spec_nibble(k1, 0) == spec_nibble(k2, 0));
    assert(spec_nibble(k1, 1) == spec_nibble(k2, 1));
    assert(spec_nibble(k1, 2) == spec_nibble(k2, 2));
    assert(spec_nibble(k1, 3) == spec_nibble(k2, 3));
    assert(spec_nibble(k1, 4) == spec_nibble(k2, 4));
    assert(spec_nibble(k1, 5) == spec_nibble(k2, 5));
    assert(spec_nibble(k1, 6) == spec_nibble(k2, 6));
    assert(spec_nibble(k1, 7) == spec_nibble(k2, 7));
    assert(spec_nibble(k1, 8) == spec_nibble(k2, 8));
    assert(spec_nibble(k1, 9) == spec_nibble(k2, 9));
    assert(spec_nibble(k1, 10) == spec_nibble(k2, 10));
    assert(spec_nibble(k1, 11) == spec_nibble(k2, 11));
    assert(spec_nibble(k1, 12) == spec_nibble(k2, 12));
    assert(spec_nibble(k1, 13) == spec_nibble(k2, 13));
    assert(spec_nibble(k1, 14) == spec_nibble(k2, 14));
    assert(spec_nibble(k1, 15) == spec_nibble(k2, 15));
    assert((k1 >> 0u64) & 0xf == (k2 >> 0u64) & 0xf && (k1 >> 4u64) & 0xf == (k2 >> 4u64) & 0xf
        && (k1 >> 8u64) & 0xf == (k2 >> 8u64) & 0xf && (k1 >> 12u64) & 0xf == (k2 >> 12u64)
        & 0xf && (k1 >> 16u64) & 0xf == (k2 >> 16u64) & 0xf && (k1 >> 20u64) & 0xf == (k2
        >> 20u64) & 0xf && (k1 >> 24u64) & 0xf == (k2 >> 24u64) & 0xf && (k1 >> 28u64) & 0xf
        == (k2 >> 28u64) & 0xf && (k1 >> 32u64) & 0xf == (k2 >> 32u64) & 0xf && (k1 >> 36u64)
        & 0xf == (k2 >> 36u64) & 0xf && (k1 >> 40u64) & 0xf == (k2 >> 40u64) & 0xf && (k1
        >> 44u64) & 0xf == (k2 >> 44u64) & 0xf && (k1 >> 48u64) & 0xf == (k2 >> 48u64) & 0xf
        && (k1 >> 52u64) & 0xf == (k2 >> 52u64) & 0xf && (k1 >> 56u64) & 0xf == (k2 >> 56u64)
        & 0xf && (k1 >> 60u64) & 0xf == (k2 >> 60u64) & 0xf ==> k1 == k2) by (bit_vector);
}

/// Computes the dispatch nibble.
fn nibble(k: u64, depth: usize) -> (r: u64)
    requires
        depth <= 15,
    ensures
        r == spec_nibble(k, depth as nat),
        r < 16,
{
    let r = (k >> ((4 * depth) as u64)) & 0xf;
    proof {
        let s = (4 * depth) as u64;
        assert((k >> s) & 0xf < 16) by (bit_vector);
    }
    r
}

impl<V> Hamt<V> {
    /// A node with sixteen empty slots.
    fn empty_node() -> (r: Hamt<V>)
        ensures
            r.slots@.len() == 16,
            forall|i: int| 0 <= i < 16 ==> (#[trigger] r.slots@[i]) is Empty,
            forall|path: Seq<u64>| path.len() <= 15 ==> #[trigger] spec_node_wf(r, path),
            forall|k: u64, depth: nat| #[trigger] spec_node_get(r, k, depth) is None,
    {
        let mut slots: Vec<Slot<V>> = Vec::new();
        let mut i: usize = 0;
        while i < 16
            invariant
                i <= 16,
                slots@.len() == i,
                forall|j: int| 0 <= j < i ==> (#[trigger] slots@[j]) is Empty,
            decreases 16 - i,
        {
            slots.push(Slot::Empty);
            i = i + 1;
        }
        let r = Hamt { slots };
        proof {
            assert forall|k: u64, depth: nat| #[trigger]
                spec_node_get(r, k, depth) is None by {
                assert(spec_nibble(k, depth) < 16) by {
                    let s = (4 * depth) as u64;
                    assert((k >> s) & 0xf < 16) by (bit_vector);
                }
            }
        }
        r
    }

    /// Follows the key's nibbles down to its binding, if any.
    fn node_get(&self, k: u64, depth: usize, Ghost(path): Ghost<Seq<u64>>) -> (r: Option<&V>)
        requires
            spec_node_wf(*self, path),
            path.len() == depth,
        ensures
            r matches Some(v) ==> spec_node_get(*self, k, depth as nat) == Some(*v),
            r is None ==> spec_node_get(*self, k, depth as nat) is None,
        decreases 16 - depth,
    {
        let i = nibble(k, depth);
        match &self.slots[i as usize] {
            Slot::Empty => None,
            Slot::Leaf(kv) => {
                if kv.0 == k {
                    Some(&kv.1)
                } else {
                    None
                }
            },
            Slot::Node(link) => match link.state_ref() {
                LinkState::Owned(b) => (&**b).node_get(k, depth + 1, Ghost(path.push(i))),
                LinkState::Stored(_) => {
                    proof {
                        assert(false);
                    }
                    None
                },
            },
        }
    }

    /// Builds the smallest subtree that separates two distinct keys,
    /// descending one level for every nibble they still share.
    fn node_two(k1: u64, v1: V, k2: u64, v2: V, depth: usize, Ghost(path): Ghost<Seq<u64>>) -> (r:
        Hamt<V>)
        requires
            k1 != k2,
            path.len() == depth,
            depth <= 15,
            spec_on_path(k1, path),
            spec_on_path(k2, path),
        ensures
            spec_node_wf(r, path),
            forall|k3: u64|
                spec_on_path(k3, path) ==> #[trigger] spec_node_get(r, k3, depth as nat) == (
                if k3 == k1 {
                    Some(v1)
                } else if k3 == k2 {
                    Some(v2)
                } else {
                    None
                }),
        decreases 16 - depth,
    {
        let i1 = nibble(k1, depth);
        let i2 = nibble(k2, depth);
        let mut n = Self::empty_node();
        if i1 != i2 {
            n.slots.set(i1 as usize, Slot::Leaf((k1, v1)));
            n.slots.set(i2 as usize, Slot::Leaf((k2, v2)));
            proof {
                lemma_on_path_push(k1, path, i1);
                lemma_on_path_push(k2, path, i2);
                assert forall|k3: u64| spec_on_path(k3, path) implies #[trigger] spec_node_get(
                    n,
                    k3,
                    depth as nat,
                ) == (if k3 == k1 {
                    Some(v1)
                } else if k3 == k2 {
                    Some(v2)
                } else {
                    None::<V>
                }) by {
                    assert(spec_nibble(k3, depth as nat) < 16) by {
                        let s = (4 * (depth as nat)) as u64;
                        let k = k3;
                        assert((k >> s) & 0xf < 16) by (bit_vector);
                    }
                }
            }
            n
        } else {
            proof {
                if depth == 15 {
                    assert forall|j: nat| j <= 15 implies spec_nibble(k1, j) == spec_nibble(
                        k2,
                        j,
                    ) by {
                        if j < 15 {
                            assert(spec_nibble(k1, j) == path[j as int]);
                            assert(spec_nibble(k2, j) == path[j as int]);
                        }
                    }
                    lemma_nibbles_decide(k1, k2);
                    assert(false);
                }
                lemma_on_path_push(k1, path, i1);
                lemma_on_path_push(k2, path, i1);
            }
            let sub = Self::node_two(k1, v1, k2, v2, depth + 1, Ghost(path.push(i1)));
            let ghost subg = sub;
            n.slots.set(i1 as usize, Slot::Node(Link::new_annotated(sub, ())));
            proof {
                assert(n.slots@[i1 as int] matches Slot::Node(link) && link.state matches
                    LinkState::Owned(b) && *b == subg);
                assert(spec_node_wf(n, path));
                assert forall|k3: u64| spec_on_path(k3, path) implies #[trigger] spec_node_get(
                    n,
                    k3,
                    depth as nat,
                ) == (if k3 == k1 {
                    Some(v1)
                } else if k3 == k2 {
                    Some(v2)
                } else {
                    None::<V>
                }) by {
                    assert(spec_nibble(k3, depth as nat) < 16) by {
                        let s = (4 * (depth as nat)) as u64;
                        let k = k3;
                        assert((k >> s) & 0xf < 16) by (bit_vector);
                    }
                    if spec_nibble(k3, depth as nat) == i1 {
                        lemma_on_path_push(k3, path, i1);
                        assert(spec_node_get(subg, k3, depth as nat + 1) == (if k3 == k1 {
                            Some(v1)
                        } else if k3 == k2 {
                            Some(v2)
                        } else {
                            None::<V>
                        }));
                    }
                }
            }
            n
        }
    }

    /// Inserts or replaces a binding, handing back what the key was bound to
    /// before.
    fn node_insert(&mut self, k: u64, v: V, depth: usize, Ghost(path): Ghost<Seq<u64>>) -> (r:
        Option<V>)
        requires
            spec_node_wf(*old(self), path),
            path.len() == depth,
            spec_on_path(k, path),
        ensures
            spec_node_wf(*final(self), path),
            r == spec_node_get(*old(self), k, depth as nat),
            forall|k2: u64|
                spec_on_path(k2, path) ==> #[trigger] spec_node_get(
                    *final(self),
                    k2,
                    depth as nat,
                ) == (if k2 == k {
                    Some(v)
                } else {
                    spec_node_get(*old(self), k2, depth as nat)
                }),
        decreases 16 - depth,
    {
        let i = nibble(k, depth);
        proof {
            lemma_on_path_push(k, path, i);
        }
        let mut tmp = Slot::Empty;
        self.slots.set_and_swap(i as usize, &mut tmp);
        let ghost old_slot = old(self).slots@[i as int];
        let ghost mut sub_spec: Option<Hamt<V>> = None;
        let (new_slot, r) = match tmp {
            Slot::Empty => (Slot::Leaf((k, v)), None),
            Slot::Leaf(kv) => {
                if kv.0 == k {
                    (Slot::Leaf((k, v)), Some(kv.1))
                } else {
                    let (k2, v2) = kv;
                    proof {
                        if depth == 15 {
                            assert forall|j: nat| j <= 15 implies spec_nibble(k2, j)
                                == spec_nibble(k, j) by {
                                if j < 15 {
                                    assert(spec_nibble(k, j) == path[j as int]);
                                    assert(spec_nibble(k2, j) == path.push(i)[j as int]);
                                    assert(path.push(i)[j as int] == path[j as int]);
                                } else {
                                    assert(spec_nibble(k2, j) == path.push(i)[15]);
                                }
                            }
                            lemma_nibbles_decide(k2, k);
                            assert(false);
                        }
                        assert(spec_on_path(k2, path.push(i)));
                    }
                    let sub = Self::node_two(k2, v2, k, v, depth + 1, Ghost(path.push(i)));
                    proof {
                        sub_spec = Some(sub);
                    }
                    (Slot::Node(Link::new_annotated(sub, ())), None)
                }
            },
            Slot::Node(link) => match link.into_state() {
                LinkState::Owned(b) => {
                    let mut inner: Hamt<V> = *b;
                    let prev = inner.node_insert(k, v, depth + 1, Ghost(path.push(i)));
                    proof {
                        sub_spec = Some(inner);
                    }
                    (Slot::Node(Link::new_annotated(inner, ())), prev)
                },
                LinkState::Stored(_) => {
                    proof {
                        assert(false);
                    }
                    (Slot::Empty, None)
                },
            },
        };
        self.slots.set(i as usize, new_slot);
        proof {
            assert(self.slots@ =~= old(self).slots@.update(i as int, self.slots@[i as int]));
            assert(spec_node_wf(*self, path));
            assert forall|k2: u64| spec_on_path(k2, path) implies #[trigger] spec_node_get(
                *self,
                k2,
                depth as nat,
            ) == (if k2 == k {
                Some(v)
            } else {
                spec_node_get(*old(self), k2, depth as nat)
            }) by {
                assert(spec_nibble(k2, depth as nat) < 16) by {
                    let s = (4 * (depth as nat)) as u64;
                    let kk = k2;
                    assert((kk >> s) & 0xf < 16) by (bit_vector);
                }
                if spec_nibble(k2, depth as nat) == i {
                    lemma_on_path_push(k2, path, i);
                    match sub_spec {
                        Some(sub) => {
                            assert(spec_node_get(sub, k2, depth as nat + 1) == (match old_slot {
                                Slot::Empty => None::<V>,
                                Slot::Leaf(kv) => {
                                    if k2 == k {
                                        Some(v)
                                    } else if k2 == kv.0 {
                                        Some(kv.1)
                                    } else {
                                        None::<V>
                                    }
                                },
                                Slot::Node(l) => {
                                    if k2 == k {
                                        Some(v)
                                    } else {
                                        match l.state {
                                            LinkState::Owned(b) => spec_node_get(
                                                *b,
                                                k2,
                                                depth as nat + 1,
                                            ),
                                            LinkState::Stored(_) => None::<V>,
                                        }
                                    }
                                },
                            }));
                        },
                        None => {},
                    }
                }
            }
        }
        r
    }
}

impl<V> Hamt<V> {
    /// The map is sound: every binding sits where its key's nibbles lead.
    pub closed spec fn wf(self) -> bool {
        spec_node_wf(self, Seq::empty())
    }

    /// The binding a key resolves to.
    pub closed spec fn spec_get(self, k: u64) -> Option<V> {
        spec_node_get(self, k, 0)
    }

    /// The whole map as a mathematical map.
    pub open spec fn as_map(self) -> Map<u64, V> {
        Map::new(|k: u64| self.spec_get(k) is Some, |k: u64| self.spec_get(k)->Some_0)
    }

    /// An empty map.
    pub fn new() -> (r: Self)
        ensures
            r.wf(),
            r.as_map() == Map::<u64, V>::empty(),
    {
        let r = Self::empty_node();
        proof {
            assert(r.as_map() =~= Map::<u64, V>::empty());
        }
        r
    }

    /// Upserts a binding: binds the key to the value and hands back what the
    /// key was bound to before, if anything.
    pub fn insert(&mut self, key: u64, val: V) -> (r: Option<V>)
        requires
            old(self).wf(),
        ensures
            final(self).wf(),
            ({
                let m = old(self).as_map();
                match r {
                    Some(prev) => m.contains_key(key) && prev == m[key],
                    None => !m.contains_key(key),
                }
            }),
            final(self).as_map() == old(self).as_map().insert(key, val),
    {
        let r = self.node_insert(key, val, 0, Ghost(Seq::empty()));
        proof {
            assert forall|k2: u64| true implies #[trigger] spec_node_get(*self, k2, 0) == (
            if k2 == key {
                Some(val)
            } else {
                spec_node_get(*old(self), k2, 0)
            }) by {
                assert(spec_on_path(k2, Seq::empty()));
            }
            assert(self.as_map() =~= old(self).as_map().insert(key, val));
        }
        r
    }

    /// Hands out a read-only view of the binding, if any; the map itself is
    /// untouched.
    pub fn get(&self, key: u64) -> (r: Option<&V>)
        requires
            self.wf(),
        ensures
            r matches Some(v) ==> self.as_map().contains_key(key) && *v == self.as_map()[key],
            r is None ==> !self.as_map().contains_key(key),
    {
        self.node_get(key, 0, Ghost(Seq::empty()))
    }
}

/// Map upsert law: inserting under a fresh key binds it, a second insert
/// under the same key finds the first value bound, and a read after both
/// sees the second value; the second insert overwrites the first entirely.
pub proof fn lemma_upsert<V>(m: Map<u64, V>, k: u64, v1: V, v2: V)
    requires
        !m.contains_key(k),
    ensures
        m.insert(k, v1).contains_key(k),
        m.insert(k, v1)[k] == v1,
        m.insert(k, v1).insert(k, v2)[k] == v2,
        m.insert(k, v1).insert(k, v2) == m.insert(k, v2),
{
    assert(m.insert(k, v1).insert(k, v2) =~= m.insert(k, v2));
}

/// A key on a path stays on it when the path grows by the key's own nibble.
proof fn lemma_on_path_push(k: u64, path: Seq<u64>, i: u64)
    requires
        spec_on_path(k, path),
        spec_nibble(k, path.len()) == i,
    ensures
        spec_on_path(k, path.push(i)),
{
    assert forall|j: int| 0 <= j < path.push(i).len() implies spec_nibble(k, j as nat)
        == path.push(i)[j] by {
        if j < path.len() {
            assert(path.push(i)[j] == path[j]);
        } else {
            assert(path.push(i)[j] == i);
        }
    }
}

} // verus!
