//! The list engine: a circular doubly-linked chain per list, anchored by a
//! permanent sentinel of maximal key, with a traversal cursor and a live-item
//! counter.
//!
//! Nodes live in a shared arena (`NodePool`) and are addressed by stable
//! indices; `next`/`previous` links and the container back-reference are
//! stored as indices rather than raw pointers.  A list's sentinel is kept
//! out of the arena entirely: the `Link` type names either a real node or
//! the sentinel position, so the sentinel can never be inserted, removed,
//! or returned as an owner.

use vstd::prelude::*;

verus! {

/// The largest representable key.  The sentinel conceptually carries this
/// value, so sorted insertion never needs an end-of-chain special case.
pub const MAX_TICK: u32 = 0xffff_ffff;

/// A position in a list's circular chain: either the list's permanent
/// sentinel anchor, or a real node named by its slot in the `NodePool`.
#[derive(Clone, Copy, PartialEq, Eq, Structural, Debug)]
pub enum Link {
    Sentinel,
    Node(usize),
}

/// An intrusively linked node: a sortable key, links within one circular
/// chain, a back-reference to the entity it represents, and a back-reference
/// to the list currently holding it (`None` while unlinked).
#[derive(Clone, Copy)]
pub struct ListNode {
    /// Sortable key: a wake tick or a priority-derived rank.
    pub value: u32,
    /// Successor within the containing list's chain.
    pub next: Link,
    /// Predecessor within the containing list's chain.
    pub prev: Link,
    /// Identity of the entity this node represents; returned to callers,
    /// never interpreted by the engine.
    pub owner: usize,
    /// Identity of the list currently holding this node, or `None`.
    pub container: Option<usize>,
}

/// The arena that owns every node.  Lists link nodes by their slot index;
/// list identities are drawn from a counter so that no two lists ever share
/// one.
pub struct NodePool {
    pub nodes: Vec<ListNode>,
    pub next_list_id: usize,
}

impl NodePool {
    /// True when `n` names a slot of this pool.
    pub open spec fn has_node(self, n: usize) -> bool {
        n < self.nodes@.len()
    }

    /// The node stored in slot `n`.
    pub open spec fn node(self, n: usize) -> ListNode
        recommends
            self.has_node(n),
    {
        self.nodes@[n as int]
    }

    /// True when slot `n` holds a node that is linked into no list.
    pub open spec fn unlinked(self, n: usize) -> bool {
        self.has_node(n) && self.node(n).container is None
    }

    /// Pool-level invariant: every container back-reference names an
    /// identity that has actually been issued.  This is what makes a fresh
    /// identity free of stale claimants.
    pub open spec fn wf(self) -> bool {
        forall|i: int|
            0 <= i < self.nodes@.len() ==> ((#[trigger] self.nodes@[i]).container matches Some(c)
                ==> c < self.next_list_id)
    }

    /// An empty pool.
    pub fn new() -> (p: NodePool)
        ensures
            p.wf(),
            p.nodes@.len() == 0,
            p.next_list_id == 0,
    {
        NodePool { nodes: Vec::new(), next_list_id: 0 }
    }

    /// Allocates a fresh, unlinked node carrying `value` and `owner`, and
    /// returns its slot index.
    pub fn new_node(&mut self, value: u32, owner: usize) -> (n: usize)
        requires
            old(self).wf(),
            old(self).nodes@.len() < usize::MAX,
        ensures
            final(self).wf(),
            n == old(self).nodes@.len(),
            final(self).nodes@.len() == old(self).nodes@.len() + 1,
            final(self).nodes@[n as int] == (ListNode {
                value,
                next: Link::Sentinel,
                prev: Link::Sentinel,
                owner,
                container: None::<usize>,
            }),
            forall|i: int|
                0 <= i < old(self).nodes@.len() ==> final(self).nodes@[i] == old(self).nodes@[i],
            final(self).next_list_id == old(self).next_list_id,
            forall|id: usize| #[trigger] preserves_list(*old(self), *final(self), id),
    {
        let n = self.nodes.len();
        self.nodes.push(ListNode {
            value,
            next: Link::Sentinel,
            prev: Link::Sentinel,
            owner,
            container: None,
        });
        n
    }

    /// Changes the key of an unlinked node — e.g. the wake tick computed
    /// just before a task's node is re-inserted into the delayed list.
    pub fn set_node_value(&mut self, n: usize, value: u32)
        requires
            old(self).wf(),
            old(self).unlinked(n),
        ensures
            final(self).wf(),
            final(self).nodes@.len() == old(self).nodes@.len(),
            final(self).node(n).value == value,
            final(self).node(n).owner == old(self).node(n).owner,
            final(self).node(n).next == old(self).node(n).next,
            final(self).node(n).prev == old(self).node(n).prev,
            final(self).node(n).container is None,
            forall|i: int|
                0 <= i < old(self).nodes@.len() && i != n ==> final(self).nodes@[i] == old(
                    self,
                ).nodes@[i],
            final(self).next_list_id == old(self).next_list_id,
            forall|id: usize| #[trigger] preserves_list(*old(self), *final(self), id),
    {
        self.nodes[n].value = value;
    }

    /// The key stored in node `n`.
    pub fn node_value(&self, n: usize) -> (v: u32)
        requires
            self.has_node(n),
        ensures
            v == self.node(n).value,
    {
        self.nodes[n].value
    }

    /// The owner back-reference stored in node `n`.
    pub fn node_owner(&self, n: usize) -> (o: usize)
        requires
            self.has_node(n),
        ensures
            o == self.node(n).owner,
    {
        self.nodes[n].owner
    }

    /// The container back-reference of node `n`: the identity of the list
    /// holding it, or `None` while it is unlinked.
    pub fn node_container(&self, n: usize) -> (c: Option<usize>)
        requires
            self.has_node(n),
        ensures
            c == self.node(n).container,
    {
        self.nodes[n].container
    }
}

/// The position at which sorted insertion places a key: immediately before
/// the first node whose key is strictly greater, hence after every existing
/// node whose key is less than or equal.  When no key is strictly greater —
/// in particular for the maximal key — this is the end of the chain,
/// directly before the sentinel.
pub open spec fn insert_pos(keys: Seq<u32>, v: u32) -> int
    decreases keys.len(),
{
    if keys.len() == 0 {
        0
    } else if keys[0] > v {
        0
    } else {
        1 + insert_pos(keys.drop_first(), v)
    }
}

/// `insert_pos` is the unique position with only smaller-or-equal keys
/// before it and, unless it is the end, a strictly greater key at it.
pub proof fn lemma_insert_pos_is(keys: Seq<u32>, v: u32, p: int)
    requires
        0 <= p <= keys.len(),
        forall|j: int| 0 <= j < p ==> keys[j] <= v,
        p < keys.len() ==> keys[p] > v,
    ensures
        insert_pos(keys, v) == p,
    decreases keys.len(),
{
    if keys.len() == 0 {
    } else if keys[0] > v {
        assert(p == 0);
    } else {
        assert(p > 0);
        lemma_insert_pos_is(keys.drop_first(), v, p - 1);
    }
}

/// Bounds and meaning of `insert_pos`: everything before it is
/// smaller-or-equal, and the key at it (if any) is strictly greater.
pub proof fn lemma_insert_pos_bounds(keys: Seq<u32>, v: u32)
    ensures
        0 <= insert_pos(keys, v) <= keys.len(),
        forall|j: int| 0 <= j < insert_pos(keys, v) ==> keys[j] <= v,
        insert_pos(keys, v) < keys.len() ==> keys[insert_pos(keys, v)] > v,
    decreases keys.len(),
{
    if keys.len() == 0 {
    } else if keys[0] > v {
    } else {
        lemma_insert_pos_bounds(keys.drop_first(), v);
        let p = insert_pos(keys, v);
        assert forall|j: int| 0 <= j < p implies keys[j] <= v by {
            if j > 0 {
                assert(keys.drop_first()[j - 1] == keys[j]);
            }
        }
        if p < keys.len() {
            assert(keys.drop_first()[p - 1] == keys[p]);
        }
    }
}

/// One cursor advance: from chain position `p` (with `-1` standing for the
/// sentinel) to the next real position in a chain of length `len`, wrapping
/// past the sentinel back to the head.
pub open spec fn lap_step(p: int, len: int) -> int {
    if p + 1 == len {
        0
    } else {
        p + 1
    }
}

/// The chain position reached by `k` successive advances from position `p0`
/// in a chain of length `len`, for `k` within a single lap.
pub open spec fn lap_index(p0: int, k: int, len: int) -> int {
    if p0 + k < len {
        p0 + k
    } else {
        p0 + k - len
    }
}

/// The pool states `p0` and `p1` hold the same nodes slot for slot, with
/// every key and every owner unchanged (links and containers may differ).
pub open spec fn same_values_owners(p0: NodePool, p1: NodePool) -> bool {
    &&& p1.nodes@.len() == p0.nodes@.len()
    &&& forall|i: int|
        0 <= i < p0.nodes@.len() ==> (#[trigger] p1.nodes@[i]).value == p0.nodes@[i].value
            && p1.nodes@[i].owner == p0.nodes@[i].owner
}

/// Framing relation between two pool states, seen from the list whose
/// identity is `id`: every node that `id` holds is untouched, and no node
/// newly claims `id`.  Each mutating operation of the engine establishes
/// this for every list other than the one it works on, which is what lets
/// several lists share one pool.
pub open spec fn preserves_list(p0: NodePool, p1: NodePool, id: usize) -> bool {
    &&& p1.nodes@.len() >= p0.nodes@.len()
    &&& p1.next_list_id >= p0.next_list_id
    &&& forall|i: int|
        0 <= i < p0.nodes@.len() && (#[trigger] p0.nodes@[i]).container == Some(id)
            ==> p1.nodes@[i] == p0.nodes@[i]
    &&& forall|i: int|
        0 <= i < p1.nodes@.len() && (#[trigger] p1.nodes@[i]).container == Some(id)
            ==> 0 <= i < p0.nodes@.len() && p0.nodes@[i].container == Some(id)
}

/// The container: a circular chain anchored by the sentinel, a cursor, and
/// a counter.  `first`/`last` are the sentinel's own successor and
/// predecessor links; `chain` is the mathematical content of the list, the
/// real nodes in chain order from the sentinel's successor; `cpos` is the
/// cursor's position in `chain`, with `-1` standing for the sentinel.
pub struct OrderedList {
    pub id: usize,
    pub count: usize,
    pub first: Link,
    pub last: Link,
    pub cursor: Link,
    pub chain: Ghost<Seq<usize>>,
    pub cpos: Ghost<int>,
}

impl OrderedList {
    /// Well-formedness: the chain and the pool's link fields describe the
    /// same circular order, `count` counts the chain, a node's container
    /// names this list exactly when the node is on the chain, and the
    /// cursor names a current member (sentinel or real).
    pub open spec fn wf(self, pool: NodePool) -> bool {
        let s = self.chain@;
        &&& self.count == s.len()
        &&& self.id < pool.next_list_id
        &&& forall|k: int| 0 <= k < s.len() ==> (#[trigger] s[k]) < pool.nodes@.len()
        &&& forall|k: int, j: int| 0 <= k < j < s.len() ==> s[k] != s[j]
        &&& forall|k: int|
            0 <= k < s.len() ==> (#[trigger] pool.nodes@[s[k] as int]).container == Some(self.id)
        &&& forall|i: usize|
            i < pool.nodes@.len() && (#[trigger] pool.nodes@[i as int]).container == Some(self.id)
                ==> s.contains(i)
        &&& forall|k: int|
            0 <= k < s.len() ==> (#[trigger] pool.nodes@[s[k] as int]).next == (if k + 1
                == s.len() {
                Link::Sentinel
            } else {
                Link::Node(s[k + 1])
            })
        &&& forall|k: int|
            0 <= k < s.len() ==> (#[trigger] pool.nodes@[s[k] as int]).prev == (if k == 0 {
                Link::Sentinel
            } else {
                Link::Node(s[k - 1])
            })
        &&& self.first == (if s.len() == 0 {
            Link::Sentinel
        } else {
            Link::Node(s[0])
        })
        &&& self.last == (if s.len() == 0 {
            Link::Sentinel
        } else {
            Link::Node(s[s.len() - 1])
        })
        &&& -1 <= self.cpos@ < s.len()
        &&& self.cursor == (if self.cpos@ == -1 {
            Link::Sentinel
        } else {
            Link::Node(s[self.cpos@])
        })
    }

    /// The keys of the chain, in chain order.
    pub open spec fn keys(self, pool: NodePool) -> Seq<u32> {
        self.chain@.map_values(|n: usize| pool.nodes@[n as int].value)
    }

    /// The owners of the chain, in chain order.
    pub open spec fn owners(self, pool: NodePool) -> Seq<usize> {
        self.chain@.map_values(|n: usize| pool.nodes@[n as int].owner)
    }

    /// The observable state a list has right after `init`: no real nodes,
    /// a self-linked sentinel, and the cursor resting on the sentinel.
    pub open spec fn empty_state(self) -> bool {
        &&& self.count == 0
        &&& self.first == Link::Sentinel
        &&& self.last == Link::Sentinel
        &&& self.cursor == Link::Sentinel
        &&& self.chain@ == Seq::<usize>::empty()
        &&& self.cpos@ == -1
    }

    /// Sets up a list in the empty state: cursor at the sentinel, sentinel
    /// linked to itself, no items.  Draws a fresh identity from the pool,
    /// so the new list interferes with no existing one.
    pub fn init(pool: &mut NodePool) -> (l: OrderedList)
        requires
            old(pool).wf(),
            old(pool).next_list_id < usize::MAX,
        ensures
            final(pool).wf(),
            l.wf(*final(pool)),
            l.empty_state(),
            l.id == old(pool).next_list_id,
            final(pool).nodes@ == old(pool).nodes@,
            final(pool).next_list_id == old(pool).next_list_id + 1,
            forall|id: usize| #[trigger] preserves_list(*old(pool), *final(pool), id),
    {
        let id = pool.next_list_id;
        pool.next_list_id = pool.next_list_id + 1;
        let l = OrderedList {
            id,
            count: 0,
            first: Link::Sentinel,
            last: Link::Sentinel,
            cursor: Link::Sentinel,
            chain: Ghost(Seq::empty()),
            cpos: Ghost(-1),
        };
        proof {
            assert forall|i: usize|
                i < pool.nodes@.len() && (#[trigger] pool.nodes@[i as int]).container == Some(
                    l.id,
                ) implies l.chain@.contains(i) by {
                assert(old(pool).nodes@[i as int].container matches Some(c) && c < old(
                    pool,
                ).next_list_id);
            }
        }
        l
    }

    /// The chain position directly before the cursor: where `insert_at_end`
    /// places a node.  With the cursor on the sentinel this is the end of
    /// the chain.
    pub open spec fn before_cursor_pos(self) -> int {
        if self.cpos@ == -1 {
            self.chain@.len() as int
        } else {
            self.cpos@
        }
    }

    /// Splices the unlinked node `n` into the chain at position `pos`,
    /// given the exec link `pred` that precedes that position.  Shared tail
    /// of both insertion operations.
    #[verifier::rlimit(100)]
    fn link_in(&mut self, pool: &mut NodePool, n: usize, pred: Link, pos: Ghost<int>)
        requires
            old(pool).wf(),
            old(self).wf(*old(pool)),
            old(pool).has_node(n),
            old(pool).node(n).container is None,
            old(self).count < usize::MAX,
            0 <= pos@ <= old(self).chain@.len(),
            pred == (if pos@ == 0 {
                Link::Sentinel
            } else {
                Link::Node(old(self).chain@[pos@ - 1])
            }),
        ensures
            final(pool).wf(),
            final(self).wf(*final(pool)),
            final(self).id == old(self).id,
            final(self).count == old(self).count + 1,
            final(self).cursor == old(self).cursor,
            final(self).chain@ == old(self).chain@.insert(pos@, n),
            final(self).cpos@ == (if old(self).cpos@ >= pos@ {
                old(self).cpos@ + 1
            } else {
                old(self).cpos@
            }),
            final(pool).next_list_id == old(pool).next_list_id,
            final(pool).node(n).container == Some(old(self).id),
            same_values_owners(*old(pool), *final(pool)),
            forall|i: int|
                0 <= i < old(pool).nodes@.len() && i != n
                    ==> (#[trigger] final(pool).nodes@[i]).container
                    == old(pool).nodes@[i].container,
            forall|oid: usize|
                oid != old(self).id ==> #[trigger] preserves_list(
                    *old(pool),
                    *final(pool),
                    oid,
                ),
    {
        let ghost s0 = self.chain@;
        let ghost p0 = *pool;
        let ghost id = self.id;
        proof {
            if s0.contains(n) {
                let k = choose|k: int| 0 <= k < s0.len() && s0[k] == n;
                assert(p0.nodes@[s0[k] as int].container == Some(id));
                assert(false);
            }
        }
        let succ = match pred {
            Link::Sentinel => self.first,
            Link::Node(p) => {
                proof {
                    assert(s0[pos@ - 1] < pool.nodes@.len());
                }
                pool.nodes[p].next
            },
        };
        proof {
            assert(succ == (if pos@ == s0.len() {
                Link::Sentinel
            } else {
                Link::Node(s0[pos@])
            }));
        }
        let node_n = pool.nodes[n];
        pool.nodes[n] = ListNode {
            value: node_n.value,
            next: succ,
            prev: pred,
            owner: node_n.owner,
            container: Some(self.id),
        };
        match pred {
            Link::Sentinel => {
                self.first = Link::Node(n);
            },
            Link::Node(p) => {
                pool.nodes[p].next = Link::Node(n);
            },
        }
        match succ {
            Link::Sentinel => {
                self.last = Link::Node(n);
            },
            Link::Node(q) => {
                proof {
                    assert(s0[pos@] != n && (pos@ == 0 || s0[pos@ - 1] != s0[pos@]));
                }
                pool.nodes[q].prev = Link::Node(n);
            },
        }
        self.count = self.count + 1;
        proof {
            self.chain@ = s0.insert(pos@, n);
            self.cpos@ = if self.cpos@ >= pos@ {
                self.cpos@ + 1
            } else {
                self.cpos@
            };
            let s1 = self.chain@;
            s0.insert_ensures(pos@, n);
            assert(s1.len() == s0.len() + 1);
            assert forall|k: int| 0 <= k < s1.len() implies (#[trigger] s1[k]) == (if k < pos@ {
                s0[k]
            } else if k == pos@ {
                n
            } else {
                s0[k - 1]
            }) by {}
            assert forall|k: int| 0 <= k < s1.len() implies (#[trigger] s1[k])
                < pool.nodes@.len() by {}
            assert forall|k: int, j: int| 0 <= k < j < s1.len() implies s1[k] != s1[j] by {}
            assert forall|k: int|
                0 <= k < s1.len() implies (#[trigger] pool.nodes@[s1[k] as int]).container
                == Some(id) by {}
            assert forall|i: usize|
                i < pool.nodes@.len() && (#[trigger] pool.nodes@[i as int]).container == Some(
                    id,
                ) implies s1.contains(i) by {
                if i == n {
                    assert(s1[pos@] == n);
                } else {
                    assert(p0.nodes@[i as int].container == Some(id));
                    assert(s0.contains(i));
                    let k = choose|k: int| 0 <= k < s0.len() && s0[k] == i;
                    if k < pos@ {
                        assert(s1[k] == s0[k]);
                    } else {
                        assert(s1[k + 1] == s0[k]);
                    }
                }
            }
            assert forall|k: int|
                0 <= k < s1.len() implies (#[trigger] pool.nodes@[s1[k] as int]).next == (if k + 1
                == s1.len() {
                Link::Sentinel
            } else {
                Link::Node(s1[k + 1])
            }) by {
                if k < pos@ - 1 {
                    assert(pool.nodes@[s0[k] as int] == p0.nodes@[s0[k] as int]);
                } else if k > pos@ + 1 {
                    assert(pool.nodes@[s0[k - 1] as int] == p0.nodes@[s0[k - 1] as int]);
                }
            }
            assert forall|k: int|
                0 <= k < s1.len() implies (#[trigger] pool.nodes@[s1[k] as int]).prev == (if k
                == 0 {
                Link::Sentinel
            } else {
                Link::Node(s1[k - 1])
            }) by {
                if k < pos@ - 1 {
                    assert(pool.nodes@[s0[k] as int] == p0.nodes@[s0[k] as int]);
                } else if k > pos@ + 1 {
                    assert(pool.nodes@[s0[k - 1] as int] == p0.nodes@[s0[k - 1] as int]);
                }
            }
            assert(self.wf(*pool));
            assert forall|oid: usize| oid != id implies #[trigger] preserves_list(
                p0,
                *pool,
                oid,
            ) by {}
        }
    }

    /// Inserts `node` in ascending key order: after every node whose key is
    /// less than or equal, before the first whose key is strictly greater —
    /// a stable, first-in-first-out tie-break among equal keys.  A node
    /// carrying the maximal key is placed directly before the sentinel in
    /// constant time, without a scan.
    pub fn insert_sorted(&mut self, pool: &mut NodePool, n: usize)
        requires
            old(pool).wf(),
            old(self).wf(*old(pool)),
            old(pool).has_node(n),
            old(pool).node(n).container is None,
            old(self).count < usize::MAX,
        ensures
            final(pool).wf(),
            final(self).wf(*final(pool)),
            final(self).id == old(self).id,
            final(self).count == old(self).count + 1,
            final(self).cursor == old(self).cursor,
            final(self).chain@ == old(self).chain@.insert(
                insert_pos(old(self).keys(*old(pool)), old(pool).node(n).value),
                n,
            ),
            final(self).keys(*final(pool)) == old(self).keys(*old(pool)).insert(
                insert_pos(old(self).keys(*old(pool)), old(pool).node(n).value),
                old(pool).node(n).value,
            ),
            final(self).cpos@ == (if old(self).cpos@ >= insert_pos(
                old(self).keys(*old(pool)),
                old(pool).node(n).value,
            ) {
                old(self).cpos@ + 1
            } else {
                old(self).cpos@
            }),
            final(pool).next_list_id == old(pool).next_list_id,
            final(pool).node(n).container == Some(old(self).id),
            same_values_owners(*old(pool), *final(pool)),
            forall|i: int|
                0 <= i < old(pool).nodes@.len() && i != n
                    ==> (#[trigger] final(pool).nodes@[i]).container
                    == old(pool).nodes@[i].container,
            forall|oid: usize|
                oid != old(self).id ==> #[trigger] preserves_list(
                    *old(pool),
                    *final(pool),
                    oid,
                ),
    {
        let ghost s0 = self.chain@;
        let ghost keys0 = self.keys(*pool);
        let v = pool.nodes[n].value;
        let mut pred: Link = Link::Sentinel;
        let mut pos: usize = 0;
        if v == MAX_TICK {
            // "Block forever" fast path: nothing can sort after the maximal
            // key, so the node belongs directly before the sentinel.
            pred = self.last;
            pos = self.count;
            proof {
                lemma_insert_pos_is(keys0, v, s0.len() as int);
            }
        } else {
            loop
                invariant
                    self.wf(*pool),
                    s0 == self.chain@,
                    keys0 == self.keys(*pool),
                    v < MAX_TICK,
                    pos <= s0.len(),
                    pred == (if pos == 0 {
                        Link::Sentinel
                    } else {
                        Link::Node(s0[pos as int - 1])
                    }),
                    forall|j: int| 0 <= j < pos ==> keys0[j] <= v,
                ensures
                    pos <= s0.len(),
                    pred == (if pos == 0 {
                        Link::Sentinel
                    } else {
                        Link::Node(s0[pos as int - 1])
                    }),
                    forall|j: int| 0 <= j < pos ==> keys0[j] <= v,
                    pos < s0.len() ==> keys0[pos as int] > v,
                decreases s0.len() - pos,
            {
                let nxt = match pred {
                    Link::Sentinel => self.first,
                    Link::Node(p) => pool.nodes[p].next,
                };
                proof {
                    assert(nxt == (if pos == s0.len() {
                        Link::Sentinel
                    } else {
                        Link::Node(s0[pos as int])
                    }));
                }
                match nxt {
                    Link::Sentinel => {
                        break ;
                    },
                    Link::Node(q) => {
                        if pool.nodes[q].value <= v {
                            pred = nxt;
                            pos = pos + 1;
                        } else {
                            proof {
                                assert(keys0[pos as int] == pool.nodes@[q as int].value);
                            }
                            break ;
                        }
                    },
                }
            }
            proof {
                lemma_insert_pos_is(keys0, v, pos as int);
            }
        }
        self.link_in(pool, n, pred, Ghost(pos as int));
        proof {
            let posi = insert_pos(keys0, v);
            let s1 = self.chain@;
            let keys1 = self.keys(*pool);
            keys0.insert_ensures(posi, v);
            s0.insert_ensures(posi, n);
            assert forall|k: int| 0 <= k < keys1.len() implies (#[trigger] keys1[k])
                == keys0.insert(posi, v)[k] by {
                if k < posi {
                    assert(keys1[k] == pool.nodes@[s0[k] as int].value);
                } else if k > posi {
                    assert(keys1[k] == pool.nodes@[s0[k - 1] as int].value);
                }
            }
            assert(keys1 =~= keys0.insert(posi, v));
        }
    }

    /// Ignores key order entirely: inserts `node` directly before the
    /// current cursor position in constant time, leaving every other node's
    /// relative order unchanged.  The round-robin traversal therefore
    /// reaches the new node last.
    pub fn insert_at_end(&mut self, pool: &mut NodePool, n: usize)
        requires
            old(pool).wf(),
            old(self).wf(*old(pool)),
            old(pool).has_node(n),
            old(pool).node(n).container is None,
            old(self).count < usize::MAX,
        ensures
            final(pool).wf(),
            final(self).wf(*final(pool)),
            final(self).id == old(self).id,
            final(self).count == old(self).count + 1,
            final(self).cursor == old(self).cursor,
            final(self).chain@ == old(self).chain@.insert(old(self).before_cursor_pos(), n),
            final(self).chain@[old(self).before_cursor_pos()] == n,
            final(self).cpos@ == (if old(self).cpos@ == -1 {
                -1
            } else {
                old(self).cpos@ + 1
            }),
            final(pool).next_list_id == old(pool).next_list_id,
            final(pool).node(n).container == Some(old(self).id),
            same_values_owners(*old(pool), *final(pool)),
            forall|i: int|
                0 <= i < old(pool).nodes@.len() && i != n
                    ==> (#[trigger] final(pool).nodes@[i]).container
                    == old(pool).nodes@[i].container,
            forall|oid: usize|
                oid != old(self).id ==> #[trigger] preserves_list(
                    *old(pool),
                    *final(pool),
                    oid,
                ),
    {
        let ghost pos = self.before_cursor_pos();
        let pred = match self.cursor {
            Link::Sentinel => self.last,
            Link::Node(c) => {
                proof {
                    assert(c == self.chain@[self.cpos@]);
                    assert(self.chain@[self.cpos@] < pool.nodes@.len());
                }
                pool.nodes[c].prev
            },
        };
        self.link_in(pool, n, pred, Ghost(pos));
        proof {
            self.chain@.insert_ensures(pos, n);
        }
    }

    /// Unlinks `node` from its neighbours; if it carried the cursor, parks
    /// the cursor on the node's former predecessor so it stays valid;
    /// resets the node to the unlinked state; decrements the counter and
    /// returns the item count the list held before the removal.  Removing
    /// the sole remaining node leaves the list exactly as `init` made it.
    #[verifier::rlimit(100)]
    pub fn remove(&mut self, pool: &mut NodePool, n: usize) -> (r: usize)
        requires
            old(pool).wf(),
            old(self).wf(*old(pool)),
            old(pool).has_node(n),
            old(pool).node(n).container == Some(old(self).id),
        ensures
            final(pool).wf(),
            final(self).wf(*final(pool)),
            final(self).id == old(self).id,
            r == old(self).count,
            final(self).count == old(self).count - 1,
            0 <= old(self).chain@.index_of(n) < old(self).chain@.len(),
            old(self).chain@[old(self).chain@.index_of(n)] == n,
            final(self).chain@ == old(self).chain@.remove(old(self).chain@.index_of(n)),
            final(self).cpos@ == (if old(self).cpos@ >= old(self).chain@.index_of(n) {
                old(self).cpos@ - 1
            } else {
                old(self).cpos@
            }),
            old(self).cursor != Link::Node(n) ==> final(self).cursor == old(self).cursor,
            old(self).cursor == Link::Node(n) ==> final(self).cpos@ == old(self).cpos@ - 1,
            old(self).count == 1 ==> final(self).empty_state(),
            final(pool).node(n).container is None,
            final(pool).node(n).next == Link::Sentinel,
            final(pool).node(n).prev == Link::Sentinel,
            final(pool).next_list_id == old(pool).next_list_id,
            same_values_owners(*old(pool), *final(pool)),
            forall|i: int|
                0 <= i < old(pool).nodes@.len() && i != n
                    ==> (#[trigger] final(pool).nodes@[i]).container
                    == old(pool).nodes@[i].container,
            forall|oid: usize|
                oid != old(self).id ==> #[trigger] preserves_list(
                    *old(pool),
                    *final(pool),
                    oid,
                ),
    {
        let ghost s0 = self.chain@;
        let ghost p0 = *pool;
        let ghost id = self.id;
        proof {
            assert(s0.contains(n));
        }
        let ghost k = s0.index_of(n);
        proof {
            assert(0 <= k < s0.len() && s0[k] == n);
        }
        let node_n = pool.nodes[n];
        let nxt = node_n.next;
        let prv = node_n.prev;
        proof {
            assert(pool.nodes@[s0[k] as int].next == nxt);
            assert(pool.nodes@[s0[k] as int].prev == prv);
        }
        pool.nodes[n] = ListNode {
            value: node_n.value,
            next: Link::Sentinel,
            prev: Link::Sentinel,
            owner: node_n.owner,
            container: None,
        };
        match nxt {
            Link::Sentinel => {
                self.last = prv;
            },
            Link::Node(q) => {
                proof {
                    assert(s0[k + 1] != n);
                }
                pool.nodes[q].prev = prv;
            },
        }
        match prv {
            Link::Sentinel => {
                self.first = nxt;
            },
            Link::Node(p) => {
                proof {
                    assert(s0[k - 1] != n && (k + 1 == s0.len() || s0[k - 1] != s0[k + 1]));
                }
                pool.nodes[p].next = nxt;
            },
        }
        if self.cursor == Link::Node(n) {
            // Cursor repair: the former predecessor is still a member.
            self.cursor = prv;
        }
        let r = self.count;
        self.count = self.count - 1;
        proof {
            if self.cpos@ == k {
                self.cpos@ = k - 1;
            } else if self.cpos@ > k {
                self.cpos@ = self.cpos@ - 1;
            }
            self.chain@ = s0.remove(k);
            let s1 = self.chain@;
            s0.remove_ensures(k);
            assert(s1.len() == s0.len() - 1);
            assert forall|j: int| 0 <= j < s1.len() implies (#[trigger] s1[j]) == (if j < k {
                s0[j]
            } else {
                s0[j + 1]
            }) by {}
            assert forall|j: int| 0 <= j < s1.len() implies (#[trigger] s1[j]) != n by {}
            assert forall|i: usize|
                i < pool.nodes@.len() && (#[trigger] pool.nodes@[i as int]).container == Some(
                    id,
                ) implies s1.contains(i) by {
                assert(i != n);
                assert(p0.nodes@[i as int].container == Some(id));
                assert(s0.contains(i));
                let j = choose|j: int| 0 <= j < s0.len() && s0[j] == i;
                assert(0 <= j < s0.len() && s0[j] == i);
                assert(j != k);
                if j < k {
                    assert(s1[j] == s0[j]);
                } else {
                    assert(s1[j - 1] == s0[j]);
                }
            }
            assert forall|j: int|
                0 <= j < s1.len() implies (#[trigger] pool.nodes@[s1[j] as int]).next == (if j + 1
                == s1.len() {
                Link::Sentinel
            } else {
                Link::Node(s1[j + 1])
            }) by {
                if j < k - 1 {
                    assert(pool.nodes@[s0[j] as int] == p0.nodes@[s0[j] as int]);
                } else if j > k {
                    assert(pool.nodes@[s0[j + 1] as int] == p0.nodes@[s0[j + 1] as int]);
                }
            }
            assert forall|j: int|
                0 <= j < s1.len() implies (#[trigger] pool.nodes@[s1[j] as int]).prev == (if j
                == 0 {
                Link::Sentinel
            } else {
                Link::Node(s1[j - 1])
            }) by {
                if j < k - 1 {
                    assert(pool.nodes@[s0[j] as int] == p0.nodes@[s0[j] as int]);
                } else if j > k {
                    assert(pool.nodes@[s0[j + 1] as int] == p0.nodes@[s0[j + 1] as int]);
                }
            }
            if s0.len() == 1 {
                assert(s1 =~= Seq::<usize>::empty());
            }
            assert(self.wf(*pool));
            assert forall|oid: usize| oid != id implies #[trigger] preserves_list(
                p0,
                *pool,
                oid,
            ) by {}
        }
        r
    }

    /// Moves the cursor to its successor, skipping over the sentinel so it
    /// always lands on a real node, and returns that node's owner.  Repeated
    /// calls visit every member once per lap, in chain order, indefinitely —
    /// the round-robin mechanism.  Callers must ensure the list is nonempty.
    pub fn advance_cursor_and_get_owner(&mut self, pool: &NodePool) -> (o: usize)
        requires
            old(self).wf(*pool),
            old(self).count > 0,
        ensures
            final(self).wf(*pool),
            final(self).id == old(self).id,
            final(self).count == old(self).count,
            final(self).chain@ == old(self).chain@,
            final(self).first == old(self).first,
            final(self).last == old(self).last,
            final(self).cpos@ == lap_step(old(self).cpos@, old(self).chain@.len() as int),
            final(self).cursor == Link::Node(old(self).chain@[final(self).cpos@]),
            o == pool.node(old(self).chain@[final(self).cpos@]).owner,
            o == old(self).owners(*pool)[final(self).cpos@],
    {
        let ghost s0 = self.chain@;
        let nxt = match self.cursor {
            Link::Sentinel => self.first,
            Link::Node(c) => {
                proof {
                    assert(c == s0[self.cpos@] && s0[self.cpos@] < pool.nodes@.len());
                }
                pool.nodes[c].next
            },
        };
        let cur2 = match nxt {
            // The successor is the sentinel: skip it, wrapping to the head.
            Link::Sentinel => self.first,
            Link::Node(_) => nxt,
        };
        self.cursor = cur2;
        proof {
            self.cpos@ = lap_step(self.cpos@, s0.len() as int);
        }
        match cur2 {
            Link::Node(c) => pool.nodes[c].owner,
            Link::Sentinel => {
                proof {
                    assert(false);
                }
                vstd::pervasive::unreached()
            },
        }
    }

    /// The owner of the first real node — the one directly after the
    /// sentinel — without moving the cursor.  Callers must ensure the list
    /// is nonempty.
    pub fn peek_head_owner(&self, pool: &NodePool) -> (o: usize)
        requires
            self.wf(*pool),
            self.count > 0,
        ensures
            o == pool.node(self.chain@[0]).owner,
            o == self.owners(*pool)[0],
    {
        match self.first {
            Link::Node(h) => pool.nodes[h].owner,
            Link::Sentinel => vstd::pervasive::unreached(),
        }
    }

    /// Constant-time membership test: true exactly when `node`'s container
    /// back-reference names this list — equivalently, by the membership law,
    /// exactly when the node is reachable on this list's chain.
    pub fn contains(&self, pool: &NodePool, n: usize) -> (r: bool)
        requires
            self.wf(*pool),
            pool.has_node(n),
        ensures
            r == (pool.node(n).container == Some(self.id)),
            r == self.chain@.contains(n),
    {
        proof {
            lemma_contains_iff_reachable(*self, *pool, n);
        }
        match pool.nodes[n].container {
            Some(c) => c == self.id,
            None => false,
        }
    }
}

/// Two lists with different identities never interfere: an operation on one
/// list establishes `preserves_list` for every other identity, and through
/// this lemma the other list stays well-formed over the shared pool.
pub proof fn lemma_frame_wf(l: OrderedList, p0: NodePool, p1: NodePool)
    requires
        l.wf(p0),
        preserves_list(p0, p1, l.id),
    ensures
        l.wf(p1),
{
    assert forall|k: int| 0 <= k < l.chain@.len() implies (#[trigger] p1.nodes@[l.chain@[k] as int])
        == p0.nodes@[l.chain@[k] as int] by {
        assert(p0.nodes@[l.chain@[k] as int].container == Some(l.id));
    }
    assert forall|i: usize|
        i < p1.nodes@.len() && (#[trigger] p1.nodes@[i as int]).container == Some(
            l.id,
        ) implies l.chain@.contains(i) by {
        assert(p0.nodes@[i as int].container == Some(l.id));
    }
}

/// Membership law: a node's container back-reference names this list exactly
/// when the node is reachable by walking this list's chain.
pub proof fn lemma_contains_iff_reachable(l: OrderedList, pool: NodePool, n: usize)
    requires
        l.wf(pool),
        pool.has_node(n),
    ensures
        pool.node(n).container == Some(l.id) <==> l.chain@.contains(n),
{
    if l.chain@.contains(n) {
        let k = choose|k: int| 0 <= k < l.chain@.len() && l.chain@[k] == n;
        assert(pool.nodes@[l.chain@[k] as int].container == Some(l.id));
    }
}

/// Non-decreasing key order along the chain.
pub open spec fn sorted_keys(keys: Seq<u32>) -> bool {
    forall|i: int, j: int| 0 <= i <= j < keys.len() ==> keys[i] <= keys[j]
}

/// Order law: sorted insertion keeps the walked key sequence non-decreasing,
/// and the new key lands after every existing smaller-or-equal key and
/// before every strictly greater one — so equal keys keep their insertion
/// order (a stable, first-in-first-out tie-break).
pub proof fn lemma_insert_sorted_keeps_order(keys: Seq<u32>, v: u32)
    requires
        sorted_keys(keys),
    ensures
        sorted_keys(keys.insert(insert_pos(keys, v), v)),
        forall|j: int| 0 <= j < insert_pos(keys, v) ==> keys[j] <= v,
        forall|j: int| insert_pos(keys, v) <= j < keys.len() ==> keys[j] > v,
{
    lemma_insert_pos_bounds(keys, v);
    let p = insert_pos(keys, v);
    keys.insert_ensures(p, v);
    assert forall|j: int| p <= j < keys.len() implies keys[j] > v by {
        assert(keys[p] <= keys[j]);
    }
    let s1 = keys.insert(p, v);
    assert forall|i: int, j: int| 0 <= i <= j < s1.len() implies s1[i] <= s1[j] by {
        let a = if i < p {
            keys[i]
        } else if i == p {
            v
        } else {
            keys[i - 1]
        };
        let b = if j < p {
            keys[j]
        } else if j == p {
            v
        } else {
            keys[j - 1]
        };
        assert(s1[i] == a && s1[j] == b);
    }
}

/// Stepping the lap position agrees with one cursor advance.
pub proof fn lemma_lap_index_step(p0: int, k: int, len: int)
    requires
        1 <= len,
        -1 <= p0 < len,
        0 <= k < len,
    ensures
        lap_index(p0, 0, len) == p0,
        lap_index(p0, k + 1, len) == lap_step(lap_index(p0, k, len), len),
{
}

/// Round-robin law, distinctness half: two different advances within one
/// lap of `len` calls land on two different chain positions, and the
/// advance directly after a full lap lands where the lap's first advance
/// did — no duplicates within a lap, and the cycle repeats.
pub proof fn lemma_round_robin_distinct(p0: int, len: int, i: int, j: int)
    requires
        1 <= len,
        -1 <= p0 < len,
        1 <= i < j <= len,
    ensures
        0 <= lap_index(p0, i, len) < len,
        lap_index(p0, i, len) != lap_index(p0, j, len),
        lap_step(lap_index(p0, len, len), len) == lap_index(p0, 1, len),
{
}

/// Round-robin law, coverage half: every chain position is reached by some
/// advance within one lap of `len` calls — no node is skipped.
pub proof fn lemma_round_robin_covers(p0: int, len: int, q: int)
    requires
        1 <= len,
        -1 <= p0 < len,
        0 <= q < len,
    ensures
        exists|s: int| 1 <= s <= len && lap_index(p0, s, len) == q,
{
    let s = if q > p0 {
        q - p0
    } else {
        q - p0 + len
    };
    assert(lap_index(p0, s, len) == q);
}

/// Cursor repair law: removing the node under the cursor parks the cursor
/// on the node's former predecessor, so the next advance visits the removed
/// node's former successor — nothing is skipped or revisited because of the
/// removal.
pub proof fn lemma_cursor_repair(s: Seq<usize>, k: int)
    requires
        2 <= s.len(),
        0 <= k < s.len(),
    ensures
        s.remove(k)[lap_step(k - 1, s.len() - 1)] == s[lap_step(k, s.len() as int)],
{
    s.remove_ensures(k);
}

} // verus!
