//! The stateful protocol handler: the only place where business logic lives.
//!
//! A node starts uninitialized. The first `init` message fixes its rank
//! (its position in the sorted cluster identifier list) and the cluster
//! size; every later `generate` request is answered with the identifier
//! `counter * cluster_size + rank`, after which the counter grows by one.

use crate::msg::{Body, Message, Payload, PayloadView, reply_view};
use crate::order::{id_le, position_of, rank_of, sort_ids, sort_strings};
use vstd::prelude::*;

verus! {

broadcast use vstd::seq_lib::group_to_multiset_ensures;

/// The fatal error conditions the handler can report instead of a reply.
///
/// Both are protocol-level invariant violations: the caller is expected to
/// terminate the process with a non-zero status, not to recover.
#[derive(Clone, Copy, Debug, PartialEq, Eq, Structural)]
pub enum NodeError {
    /// The node's own identifier was missing from the cluster list of an
    /// `init` message: a deployment bug, the node cannot take a rank.
    ConfigurationInvariantViolation,
    /// A `generate` request arrived before any `init`: a protocol-ordering
    /// bug upstream, the node has no rank to answer from.
    PreconditionViolation,
}

/// The identifier a node with counter value `c`, cluster size `n` and rank
/// `r` hands out. Ranks are distinct residues modulo `n`, so nodes never
/// collide.
pub open spec fn id_of(c: int, n: int, r: int) -> int {
    c * n + r
}

/// The unique-identifier node: cluster topology plus a request counter.
pub struct UniqueIdNode {
    counter: usize,
    delta: Option<usize>,
    node_id: Option<String>,
    node_ids: Option<Vec<String>>,
}

impl UniqueIdNode {
    /// How many `generate` requests the node has answered.
    pub closed spec fn spec_counter(self) -> usize {
        self.counter
    }

    /// The node's rank: its position in the sorted cluster identifier list,
    /// `None` before initialization.
    pub closed spec fn spec_rank(self) -> Option<usize> {
        self.delta
    }

    /// The identifier this node was given at construction, if any.
    pub closed spec fn spec_node_id(self) -> Option<String> {
        self.node_id
    }

    /// The sorted cluster identifier list, `None` before initialization.
    pub closed spec fn spec_node_ids(self) -> Option<Seq<Seq<char>>> {
        match self.node_ids {
            Some(v) => Some(v.deep_view()),
            None => None,
        }
    }

    /// The number of nodes in the cluster (0 before initialization).
    pub open spec fn spec_cluster_size(self) -> int {
        match self.spec_node_ids() {
            Some(v) => v.len() as int,
            None => 0,
        }
    }

    /// The rank as a number (0 before initialization).
    pub open spec fn spec_rank_val(self) -> int {
        match self.spec_rank() {
            Some(d) => d as int,
            None => 0,
        }
    }

    /// Whether the node has processed an `init` message.
    pub open spec fn initialized(self) -> bool {
        self.spec_rank() is Some && self.spec_node_ids() is Some
    }

    /// Internal validity: a rank, once set, is a position inside the stored
    /// cluster list. Constructors establish this and every handler keeps it.
    pub open spec fn wf(self) -> bool {
        match self.spec_rank() {
            Some(d) => match self.spec_node_ids() {
                Some(ids) => (d as int) < ids.len(),
                None => false,
            },
            None => true,
        }
    }

    /// The identifier the next `generate` request will be answered with.
    pub open spec fn next_id(self) -> int {
        id_of(self.spec_counter() as int, self.spec_cluster_size(), self.spec_rank_val())
    }

    /// Creates an uninitialized node: counter zero, no rank yet.
    pub fn new(node_id: Option<String>, node_ids: Option<Vec<String>>) -> (r: UniqueIdNode)
        ensures
            r.spec_counter() == 0,
            r.spec_rank() is None,
            !r.initialized(),
            r.wf(),
            r.spec_node_id() == node_id,
            r.spec_node_ids() == (match node_ids {
                Some(v) => Some(v.deep_view()),
                None => None::<Seq<Seq<char>>>,
            }),
    {
        UniqueIdNode { counter: 0, node_id, node_ids, delta: None }
    }

    /// The node's rank, when it has been initialized.
    pub fn own_rank(&self) -> (r: Option<usize>)
        ensures
            r == self.spec_rank(),
    {
        self.delta
    }

    /// The number of nodes in the cluster (0 before initialization).
    pub fn cluster_size(&self) -> (r: usize)
        ensures
            r as int == self.spec_cluster_size(),
    {
        match &self.node_ids {
            Some(v) => v.len(),
            None => 0,
        }
    }

    /// How many `generate` requests the node has answered.
    pub fn counter_value(&self) -> (r: usize)
        ensures
            r == self.spec_counter(),
    {
        self.counter
    }

    /// Handles one incoming message and produces at most one reply.
    ///
    /// - `init`: sorts the supplied identifier list, takes the position of
    ///   the node's own identifier in it as the rank, stores rank and list,
    ///   and answers `init_ok`. An own identifier missing from the list is a
    ///   fatal configuration error.
    /// - `generate`: requires an earlier `init`; answers `generate_ok`
    ///   carrying `counter * cluster_size + rank` and increments the counter.
    /// - `init_ok` and `generate_ok` arriving as input are accepted and
    ///   produce no reply and no state change.
    ///
    /// Every reply swaps source and destination and sets `in_reply_to` to
    /// the request's `msg_id`.
    pub fn generate(&mut self, input: Message) -> (r: Result<Option<Message>, NodeError>)
        requires
            old(self).wf(),
            input.body.payload is Generate && old(self).initialized() ==> {
                &&& old(self).next_id() <= usize::MAX as int
                &&& old(self).spec_counter() < usize::MAX
            },
        ensures
            final(self).wf(),
            final(self).spec_node_id() == old(self).spec_node_id(),
            match input.body.payload {
                Payload::Generate => if old(self).initialized() {
                    &&& r matches Ok(Some(m)) && m@ == reply_view(
                        input@,
                        (PayloadView::GenerateOk { id: old(self).next_id() as usize }),
                    )
                    &&& final(self).spec_counter() == old(self).spec_counter() + 1
                    &&& final(self).spec_rank() == old(self).spec_rank()
                    &&& final(self).spec_node_ids() == old(self).spec_node_ids()
                } else {
                    &&& r == Err::<Option<Message>, NodeError>(NodeError::PreconditionViolation)
                    &&& *final(self) == *old(self)
                },
                Payload::Init { node_id, node_ids } => if node_ids.deep_view().contains(
                    node_id@,
                ) {
                    &&& r matches Ok(Some(m)) && m@ == reply_view(input@, PayloadView::InitOk)
                    &&& final(self).spec_rank() matches Some(d) && Some(d as int) == rank_of(
                        node_ids.deep_view(),
                        node_id@,
                    )
                    &&& final(self).spec_node_ids() == Some(sort_ids(node_ids.deep_view()))
                    &&& final(self).initialized()
                    &&& final(self).spec_counter() == old(self).spec_counter()
                } else {
                    &&& r == Err::<Option<Message>, NodeError>(
                        NodeError::ConfigurationInvariantViolation,
                    )
                    &&& *final(self) == *old(self)
                },
                Payload::GenerateOk { .. } => r == Ok::<Option<Message>, NodeError>(None)
                    && *final(self) == *old(self),
                Payload::InitOk => r == Ok::<Option<Message>, NodeError>(None) && *final(self)
                    == *old(self),
            },
    {
        match input.body.payload {
            Payload::Generate => {
                match (self.delta, &self.node_ids) {
                    (Some(d), Some(ids)) => {
                        let n = ids.len();
                        let id = self.counter * n + d;
                        self.counter = self.counter + 1;
                        Ok(Some(Message {
                            src: input.dest,
                            dest: input.src,
                            body: Body {
                                payload: Payload::GenerateOk { id },
                                msg_id: None,
                                in_reply_to: input.body.msg_id,
                            },
                        }))
                    },
                    _ => Err(NodeError::PreconditionViolation),
                }
            },
            Payload::GenerateOk { .. } => Ok(None),
            Payload::Init { node_id, node_ids } => {
                let ghost dv = node_ids.deep_view();
                proof {
                    crate::order::lemma_id_le_total_ordering();
                    dv.lemma_sort_by_ensures(id_le());
                }
                let sorted = sort_strings(node_ids);
                match position_of(&sorted, &node_id) {
                    Some(d) => {
                        proof {
                            sorted.deep_view().index_of_first_ensures(node_id@);
                            assert(sort_ids(dv).contains(node_id@));
                            assert(sort_ids(dv).to_multiset().count(node_id@) > 0);
                            assert(dv.contains(node_id@));
                        }
                        self.delta = Some(d);
                        self.node_ids = Some(sorted);
                        Ok(Some(Message {
                            src: input.dest,
                            dest: input.src,
                            body: Body {
                                payload: Payload::InitOk,
                                msg_id: None,
                                in_reply_to: input.body.msg_id,
                            },
                        }))
                    },
                    None => {
                        proof {
                            sorted.deep_view().index_of_first_ensures(node_id@);
                            assert(!sort_ids(dv).contains(node_id@));
                            if dv.contains(node_id@) {
                                assert(dv.to_multiset().count(node_id@) > 0);
                                assert(sort_ids(dv).to_multiset().count(node_id@) > 0);
                                assert(sort_ids(dv).contains(node_id@));
                            }
                        }
                        Err(NodeError::ConfigurationInvariantViolation)
                    },
                }
            },
            Payload::InitOk => Ok(None),
        }
    }
}

/// The identifiers one node hands out grow strictly with its counter: with
/// a fixed rank and cluster size `n >= 1` the stream of identifiers is
/// `r, n + r, 2n + r, ...`, strictly increasing, so it never repeats.
pub proof fn lemma_ids_strictly_increasing(n: int, r: int, c1: int, c2: int)
    requires
        1 <= n,
        0 <= c1 < c2,
    ensures
        id_of(c1, n, r) < id_of(c2, n, r),
{
    assert(c1 * n < c2 * n) by (nonlinear_arith)
        requires
            1 <= n,
            0 <= c1 < c2,
    ;
}

/// Nodes with distinct ranks never produce the same identifier, whatever
/// their counters: each rank owns one residue class modulo the cluster size.
pub proof fn lemma_distinct_ranks_distinct_ids(n: int, r1: int, r2: int, c1: int, c2: int)
    requires
        0 <= r1 < n,
        0 <= r2 < n,
        r1 != r2,
        0 <= c1,
        0 <= c2,
    ensures
        id_of(c1, n, r1) != id_of(c2, n, r2),
{
    if id_of(c1, n, r1) == id_of(c2, n, r2) {
        if c1 < c2 {
            assert(c1 * n + n <= c2 * n) by (nonlinear_arith)
                requires
                    c1 < c2,
                    1 <= n,
            ;
        } else if c2 < c1 {
            assert(c2 * n + n <= c1 * n) by (nonlinear_arith)
                requires
                    c2 < c1,
                    1 <= n,
            ;
        }
        assert(false);
    }
}

/// Across a whole cluster whose nodes have the distinct ranks `0 .. n`, the
/// union of all identifiers ever produced has no duplicate: two `generate`
/// calls that differ in rank or in counter value give different identifiers.
pub proof fn lemma_ids_unique(n: int, r1: int, r2: int, c1: int, c2: int)
    requires
        0 <= r1 < n,
        0 <= r2 < n,
        0 <= c1,
        0 <= c2,
        r1 != r2 || c1 != c2,
    ensures
        id_of(c1, n, r1) != id_of(c2, n, r2),
{
    if r1 == r2 {
        if c1 < c2 {
            lemma_ids_strictly_increasing(n, r1, c1, c2);
        } else {
            lemma_ids_strictly_increasing(n, r1, c2, c1);
        }
    } else {
        lemma_distinct_ranks_distinct_ids(n, r1, r2, c1, c2);
    }
}

} // verus!
