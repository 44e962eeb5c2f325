//! The social graph: identities as nodes, "following" edges between
//! them, per-identity follow-update timestamps, and a profile cache.
//!
//! Nodes live in an arena and are addressed by integer index; edges are
//! adjacency lists of node indices. No operation fails: querying an
//! unknown identity returns an empty or absent answer.

use vstd::prelude::*;

use crate::identity::Identity;
use crate::map_intersect::IdMap;
use crate::user::Profile;

verus! {

/// The label of a graph edge. Only "following" edges exist.
#[derive(Debug, Clone, Copy, PartialEq, Eq, Structural)]
pub enum EdgeKind {
    Following,
}

/// A handle to an edge: the source node and the position of the edge in
/// that node's outgoing list.
#[derive(Debug, Clone, Copy, PartialEq, Eq, Structural)]
pub struct EdgeIndex {
    pub from: usize,
    pub slot: usize,
}

/// Graph that tracks the association between users: who follows whom,
/// when each user's outgoing edges were last (re)established, and what
/// profile record each user has.
pub struct Network {
    graph_nodes: Vec<Identity>,
    graph_edges: Vec<Vec<(usize, EdgeKind)>>,
    users_metadata: IdMap<Option<(Profile, u64)>>,
    added_out_edges: IdMap<u64>,
}

impl Network {
    /// The identities in the graph, by node index.
    pub closed spec fn id_seq(self) -> Seq<Identity> {
        self.graph_nodes@
    }

    /// Whether an identity has a node.
    pub open spec fn has_user(self, u: Identity) -> bool {
        self.id_seq().contains(u)
    }

    /// The outgoing edge list of a node.
    pub closed spec fn edges_at(self, a: int) -> Seq<(usize, EdgeKind)> {
        self.graph_edges@[a]@
    }

    /// Whether node `a` has a "following" edge to node `b`.
    pub closed spec fn has_edge_idx(self, a: int, b: int) -> bool {
        exists|j: int|
            0 <= j < self.edges_at(a).len() && (#[trigger] self.edges_at(a)[j]).0 == b
                && self.edges_at(a)[j].1 == EdgeKind::Following
    }

    /// Whether nodes `a` and `b` carry identities `u` and `v` and an
    /// edge runs from `a` to `b`.
    pub closed spec fn edge_between(self, a: int, b: int, u: Identity, v: Identity) -> bool {
        &&& 0 <= a < self.id_seq().len()
        &&& 0 <= b < self.id_seq().len()
        &&& self.id_seq()[a] == u
        &&& self.id_seq()[b] == v
        &&& self.has_edge_idx(a, b)
    }

    /// Whether `u` follows `v`.
    pub open spec fn follows(self, u: Identity, v: Identity) -> bool {
        exists|a: int, b: int| #[trigger] self.edge_between(a, b, u, v)
    }

    /// Whether `u` and `v` follow each other.
    pub open spec fn mutual(self, u: Identity, v: Identity) -> bool {
        self.follows(u, v) && self.follows(v, u)
    }

    /// The recorded last-follow-update timestamps, per identity.
    pub closed spec fn last_update_map(self) -> Map<Identity, u64> {
        self.added_out_edges@
    }

    /// The profile cache: an identity is absent when never queried,
    /// bound to `None` when queried and nothing was found, and bound to
    /// `Some((profile, timestamp))` when a record was found.
    pub closed spec fn metadata_map(self) -> Map<Identity, Option<(Profile, u64)>> {
        self.users_metadata@
    }

    /// Well-formed: node identities are distinct, every node has an
    /// edge list, edge targets are valid node indices, and no node
    /// lists the same target twice.
    pub closed spec fn wf(self) -> bool {
        &&& self.id_seq().no_duplicates()
        &&& self.graph_edges@.len() == self.id_seq().len()
        &&& forall|a: int, j: int|
            0 <= a < self.id_seq().len() && 0 <= j < self.edges_at(a).len() ==> (
            #[trigger] self.edges_at(a)[j]).0 < self.id_seq().len()
        &&& forall|a: int, j1: int, j2: int|
            0 <= a < self.id_seq().len() && 0 <= j1 < self.edges_at(a).len() && 0 <= j2
                < self.edges_at(a).len() && j1 != j2 ==> (#[trigger] self.edges_at(a)[j1]).0 != (
            #[trigger] self.edges_at(a)[j2]).0
        &&& self.users_metadata.wf()
        &&& self.added_out_edges.wf()
    }

    /// In a well-formed graph an identity sits at one node only.
    pub proof fn lemma_index_unique(self, a1: int, a2: int)
        requires
            self.wf(),
            0 <= a1 < self.id_seq().len(),
            0 <= a2 < self.id_seq().len(),
            self.id_seq()[a1] == self.id_seq()[a2],
        ensures
            a1 == a2,
    {
    }

    /// Symmetry of mutuality: `u` and `v` are mutuals exactly when `v`
    /// and `u` are.
    pub proof fn lemma_mutual_symmetric(self, u: Identity, v: Identity)
        ensures
            self.mutual(u, v) == self.mutual(v, u),
    {
    }

    /// Idempotence of adding an identity: [`Network::add_user`]'s
    /// contract pins its handle to the node that holds the identity and
    /// leaves the graph untouched when the identity is already present,
    /// so two adds of the same identity yield the same handle — here:
    /// any two handles that both hold the identity in a well-formed
    /// graph are equal.
    pub proof fn lemma_add_identity_idempotent(g: Network, u: Identity, h1: usize, h2: usize)
        requires
            g.wf(),
            h1 < g.id_seq().len(),
            g.id_seq()[h1 as int] == u,
            h2 < g.id_seq().len(),
            g.id_seq()[h2 as int] == u,
        ensures
            h1 == h2,
    {
        g.lemma_index_unique(h1 as int, h2 as int);
    }

    /// The node arena is held in memory, so its size fits the machine.
    pub proof fn lemma_id_count_bounded(self)
        ensures
            self.id_seq().len() <= usize::MAX,
    {
        broadcast use vstd::std_specs::vec::axiom_spec_len;

        assert(vstd::std_specs::vec::spec_vec_len(&self.graph_nodes)
            == self.graph_nodes@.len());
    }

    /// A follow edge only runs between identities the graph knows.
    pub proof fn lemma_follows_users(self, u: Identity, v: Identity)
        requires
            self.follows(u, v),
        ensures
            self.has_user(u),
            self.has_user(v),
    {
        let (a, b) = choose|a: int, b: int| self.edge_between(a, b, u, v);
        assert(self.has_user(u)) by {
            assert(self.id_seq()[a] == u);
        }
        assert(self.has_user(v)) by {
            assert(self.id_seq()[b] == v);
        }
    }

    /// Two states with the same nodes and edges agree on who follows
    /// whom, and graph well-formedness carries over.
    proof fn lemma_same_graph_same_follows(pre: Network, post: Network)
        requires
            pre.graph_nodes == post.graph_nodes,
            pre.graph_edges == post.graph_edges,
        ensures
            forall|x: Identity, y: Identity| pre.follows(x, y) == post.follows(x, y),
            post.id_seq() == pre.id_seq(),
            forall|a: int| #[trigger] post.edges_at(a) == pre.edges_at(a),
            pre.wf() && post.users_metadata.wf() && post.added_out_edges.wf() ==> post.wf(),
    {
        assert(forall|a: int| #[trigger] post.edges_at(a) == pre.edges_at(a));
        if pre.wf() && post.users_metadata.wf() && post.added_out_edges.wf() {
            assert forall|a: int, j: int|
                0 <= a < post.id_seq().len() && 0 <= j < post.edges_at(a).len() implies (
            #[trigger] post.edges_at(a)[j]).0 < post.id_seq().len() by {
                assert(pre.edges_at(a)[j].0 < pre.id_seq().len());
            }
            assert forall|a: int, j1: int, j2: int|
                0 <= a < post.id_seq().len() && 0 <= j1 < post.edges_at(a).len() && 0 <= j2
                    < post.edges_at(a).len() && j1 != j2 implies (
            #[trigger] post.edges_at(a)[j1]).0 != (#[trigger] post.edges_at(a)[j2]).0 by {
                assert(pre.edges_at(a)[j1].0 != pre.edges_at(a)[j2].0);
            }
        }
        assert forall|x: Identity, y: Identity|
            pre.follows(x, y) == post.follows(x, y) by {
            if pre.follows(x, y) {
                let (a, b) = choose|a: int, b: int| pre.edge_between(a, b, x, y);
                assert(post.has_edge_idx(a, b)) by {
                    let j = choose|j: int|
                        0 <= j < pre.edges_at(a).len() && (#[trigger] pre.edges_at(a)[j]).0 == b
                            && pre.edges_at(a)[j].1 == EdgeKind::Following;
                    assert(post.edges_at(a)[j] == pre.edges_at(a)[j]);
                }
                assert(post.edge_between(a, b, x, y));
                assert(post.follows(x, y));
            }
            if post.follows(x, y) {
                let (a, b) = choose|a: int, b: int| post.edge_between(a, b, x, y);
                assert(pre.has_edge_idx(a, b)) by {
                    let j = choose|j: int|
                        0 <= j < post.edges_at(a).len() && (#[trigger] post.edges_at(a)[j]).0 == b
                            && post.edges_at(a)[j].1 == EdgeKind::Following;
                    assert(pre.edges_at(a)[j] == post.edges_at(a)[j]);
                }
                assert(pre.edge_between(a, b, x, y));
                assert(pre.follows(x, y));
            }
        }
    }

    /// An empty graph: no users, no edges, no timestamps, no profiles.
    pub fn new() -> (r: Network)
        ensures
            r.wf(),
            r.id_seq() == Seq::<Identity>::empty(),
            forall|u: Identity, v: Identity| !r.follows(u, v),
            r.last_update_map() == Map::<Identity, u64>::empty(),
            r.metadata_map() == Map::<Identity, Option<(Profile, u64)>>::empty(),
    {
        let r = Network {
            graph_nodes: Vec::new(),
            graph_edges: Vec::new(),
            users_metadata: IdMap::new(),
            added_out_edges: IdMap::new(),
        };
        proof {
            assert(r.id_seq() =~= Seq::<Identity>::empty());
            assert forall|u: Identity, v: Identity| !r.follows(u, v) by {
                if r.follows(u, v) {
                    let (a, b) = choose|a: int, b: int| r.edge_between(a, b, u, v);
                }
            }
        }
        r
    }

    /// Finds the node of an identity, if there is one.
    pub fn pubkey_to_node(&self, pubkey: &Identity) -> (r: Option<usize>)
        ensures
            match r {
                Some(n) => n < self.id_seq().len() && self.id_seq()[n as int] == *pubkey,
                None => !self.has_user(*pubkey),
            },
    {
        let n = self.graph_nodes.len();
        let mut i: usize = 0;
        while i < n
            invariant
                i <= n,
                n == self.id_seq().len(),
                forall|j: int| 0 <= j < i ==> self.id_seq()[j] != *pubkey,
            decreases n - i,
        {
            if self.graph_nodes[i] == *pubkey {
                return Some(i);
            }
            i += 1;
        }
        proof {
            if self.has_user(*pubkey) {
                let j = choose|j: int|
                    0 <= j < self.id_seq().len() && self.id_seq()[j] == *pubkey;
                assert(self.id_seq()[j] != *pubkey);
            }
        }
        None
    }

    /// The identity at a node, if the node exists.
    pub fn node_to_pubkey(&self, node: usize) -> (r: Option<Identity>)
        ensures
            node < self.id_seq().len() ==> r == Some(self.id_seq()[node as int]),
            node >= self.id_seq().len() ==> r is None,
    {
        if node < self.graph_nodes.len() {
            Some(self.graph_nodes[node])
        } else {
            None
        }
    }

    /// Whether the graph holds a node for this identity.
    pub fn contains_user(&self, user: &Identity) -> (b: bool)
        ensures
            b == self.has_user(*user),
    {
        match self.pubkey_to_node(user) {
            Some(n) => {
                proof {
                    assert(self.id_seq()[n as int] == *user);
                }
                true
            },
            None => false,
        }
    }

    /// Ensures the identity has a node. Returns `(node, true)` when a
    /// node was created, `(node, false)` with the existing node when
    /// the identity was already present — in that case the graph is
    /// left untouched.
    pub fn add_user(&mut self, user: Identity) -> (r: (usize, bool))
        requires
            old(self).wf(),
        ensures
            final(self).wf(),
            r.1 == !old(self).has_user(user),
            final(self).has_user(user),
            forall|x: Identity|
                final(self).has_user(x) <==> old(self).has_user(x) || x == user,
            r.0 < final(self).id_seq().len() && final(self).id_seq()[r.0 as int] == user,
            !r.1 ==> *final(self) == *old(self),
            r.1 ==> {
                &&& final(self).id_seq() == old(self).id_seq().push(user)
                &&& r.0 == old(self).id_seq().len()
                &&& forall|x: Identity, y: Identity|
                    final(self).follows(x, y) == old(self).follows(x, y)
                &&& final(self).last_update_map() == old(self).last_update_map()
                &&& final(self).metadata_map() == old(self).metadata_map()
            },
    {
        let n = self.graph_nodes.len();
        let mut i: usize = 0;
        while i < n
            invariant
                i <= n,
                self == old(self),
                self.wf(),
                n == self.id_seq().len(),
                forall|j: int| 0 <= j < i ==> self.id_seq()[j] != user,
            decreases n - i,
        {
            if self.graph_nodes[i] == user {
                proof {
                    assert(self.has_user(user)) by {
                        assert(self.id_seq()[i as int] == user);
                    }
                }
                return (i, false);
            }
            i += 1;
        }
        proof {
            if self.has_user(user) {
                let j = choose|j: int| 0 <= j < self.id_seq().len() && self.id_seq()[j] == user;
                assert(self.id_seq()[j] != user);
            }
        }
        self.graph_nodes.push(user);
        self.graph_edges.push(Vec::new());
        proof {
            let pre = *old(self);
            let post = *self;
            assert(post.id_seq() == pre.id_seq().push(user));
            assert(post.id_seq().no_duplicates()) by {
                assert(forall|j: int|
                    0 <= j < pre.id_seq().len() ==> post.id_seq()[j] == #[trigger] pre.id_seq()[
                    j]);
                assert(post.id_seq()[n as int] == user);
            }
            assert(forall|a: int|
                0 <= a < pre.id_seq().len() ==> #[trigger] post.edges_at(a) == pre.edges_at(a));
            assert(post.edges_at(n as int) =~= Seq::<(usize, EdgeKind)>::empty());
            assert(post.wf());
            assert forall|x: Identity, y: Identity|
                post.follows(x, y) == pre.follows(x, y) by {
                if post.follows(x, y) {
                    let (a, b) = choose|a: int, b: int| post.edge_between(a, b, x, y);
                    assert(post.has_edge_idx(a, b));
                    let j = choose|j: int|
                        0 <= j < post.edges_at(a).len() && (#[trigger] post.edges_at(a)[j]).0 == b
                            && post.edges_at(a)[j].1 == EdgeKind::Following;
                    assert(a < n) by {
                        if a == n {
                            assert(post.edges_at(a).len() == 0);
                        }
                    }
                    assert(b < n);
                    assert(pre.edge_between(a, b, x, y));
                    assert(pre.follows(x, y));
                }
                if pre.follows(x, y) {
                    let (a, b) = choose|a: int, b: int| pre.edge_between(a, b, x, y);
                    assert(pre.has_edge_idx(a, b));
                    let j = choose|j: int|
                        0 <= j < pre.edges_at(a).len() && (#[trigger] pre.edges_at(a)[j]).0 == b
                            && pre.edges_at(a)[j].1 == EdgeKind::Following;
                    assert(post.edges_at(a)[j] == pre.edges_at(a)[j]);
                    assert(post.has_edge_idx(a, b));
                    assert(post.edge_between(a, b, x, y));
                    assert(post.follows(x, y));
                }
            }
            assert(post.has_user(user)) by {
                assert(post.id_seq()[n as int] == user);
            }
            assert forall|x: Identity|
                post.has_user(x) <==> pre.has_user(x) || x == user by {
                if post.has_user(x) {
                    let j = choose|j: int|
                        0 <= j < post.id_seq().len() && post.id_seq()[j] == x;
                    if j < n {
                        assert(pre.id_seq()[j] == x);
                        assert(pre.has_user(x));
                    } else {
                        assert(x == user);
                    }
                }
                if pre.has_user(x) {
                    let j = choose|j: int|
                        0 <= j < pre.id_seq().len() && pre.id_seq()[j] == x;
                    assert(post.id_seq()[j] == x);
                }
            }
        }
        (n, true)
    }

    /// The handle of the "following" edge from one node to another, if
    /// that edge exists.
    pub fn get_following_edge_nodes(&self, user_node: usize, follow_node: usize) -> (r: Option<
        EdgeIndex,
    >)
        requires
            self.wf(),
            user_node < self.id_seq().len(),
            follow_node < self.id_seq().len(),
        ensures
            match r {
                Some(e) => {
                    &&& self.has_edge_idx(user_node as int, follow_node as int)
                    &&& e.from == user_node
                    &&& (e.slot as int) < self.edges_at(user_node as int).len()
                    &&& self.edges_at(user_node as int)[e.slot as int].0 == follow_node
                    &&& self.edges_at(user_node as int)[e.slot as int].1 == EdgeKind::Following
                },
                None => !self.has_edge_idx(user_node as int, follow_node as int),
            },
    {
        let list = &self.graph_edges[user_node];
        let m = list.len();
        let mut j: usize = 0;
        while j < m
            invariant
                j <= m,
                user_node < self.id_seq().len(),
                list == &self.graph_edges@[user_node as int],
                m == self.edges_at(user_node as int).len(),
                forall|j2: int|
                    0 <= j2 < j ==> !((#[trigger] self.edges_at(user_node as int)[j2]).0
                        == follow_node && self.edges_at(user_node as int)[j2].1
                        == EdgeKind::Following),
            decreases m - j,
        {
            let (target, kind) = list[j];
            if target == follow_node && kind == EdgeKind::Following {
                proof {
                    assert(self.edges_at(user_node as int)[j as int].0 == follow_node);
                }
                return Some(EdgeIndex { from: user_node, slot: j });
            }
            j += 1;
        }
        proof {
            if self.has_edge_idx(user_node as int, follow_node as int) {
                let j2 = choose|j2: int|
                    0 <= j2 < self.edges_at(user_node as int).len() && (
                    #[trigger] self.edges_at(user_node as int)[j2]).0 == follow_node
                        && self.edges_at(user_node as int)[j2].1 == EdgeKind::Following;
                assert(!(self.edges_at(user_node as int)[j2].0 == follow_node && self.edges_at(
                    user_node as int,
                )[j2].1 == EdgeKind::Following));
            }
        }
        None
    }

    /// Whether one node follows another.
    pub fn is_following_nodes(&self, user_node: usize, follow_node: usize) -> (b: bool)
        requires
            self.wf(),
            user_node < self.id_seq().len(),
            follow_node < self.id_seq().len(),
        ensures
            b == self.follows(
                self.id_seq()[user_node as int],
                self.id_seq()[follow_node as int],
            ),
    {
        let r = match self.get_following_edge_nodes(user_node, follow_node) {
            Some(_) => true,
            None => false,
        };
        proof {
            let u = self.id_seq()[user_node as int];
            let v = self.id_seq()[follow_node as int];
            if r {
                assert(self.edge_between(user_node as int, follow_node as int, u, v));
                assert(self.follows(u, v));
            } else {
                if self.follows(u, v) {
                    let (a, b) = choose|a: int, b: int| self.edge_between(a, b, u, v);
                    self.lemma_index_unique(a, user_node as int);
                    self.lemma_index_unique(b, follow_node as int);
                }
            }
        }
        r
    }

    /// Ensures a "following" edge from one node to another, recording
    /// the source identity's last-follow-update timestamp when the edge
    /// is new. Re-adding an existing edge is a no-op that returns the
    /// existing handle.
    pub fn add_follow_nodes(&mut self, user_node: usize, follow_node: usize, time: u64) -> (r:
        EdgeIndex)
        requires
            old(self).wf(),
            user_node < old(self).id_seq().len(),
            follow_node < old(self).id_seq().len(),
        ensures
            final(self).wf(),
            final(self).id_seq() == old(self).id_seq(),
            final(self).metadata_map() == old(self).metadata_map(),
            r.from == user_node,
            (r.slot as int) < final(self).edges_at(user_node as int).len(),
            final(self).edges_at(user_node as int)[r.slot as int].0 == follow_node,
            final(self).has_edge_idx(user_node as int, follow_node as int),
            old(self).has_edge_idx(user_node as int, follow_node as int) ==> *final(self) == *old(self),
            !old(self).has_edge_idx(user_node as int, follow_node as int) ==> final(self).last_update_map() == old(self).last_update_map().insert(
                old(self).id_seq()[user_node as int],
                time,
            ),
            forall|x: Identity, y: Identity|
                final(self).follows(x, y) <==> old(self).follows(x, y) || (x == old(self).id_seq()[user_node as int] && y == old(self).id_seq()[follow_node as int]),
    {
        match self.get_following_edge_nodes(user_node, follow_node) {
            Some(e) => {
                proof {
                    assert(self.edge_between(
                        user_node as int,
                        follow_node as int,
                        self.id_seq()[user_node as int],
                        self.id_seq()[follow_node as int],
                    ));
                }
                e
            },
            None => {
                let user_id = self.graph_nodes[user_node];
                self.added_out_edges.insert(user_id, time);
                let slot = self.graph_edges[user_node].len();
                self.graph_edges[user_node].push((follow_node, EdgeKind::Following));
                proof {
                    let pre = *old(self);
                    let post = *self;
                    let ua = user_node as int;
                    let fb = follow_node as int;
                    assert(post.edges_at(ua) == pre.edges_at(ua).push(
                        (follow_node, EdgeKind::Following),
                    ));
                    assert(forall|a: int|
                        0 <= a < post.id_seq().len() && a != ua ==> #[trigger] post.edges_at(a)
                            == pre.edges_at(a));
                    assert(post.wf()) by {
                        assert(forall|j: int|
                            0 <= j < pre.edges_at(ua).len() ==> #[trigger] post.edges_at(ua)[j]
                                == pre.edges_at(ua)[j]);
                        assert(post.edges_at(ua)[slot as int] == (
                            follow_node,
                            EdgeKind::Following,
                        ));
                        assert forall|j1: int, j2: int|
                            0 <= j1 < post.edges_at(ua).len() && 0 <= j2 < post.edges_at(
                                ua,
                            ).len() && j1 != j2 implies (#[trigger] post.edges_at(ua)[j1]).0 != (
                        #[trigger] post.edges_at(ua)[j2]).0 by {
                            if j1 < slot as int && j2 < slot as int {
                                assert(pre.edges_at(ua)[j1].0 != pre.edges_at(ua)[j2].0);
                            } else if j1 == slot as int {
                                if pre.edges_at(ua)[j2].0 == follow_node {
                                    assert(pre.has_edge_idx(ua, fb));
                                }
                            } else {
                                if pre.edges_at(ua)[j1].0 == follow_node {
                                    assert(pre.has_edge_idx(ua, fb));
                                }
                            }
                        }
                    }
                    assert(post.has_edge_idx(ua, fb)) by {
                        assert(post.edges_at(ua)[slot as int] == (
                            follow_node,
                            EdgeKind::Following,
                        ));
                    }
                    assert forall|x: Identity, y: Identity|
                        post.follows(x, y) <==> pre.follows(x, y) || (x == pre.id_seq()[ua] && y
                            == pre.id_seq()[fb]) by {
                        if post.follows(x, y) {
                            let (a, b) = choose|a: int, b: int| post.edge_between(a, b, x, y);
                            let j = choose|j: int|
                                0 <= j < post.edges_at(a).len() && (
                                #[trigger] post.edges_at(a)[j]).0 == b && post.edges_at(a)[j].1
                                    == EdgeKind::Following;
                            if a == ua && j == slot as int {
                                assert(b == fb);
                                assert(x == pre.id_seq()[ua] && y == pre.id_seq()[fb]);
                            } else {
                                assert(pre.edges_at(a)[j] == post.edges_at(a)[j]);
                                assert(pre.has_edge_idx(a, b));
                                assert(pre.edge_between(a, b, x, y));
                                assert(pre.follows(x, y));
                            }
                        }
                        if pre.follows(x, y) {
                            let (a, b) = choose|a: int, b: int| pre.edge_between(a, b, x, y);
                            let j = choose|j: int|
                                0 <= j < pre.edges_at(a).len() && (
                                #[trigger] pre.edges_at(a)[j]).0 == b && pre.edges_at(a)[j].1
                                    == EdgeKind::Following;
                            assert(post.edges_at(a)[j] == pre.edges_at(a)[j]);
                            assert(post.has_edge_idx(a, b));
                            assert(post.edge_between(a, b, x, y));
                            assert(post.follows(x, y));
                        }
                        if x == pre.id_seq()[ua] && y == pre.id_seq()[fb] {
                            assert(post.edge_between(ua, fb, x, y));
                            assert(post.follows(x, y));
                        }
                    }
                }
                EdgeIndex { from: user_node, slot }
            },
        }
    }

    /// Ensures both identities have nodes and a "following" edge from
    /// the first to the second, recording the follower's
    /// last-follow-update timestamp when the edge is new.
    pub fn add_follow(&mut self, user: Identity, follow: Identity, time: u64) -> (r: EdgeIndex)
        requires
            old(self).wf(),
        ensures
            final(self).wf(),
            old(self).id_seq().is_prefix_of(final(self).id_seq()),
            forall|x: Identity|
                final(self).has_user(x) <==> old(self).has_user(x) || x == user || x == follow,
            final(self).metadata_map() == old(self).metadata_map(),
            forall|x: Identity, y: Identity|
                final(self).follows(x, y) <==> old(self).follows(x, y) || (x == user && y
                    == follow),
            final(self).last_update_map() == old(self).last_update_map().insert(user, time),
    {
        let ghost pre = *old(self);
        let (user_node, _) = self.add_user(user);
        let ghost mid1 = *self;
        let (follow_node, _) = self.add_user(follow);
        let ghost mid2 = *self;
        proof {
            assert(self.id_seq()[user_node as int] == user);
            assert(forall|x: Identity, y: Identity|
                mid2.follows(x, y) == pre.follows(x, y));
            assert(pre.id_seq().is_prefix_of(mid2.id_seq()));
            if pre.follows(user, follow) {
                let (a, b) = choose|a: int, b: int| pre.edge_between(a, b, user, follow);
                assert(mid2.edge_between(a, b, user, follow));
                mid2.lemma_index_unique(a, user_node as int);
                mid2.lemma_index_unique(b, follow_node as int);
                assert(mid2.has_edge_idx(user_node as int, follow_node as int));
            }
            if mid2.has_edge_idx(user_node as int, follow_node as int) {
                assert(mid2.edge_between(user_node as int, follow_node as int, user, follow));
                assert(mid2.follows(user, follow));
            }
        }
        let r = self.add_follow_nodes(user_node, follow_node, time);
        let ghost mid3 = *self;
        // re-adding leaves the edge set alone, but still refreshes the
        // follower's last-follow-update timestamp
        self.added_out_edges.insert(user, time);
        proof {
            Self::lemma_same_graph_same_follows(mid3, *self);
            assert(forall|x: Identity|
                final(self).has_user(x) <==> (pre.has_user(x) || x == user || x == follow)) by {
                assert(forall|x: Identity|
                    mid2.has_user(x) <==> (pre.has_user(x) || x == user || x == follow));
            }
            assert(pre.id_seq().is_prefix_of(self.id_seq())) by {
                assert(self.id_seq() == mid3.id_seq());
            }
            assert(self.last_update_map() =~= pre.last_update_map().insert(user, time)) by {
                if mid3.last_update_map() == pre.last_update_map().insert(user, time) {
                    assert(pre.last_update_map().insert(user, time).insert(user, time)
                        =~= pre.last_update_map().insert(user, time));
                }
            }
            assert(self.wf());
        }
        r
    }

    /// The identity's last-follow-update timestamp, if one was ever
    /// recorded.
    pub fn does_user_follow(&self, user: &Identity) -> (r: Option<u64>)
        requires
            self.wf(),
        ensures
            match r {
                Some(t) => self.last_update_map().dom().contains(*user)
                    && self.last_update_map()[*user] == t,
                None => !self.last_update_map().dom().contains(*user),
            },
    {
        match self.added_out_edges.get(user) {
            Some(t) => Some(*t),
            None => None,
        }
    }

    /// Whether two identities follow each other. False when either is
    /// unknown.
    pub fn are_users_mutuals(&self, user: &Identity, other: &Identity) -> (b: bool)
        requires
            self.wf(),
        ensures
            b == self.mutual(*user, *other),
    {
        let node_user = match self.pubkey_to_node(user) {
            Some(n) => n,
            None => {
                proof {
                    if self.follows(*user, *other) {
                        let (a, b) = choose|a: int, b: int|
                            self.edge_between(a, b, *user, *other);
                        assert(self.has_user(*user)) by {
                            assert(self.id_seq()[a] == *user);
                        }
                    }
                }
                return false;
            },
        };
        let node_other = match self.pubkey_to_node(other) {
            Some(n) => n,
            None => {
                proof {
                    if self.follows(*other, *user) {
                        let (a, b) = choose|a: int, b: int|
                            self.edge_between(a, b, *other, *user);
                        assert(self.has_user(*other)) by {
                            assert(self.id_seq()[a] == *other);
                        }
                    }
                }
                return false;
            },
        };
        let b = self.is_following_nodes(node_user, node_other) && self.is_following_nodes(
            node_other,
            node_user,
        );
        b
    }

    /// Removes every outgoing "following" edge of the identity, adding
    /// a node for it first if it had none. Timestamps and profiles are
    /// untouched.
    pub fn remove_contact_list(&mut self, user: Identity)
        requires
            old(self).wf(),
        ensures
            final(self).wf(),
            old(self).id_seq().is_prefix_of(final(self).id_seq()),
            forall|x: Identity|
                final(self).has_user(x) <==> old(self).has_user(x) || x == user,
            forall|v: Identity| !final(self).follows(user, v),
            forall|x: Identity, y: Identity|
                x != user ==> final(self).follows(x, y) == old(self).follows(x, y),
            final(self).last_update_map() == old(self).last_update_map(),
            final(self).metadata_map() == old(self).metadata_map(),
    {
        let ghost pre = *old(self);
        let (node_user, added) = self.add_user(user);
        if added {
            proof {
                assert(pre.id_seq().is_prefix_of(self.id_seq())) by {
                    assert(pre.id_seq() =~= self.id_seq().subrange(0, pre.id_seq().len() as int));
                }
                assert forall|v: Identity| !self.follows(user, v) by {
                    if self.follows(user, v) {
                        let (a, b) = choose|a: int, b: int| self.edge_between(a, b, user, v);
                        self.lemma_index_unique(a, node_user as int);
                        assert(self.edges_at(a).len() == 0);
                        let j = choose|j: int|
                            0 <= j < self.edges_at(a).len() && (#[trigger] self.edges_at(a)[j]).0
                                == b && self.edges_at(a)[j].1 == EdgeKind::Following;
                    }
                }
                assert(pre.follows(user, user) == false) by {
                    if pre.follows(user, user) {
                        let (a, b) = choose|a: int, b: int|
                            pre.edge_between(a, b, user, user);
                        assert(pre.has_user(user)) by {
                            assert(pre.id_seq()[a] == user);
                        }
                    }
                }
                assert forall|x: Identity, y: Identity| x != user implies self.follows(x, y)
                    == pre.follows(x, y) by {
                }
            }
            return ;
        }
        self.graph_edges[node_user] = Vec::new();
        proof {
            let post = *self;
            let na = node_user as int;
            assert(post.id_seq() == pre.id_seq());
            assert(pre.id_seq().is_prefix_of(post.id_seq())) by {
                assert(pre.id_seq() =~= post.id_seq().subrange(0, pre.id_seq().len() as int));
            }
            assert(post.edges_at(na) =~= Seq::<(usize, EdgeKind)>::empty());
            assert(forall|a: int|
                0 <= a < post.id_seq().len() && a != na ==> #[trigger] post.edges_at(a)
                    == pre.edges_at(a));
            assert(post.wf());
            assert forall|v: Identity| !post.follows(user, v) by {
                if post.follows(user, v) {
                    let (a, b) = choose|a: int, b: int| post.edge_between(a, b, user, v);
                    post.lemma_index_unique(a, na);
                    let j = choose|j: int|
                        0 <= j < post.edges_at(a).len() && (#[trigger] post.edges_at(a)[j]).0 == b
                            && post.edges_at(a)[j].1 == EdgeKind::Following;
                }
            }
            assert forall|x: Identity, y: Identity| x != user implies post.follows(x, y)
                == pre.follows(x, y) by {
                if post.follows(x, y) {
                    let (a, b) = choose|a: int, b: int| post.edge_between(a, b, x, y);
                    assert(a != na) by {
                        if a == na {
                            let j = choose|j: int|
                                0 <= j < post.edges_at(a).len() && (
                                #[trigger] post.edges_at(a)[j]).0 == b && post.edges_at(a)[j].1
                                    == EdgeKind::Following;
                        }
                    }
                    assert(pre.edge_between(a, b, x, y));
                    assert(pre.follows(x, y));
                }
                if pre.follows(x, y) {
                    let (a, b) = choose|a: int, b: int| pre.edge_between(a, b, x, y);
                    assert(a != na) by {
                        if a == na {
                            assert(pre.id_seq()[a] == x);
                            assert(pre.id_seq()[na] == user);
                        }
                    }
                    assert(post.edge_between(a, b, x, y));
                    assert(post.follows(x, y));
                }
            }
        }
    }

    /// Replaces the identity's contact list: afterwards it follows
    /// exactly the given contacts, no edge from any earlier list
    /// remains, and its last-follow-update timestamp is the given one.
    pub fn update_contact_list(&mut self, user: Identity, contacts: &Vec<Identity>, time: u64)
        requires
            old(self).wf(),
        ensures
            final(self).wf(),
            old(self).id_seq().is_prefix_of(final(self).id_seq()),
            forall|x: Identity|
                final(self).has_user(x) <==> old(self).has_user(x) || x == user
                    || contacts@.contains(x),
            forall|v: Identity| final(self).follows(user, v) <==> contacts@.contains(v),
            forall|x: Identity, y: Identity|
                x != user ==> final(self).follows(x, y) == old(self).follows(x, y),
            final(self).last_update_map() == old(self).last_update_map().insert(user, time),
            final(self).metadata_map() == old(self).metadata_map(),
    {
        let ghost pre = *old(self);
        self.remove_contact_list(user);
        let ghost mid = *self;
        let n = contacts.len();
        let mut i: usize = 0;
        while i < n
            invariant
                i <= n,
                n == contacts@.len(),
                self.wf(),
                mid.wf(),
                mid.id_seq().is_prefix_of(self.id_seq()),
                forall|x: Identity| #[trigger]
                    self.has_user(x) <==> mid.has_user(x) || x == user || contacts@.subrange(
                        0,
                        i as int,
                    ).contains(x),
                forall|v: Identity| #[trigger]
                    self.follows(user, v) <==> contacts@.subrange(0, i as int).contains(v),
                forall|x: Identity, y: Identity|
                    x != user ==> self.follows(x, y) == mid.follows(x, y),
                self.last_update_map() == mid.last_update_map() || self.last_update_map()
                    == mid.last_update_map().insert(user, time),
                self.metadata_map() == mid.metadata_map(),
                forall|v: Identity| !mid.follows(user, v),
                mid.has_user(user),
            decreases n - i,
        {
            let ghost step_pre = *self;
            let c = contacts[i];
            self.add_follow(user, c, time);
            proof {
                assert(contacts@.subrange(0, i + 1) =~= contacts@.subrange(0, i as int).push(c));
                assert forall|v: Identity|
                    contacts@.subrange(0, i + 1).contains(v) == (contacts@.subrange(
                        0,
                        i as int,
                    ).contains(v) || v == c) by {
                    let s_new = contacts@.subrange(0, i + 1);
                    let s_old = contacts@.subrange(0, i as int);
                    if s_new.contains(v) {
                        let j = choose|j: int| 0 <= j < s_new.len() && s_new[j] == v;
                        if j < i {
                            assert(s_old[j] == v);
                        } else {
                            assert(v == c);
                        }
                    }
                    if s_old.contains(v) {
                        let j = choose|j: int| 0 <= j < s_old.len() && s_old[j] == v;
                        assert(s_new[j] == v);
                    }
                    if v == c {
                        assert(s_new[i as int] == v);
                    }
                }
                assert(mid.id_seq().is_prefix_of(self.id_seq())) by {
                    assert(mid.id_seq() =~= step_pre.id_seq().subrange(
                        0,
                        mid.id_seq().len() as int,
                    ));
                    assert(step_pre.id_seq() =~= self.id_seq().subrange(
                        0,
                        step_pre.id_seq().len() as int,
                    ));
                    assert(mid.id_seq() =~= self.id_seq().subrange(0, mid.id_seq().len() as int));
                }
                assert(self.last_update_map() == mid.last_update_map() || self.last_update_map()
                    == mid.last_update_map().insert(user, time)) by {
                    assert(self.last_update_map() == step_pre.last_update_map().insert(
                        user,
                        time,
                    ));
                    if step_pre.last_update_map() == mid.last_update_map().insert(user, time) {
                        assert(mid.last_update_map().insert(user, time).insert(user, time)
                            =~= mid.last_update_map().insert(user, time));
                    }
                }
                assert forall|v: Identity|
                    self.follows(user, v) == contacts@.subrange(0, i + 1).contains(v) by {
                    assert(self.follows(user, v) == (step_pre.follows(user, v) || v == c));
                    assert(step_pre.follows(user, v) == contacts@.subrange(0, i as int).contains(
                        v,
                    ));
                }
                assert forall|x: Identity|
                    self.has_user(x) == (mid.has_user(x) || x == user || contacts@.subrange(
                        0,
                        i + 1,
                    ).contains(x)) by {
                    assert(self.has_user(x) == (step_pre.has_user(x) || x == user || x == c));
                    if step_pre.has_user(x) {
                        assert(mid.has_user(x) || x == user || contacts@.subrange(
                            0,
                            i as int,
                        ).contains(x));
                    }
                    if mid.has_user(x) || x == user || contacts@.subrange(0, i as int).contains(
                        x,
                    ) {
                        assert(step_pre.has_user(x));
                    }
                    if x == c {
                        assert(contacts@.subrange(0, i + 1)[i as int] == c);
                        assert(contacts@.subrange(0, i + 1).contains(x));
                    }
                }
            }
            i += 1;
            proof {
                assert(contacts@.subrange(0, i as int) == contacts@.subrange(0, (i - 1) + 1));
                assert forall|x: Identity|
                    self.has_user(x) <==> mid.has_user(x) || x == user || contacts@.subrange(
                        0,
                        i as int,
                    ).contains(x) by {
                    assert(self.has_user(x) == (mid.has_user(x) || x == user
                        || contacts@.subrange(0, (i - 1) + 1).contains(x)));
                }
            }
        }
        let ghost loop_end = *self;
        self.added_out_edges.insert(user, time);
        proof {
            assert(contacts@.subrange(0, n as int) =~= contacts@);
            let post = *self;
            Self::lemma_same_graph_same_follows(loop_end, post);
            assert(post.id_seq() == loop_end.id_seq());
            assert forall|x: Identity|
                post.has_user(x) <==> (pre.has_user(x) || x == user || contacts@.contains(
                    x,
                )) by {
                assert(loop_end.has_user(x) == (mid.has_user(x) || x == user
                    || contacts@.subrange(0, n as int).contains(x)));
                assert(mid.has_user(x) == (pre.has_user(x) || x == user));
            }
            assert(pre.id_seq().is_prefix_of(post.id_seq())) by {
                assert(forall|idx: int|
                    0 <= idx < pre.id_seq().len() ==> pre.id_seq()[idx] == #[trigger] mid.id_seq()[
                    idx]);
                assert(forall|idx: int|
                    0 <= idx < mid.id_seq().len() ==> mid.id_seq()[idx]
                        == #[trigger] post.id_seq()[idx]);
                assert(pre.id_seq() =~= post.id_seq().subrange(0, pre.id_seq().len() as int));
            }
            assert(post.last_update_map() =~= pre.last_update_map().insert(user, time)) by {
                assert(post.last_update_map() == loop_end.last_update_map().insert(user, time));
                assert(mid.last_update_map() == pre.last_update_map());
                if loop_end.last_update_map() == mid.last_update_map().insert(user, time) {
                    assert(mid.last_update_map().insert(user, time).insert(user, time)
                        =~= mid.last_update_map().insert(user, time));
                }
            }
        }
    }

    /// The identities the given identity currently follows, each once.
    /// Empty when the identity is unknown.
    pub fn get_user_contacts(&self, user: &Identity) -> (r: Vec<Identity>)
        requires
            self.wf(),
        ensures
            r@.no_duplicates(),
            forall|x: Identity| r@.contains(x) <==> self.follows(*user, x),
    {
        let node = match self.pubkey_to_node(user) {
            Some(n) => n,
            None => {
                proof {
                    assert forall|x: Identity| !self.follows(*user, x) by {
                        if self.follows(*user, x) {
                            let (a, b) = choose|a: int, b: int|
                                self.edge_between(a, b, *user, x);
                            assert(self.has_user(*user)) by {
                                assert(self.id_seq()[a] == *user);
                            }
                        }
                    }
                }
                return Vec::new();
            },
        };
        let list = &self.graph_edges[node];
        let m = list.len();
        let mut r: Vec<Identity> = Vec::new();
        let mut j: usize = 0;
        while j < m
            invariant
                j <= m,
                self.wf(),
                node < self.id_seq().len(),
                self.id_seq()[node as int] == *user,
                list == &self.graph_edges@[node as int],
                m == self.edges_at(node as int).len(),
                r@.len() == j,
                forall|j2: int|
                    0 <= j2 < j ==> r@[j2] == self.id_seq()[(#[trigger] self.edges_at(
                        node as int,
                    )[j2]).0 as int],
            decreases m - j,
        {
            let (target, _kind) = list[j];
            proof {
                assert(self.edges_at(node as int)[j as int].0 == target);
            }
            r.push(self.graph_nodes[target]);
            j += 1;
        }
        proof {
            let na = node as int;
            assert forall|j1: int, j2: int|
                0 <= j1 < r@.len() && 0 <= j2 < r@.len() && j1 != j2 implies r@[j1] != r@[j2] by {
                let t1 = self.edges_at(na)[j1].0;
                let t2 = self.edges_at(na)[j2].0;
                assert(t1 != t2);
                assert(r@[j1] == self.id_seq()[t1 as int]);
                assert(r@[j2] == self.id_seq()[t2 as int]);
                if self.id_seq()[t1 as int] == self.id_seq()[t2 as int] {
                    self.lemma_index_unique(t1 as int, t2 as int);
                }
            }
            assert forall|x: Identity| r@.contains(x) implies self.follows(*user, x) by {
                let j2 = choose|j2: int| 0 <= j2 < r@.len() && r@[j2] == x;
                let t = self.edges_at(na)[j2].0;
                assert(self.edges_at(na)[j2].1 is Following);
                assert(self.has_edge_idx(na, t as int)) by {
                    assert(self.edges_at(na)[j2].0 == t);
                }
                assert(self.edge_between(na, t as int, *user, x));
            }
            assert forall|x: Identity| self.follows(*user, x) implies r@.contains(x) by {
                let (a, b) = choose|a: int, b: int| self.edge_between(a, b, *user, x);
                self.lemma_index_unique(a, na);
                let j2 = choose|j2: int|
                    0 <= j2 < self.edges_at(na).len() && (#[trigger] self.edges_at(na)[j2]).0 == b
                        && self.edges_at(na)[j2].1 == EdgeKind::Following;
                assert(r@[j2] == self.id_seq()[b]);
                assert(r@.contains(x)) by {
                    assert(r@[j2] == x);
                }
            }
        }
        r
    }

    /// The nodes of the identities that the given identity is mutual
    /// with: intersection of its outgoing and incoming "following"
    /// edges. Empty when the identity is unknown.
    pub fn get_user_mutuals(&self, user: &Identity) -> (r: Vec<usize>)
        requires
            self.wf(),
        ensures
            r@.no_duplicates(),
            forall|x: usize|
                r@.contains(x) <==> (x < self.id_seq().len() && self.mutual(
                    *user,
                    self.id_seq()[x as int],
                )),
    {
        let node = match self.pubkey_to_node(user) {
            Some(n) => n,
            None => {
                proof {
                    assert forall|x: usize|
                        !(x < self.id_seq().len() && self.mutual(
                            *user,
                            self.id_seq()[x as int],
                        )) by {
                        if x < self.id_seq().len() && self.follows(
                            *user,
                            self.id_seq()[x as int],
                        ) {
                            let (a, b) = choose|a: int, b: int|
                                self.edge_between(a, b, *user, self.id_seq()[x as int]);
                            assert(self.has_user(*user)) by {
                                assert(self.id_seq()[a] == *user);
                            }
                        }
                    }
                }
                return Vec::new();
            },
        };
        let m = self.graph_edges[node].len();
        let mut r: Vec<usize> = Vec::new();
        let mut j: usize = 0;
        while j < m
            invariant
                j <= m,
                self.wf(),
                node < self.id_seq().len(),
                self.id_seq()[node as int] == *user,
                m == self.edges_at(node as int).len(),
                r@.no_duplicates(),
                forall|x: usize|
                    r@.contains(x) <==> exists|j2: int|
                        0 <= j2 < j && (#[trigger] self.edges_at(node as int)[j2]).0 == x
                            && self.has_edge_idx(x as int, node as int),
            decreases m - j,
        {
            let target = self.graph_edges[node][j].0;
            proof {
                assert(self.edges_at(node as int)[j as int].0 == target);
            }
            let back = self.is_following_nodes(target, node);
            let ghost r_pre = r@;
            if back {
                proof {
                    assert(self.has_edge_idx(target as int, node as int)) by {
                        let (a, b) = choose|a: int, b: int|
                            self.edge_between(
                                a,
                                b,
                                self.id_seq()[target as int],
                                self.id_seq()[node as int],
                            );
                        self.lemma_index_unique(a, target as int);
                        self.lemma_index_unique(b, node as int);
                    }
                    if r@.contains(target) {
                        let j2 = choose|j2: int|
                            0 <= j2 < j && (#[trigger] self.edges_at(node as int)[j2]).0 == target
                                && self.has_edge_idx(target as int, node as int);
                        assert(self.edges_at(node as int)[j2].0 == self.edges_at(
                            node as int,
                        )[j as int].0);
                        assert(false);
                    }
                }
                r.push(target);
            }
            proof {
                assert forall|x: usize| r@.contains(x) implies exists|j2: int|
                    0 <= j2 < j + 1 && (#[trigger] self.edges_at(node as int)[j2]).0 == x
                        && self.has_edge_idx(x as int, node as int) by {
                    if r_pre.contains(x) {
                        let j2 = choose|j2: int|
                            0 <= j2 < j && (#[trigger] self.edges_at(node as int)[j2]).0 == x
                                && self.has_edge_idx(x as int, node as int);
                        assert(0 <= j2 < j + 1 && self.edges_at(node as int)[j2].0 == x
                            && self.has_edge_idx(x as int, node as int));
                    } else {
                        assert(back && x == target);
                        assert(0 <= (j as int) < j + 1 && self.edges_at(node as int)[j as int].0
                            == x && self.has_edge_idx(x as int, node as int));
                    }
                }
                assert forall|x: usize|
                    (exists|j2: int|
                        0 <= j2 < j + 1 && (#[trigger] self.edges_at(node as int)[j2]).0 == x
                            && self.has_edge_idx(x as int, node as int)) implies r@.contains(
                    x) by {
                    let j2 = choose|j2: int|
                        0 <= j2 < j + 1 && (#[trigger] self.edges_at(node as int)[j2]).0 == x
                            && self.has_edge_idx(x as int, node as int);
                    if j2 < j {
                        assert(r_pre.contains(x));
                        if back {
                            assert(r@ == r_pre.push(target));
                            let j3 = choose|j3: int| 0 <= j3 < r_pre.len() && r_pre[j3] == x;
                            assert(r@[j3] == x);
                        }
                    } else {
                        assert(self.edges_at(node as int)[j as int].0 == x);
                        assert(x == target);
                        assert(self.follows(self.id_seq()[target as int], *user)) by {
                            assert(self.edge_between(
                                target as int,
                                node as int,
                                self.id_seq()[target as int],
                                self.id_seq()[node as int],
                            ));
                        }
                        assert(back);
                        assert(r@ == r_pre.push(target));
                        assert(r@[r@.len() - 1] == x);
                    }
                }
            }
            j += 1;
        }
        proof {
            let na = node as int;
            assert forall|x: usize|
                r@.contains(x) == (x < self.id_seq().len() && self.mutual(
                    *user,
                    self.id_seq()[x as int],
                )) by {
                if r@.contains(x) {
                    let j2 = choose|j2: int|
                        0 <= j2 < m && (#[trigger] self.edges_at(na)[j2]).0 == x
                            && self.has_edge_idx(x as int, na);
                    assert(x < self.id_seq().len());
                    assert(self.edges_at(na)[j2].1 is Following);
                    assert(self.follows(*user, self.id_seq()[x as int])) by {
                        assert(self.has_edge_idx(na, x as int)) by {
                            assert(self.edges_at(na)[j2].0 == x);
                        }
                        assert(self.edge_between(na, x as int, *user, self.id_seq()[x as int]));
                    }
                    assert(self.follows(self.id_seq()[x as int], *user)) by {
                        assert(self.edge_between(
                            x as int,
                            na,
                            self.id_seq()[x as int],
                            *user,
                        ));
                    }
                } else {
                    if x < self.id_seq().len() && self.mutual(*user, self.id_seq()[x as int]) {
                        let (a, b) = choose|a: int, b: int|
                            self.edge_between(a, b, *user, self.id_seq()[x as int]);
                        self.lemma_index_unique(a, na);
                        self.lemma_index_unique(b, x as int);
                        let j2 = choose|j2: int|
                            0 <= j2 < self.edges_at(na).len() && (
                            #[trigger] self.edges_at(na)[j2]).0 == x && self.edges_at(na)[j2].1
                                == EdgeKind::Following;
                        let (a2, b2) = choose|a2: int, b2: int|
                            self.edge_between(a2, b2, self.id_seq()[x as int], *user);
                        self.lemma_index_unique(a2, x as int);
                        self.lemma_index_unique(b2, na);
                        assert(self.has_edge_idx(x as int, na));
                        assert(false);
                    }
                }
            }
        }
        r
    }

    /// Records a found profile for an identity, handing back the
    /// previously recorded profile if one was there. The graph itself
    /// is untouched.
    pub fn add_user_metadata(&mut self, user: Identity, metadata: Profile, timestamp: u64) -> (r:
        Option<(Profile, u64)>)
        requires
            old(self).wf(),
        ensures
            final(self).wf(),
            final(self).id_seq() == old(self).id_seq(),
            forall|x: Identity, y: Identity|
                final(self).follows(x, y) == old(self).follows(x, y),
            final(self).last_update_map() == old(self).last_update_map(),
            final(self).metadata_map() == old(self).metadata_map().insert(
                user,
                Some((metadata, timestamp)),
            ),
            match r {
                Some(p) => old(self).metadata_map().dom().contains(user) && old(
                    self,
                ).metadata_map()[user] == Some(p),
                None => !old(self).metadata_map().dom().contains(user) || old(
                    self,
                ).metadata_map()[user] is None,
            },
    {
        let prev = self.users_metadata.remove(&user);
        self.users_metadata.insert(user, Some((metadata, timestamp)));
        proof {
            Self::lemma_same_graph_same_follows(*old(self), *self);
            assert(self.metadata_map() =~= old(self).metadata_map().insert(
                user,
                Some((metadata, timestamp)),
            ));
        }
        match prev {
            Some(Some(p)) => Some(p),
            _ => None,
        }
    }

    /// Marks an identity as explicitly having no profile record,
    /// handing back the previously recorded profile if one was there.
    pub fn add_user_no_metadata(&mut self, user: Identity) -> (r: Option<(Profile, u64)>)
        requires
            old(self).wf(),
        ensures
            final(self).wf(),
            final(self).id_seq() == old(self).id_seq(),
            forall|x: Identity, y: Identity|
                final(self).follows(x, y) == old(self).follows(x, y),
            final(self).last_update_map() == old(self).last_update_map(),
            final(self).metadata_map() == old(self).metadata_map().insert(user, None),
            match r {
                Some(p) => old(self).metadata_map().dom().contains(user) && old(
                    self,
                ).metadata_map()[user] == Some(p),
                None => !old(self).metadata_map().dom().contains(user) || old(
                    self,
                ).metadata_map()[user] is None,
            },
    {
        let prev = self.users_metadata.remove(&user);
        self.users_metadata.insert(user, None);
        proof {
            Self::lemma_same_graph_same_follows(*old(self), *self);
            assert(self.metadata_map() =~= old(self).metadata_map().insert(user, None));
        }
        match prev {
            Some(Some(p)) => Some(p),
            _ => None,
        }
    }

    /// Merges a batch of profile lookup results into the cache; for an
    /// identity that occurs more than once the later entry wins.
    pub fn extend_users_metadata(&mut self, metadata_iter: Vec<(Identity, Option<(Profile, u64)>)>)
        requires
            old(self).wf(),
        ensures
            final(self).wf(),
            final(self).id_seq() == old(self).id_seq(),
            forall|x: Identity, y: Identity|
                final(self).follows(x, y) == old(self).follows(x, y),
            final(self).last_update_map() == old(self).last_update_map(),
            final(self).metadata_map() == old(self).metadata_map().union_prefer_right(
                crate::map_intersect::map_of(metadata_iter@),
            ),
    {
        let ghost orig = metadata_iter@;
        let ghost pre = *old(self);
        let mut rest = metadata_iter;
        let ghost mut i: int = 0;
        let ghost n = orig.len();
        while rest.len() > 0
            invariant
                0 <= i <= n,
                n == orig.len(),
                rest@ =~= orig.subrange(i as int, n as int),
                self.wf(),
                self.graph_nodes == pre.graph_nodes,
                self.graph_edges == pre.graph_edges,
                self.added_out_edges == pre.added_out_edges,
                self.metadata_map() == pre.metadata_map().union_prefer_right(
                    crate::map_intersect::map_of(orig.subrange(0, i as int)),
                ),
                pre.wf(),
            decreases rest@.len(),
        {
            let ghost map_pre = self.metadata_map();
            proof {
                assert(rest@.len() == n - i);
                assert(i < n);
            }
            let (k, v) = rest.remove(0);
            self.users_metadata.insert(k, v);
            proof {
                assert(orig.subrange(i as int, n as int)[0] == (k, v));
                assert(orig[i as int] == (k, v));
                assert(rest@ =~= orig.subrange(i + 1, n as int)) by {
                    assert(forall|j: int|
                        0 <= j < rest@.len() ==> rest@[j] == #[trigger] orig.subrange(
                            i as int,
                            n as int,
                        )[j + 1]);
                }
                assert(orig.subrange(0, i + 1).drop_last() =~= orig.subrange(0, i as int));
                assert(orig.subrange(0, i + 1).last() == (k, v));
                assert(crate::map_intersect::map_of(orig.subrange(0, i + 1))
                    == crate::map_intersect::map_of(orig.subrange(0, i as int)).insert(k, v));
                assert(self.metadata_map() =~= pre.metadata_map().union_prefer_right(
                    crate::map_intersect::map_of(orig.subrange(0, i + 1)),
                )) by {
                    assert(self.metadata_map() == map_pre.insert(k, v));
                }
                Self::lemma_same_graph_same_follows(pre, *self);
                assert(self.added_out_edges.wf());
                assert(self.wf());
                i = i + 1;
            }
        }
        proof {
            assert(orig.subrange(0, n as int) =~= orig);
            Self::lemma_same_graph_same_follows(pre, *self);
        }
    }

    /// The cached profile record of an identity: `Some` only when a
    /// record was found for it; "queried, none found" and "never
    /// queried" both answer `None`.
    pub fn get_pubkey_metadata(&self, pubkey: &Identity) -> (r: Option<&(Profile, u64)>)
        requires
            self.wf(),
        ensures
            match r {
                Some(p) => self.metadata_map().dom().contains(*pubkey)
                    && self.metadata_map()[*pubkey] == Some(*p),
                None => !self.metadata_map().dom().contains(*pubkey)
                    || self.metadata_map()[*pubkey] is None,
            },
    {
        match self.users_metadata.get(pubkey) {
            Some(opt) => match opt {
                Some(p) => Some(p),
                None => None,
            },
            None => None,
        }
    }
}

} // verus!
