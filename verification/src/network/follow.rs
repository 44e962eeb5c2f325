//! The ego-centric neighborhood: levels of follows around a root
//! identity, and the mutual-connection ranking over them.
//!
//! Levels are one-directional (not mutuality-gated): level 0 is the
//! root, and each new level holds the followees of the previous one
//! that no earlier level placed — an identity belongs to at most one
//! level, first discovery wins. The builder never fetches: the caller
//! merges contact lists and profiles into the [`Network`] between
//! calls.

use vstd::prelude::*;

use crate::identity::contains_id;
use crate::identity::Identity;
use crate::map_intersect::IdMap;
use crate::network::base::Network;
use crate::user::Profile;

verus! {

/// Why profile records could not be attached to a level.
#[derive(Debug, Clone, PartialEq, Eq)]
pub enum GetMetadataError {
    /// The level index exceeds the levels built so far.
    LevelNotPresent,
    /// The transport failed; holds its message.
    NostrEventError(String),
}

/// Why a recommendation ranking could not be produced.
#[derive(Debug, Clone, PartialEq, Eq)]
pub enum RecommendationError {
    /// Fewer than three levels are built.
    NotEnoughLevels,
    /// The graph and the levels disagree; holds a diagnostic code.
    InternalGraphError(i32),
}

/// Why a ranked identity got its rank.
#[derive(Debug, Clone, PartialEq, Eq)]
pub enum RankReasons {
    /// The level-1 identities it is mutual with.
    MutualConnections(Vec<Identity>),
}

/// A neighborhood of follows centered on one root identity: a growing
/// sequence of levels, and each placed identity's level index.
pub struct FollowNetwork {
    users_distances: IdMap<usize>,
    levels: Vec<Vec<Identity>>,
}

/// Whether some level holds the identity.
pub open spec fn some_level_contains(levels: Seq<Vec<Identity>>, x: Identity) -> bool {
    exists|k: int| 0 <= k < levels.len() && (#[trigger] levels[k])@.contains(x)
}

/// What a whole ranking must say, row by row: one row per level-2
/// identity, no identity twice, ranks ascending, and every row as
/// [`rank_entry_ok`] demands.
pub open spec fn ranking_ok(
    g: Network,
    level1: Seq<Identity>,
    level2: Seq<Identity>,
    v: Seq<(Identity, i32, Vec<RankReasons>)>,
) -> bool {
    &&& forall|x: Identity|
        (exists|q: int| 0 <= q < v.len() && (#[trigger] v[q]).0 == x) <==> level2.contains(x)
    &&& forall|q1: int, q2: int|
        0 <= q1 < q2 < v.len() ==> (#[trigger] v[q1]).0 != (#[trigger] v[q2]).0
    &&& forall|q1: int, q2: int|
        0 <= q1 < q2 < v.len() ==> (#[trigger] v[q1]).1 <= (#[trigger] v[q2]).1
    &&& forall|q: int| 0 <= q < v.len() ==> rank_entry_ok(g, level1, #[trigger] v[q])
}

/// What one row of a ranking must say: a single reason listing, without
/// repetition, exactly the level-1 identities the ranked identity is
/// mutual with, and a rank of ten points per listed identity.
pub open spec fn rank_entry_ok(
    g: Network,
    level1: Seq<Identity>,
    e: (Identity, i32, Vec<RankReasons>),
) -> bool {
    &&& e.2@.len() == 1
    &&& (e.2@[0] matches RankReasons::MutualConnections(l) && l@.no_duplicates() && (forall|
        m: Identity,
    |
        #[trigger] l@.contains(m) <==> (g.mutual(e.0, m) && level1.contains(m))) && e.1 == 10
        * l@.len())
}

impl FollowNetwork {
    /// How many levels are built.
    pub closed spec fn num_levels(self) -> int {
        self.levels@.len() as int
    }

    /// The identities at a level, in discovery order.
    pub closed spec fn level_at(self, k: int) -> Seq<Identity> {
        self.levels@[k]@
    }

    /// Whether some level holds the identity.
    pub closed spec fn placed(self, x: Identity) -> bool {
        some_level_contains(self.levels@, x)
    }

    /// Each placed identity's level index.
    pub closed spec fn distances(self) -> Map<Identity, usize> {
        self.users_distances@
    }

    /// Well-formed: at least one level, no identity twice within a
    /// level, and no identity in two different levels — first discovery
    /// wins.
    pub closed spec fn wf(self) -> bool {
        &&& self.levels@.len() >= 1
        &&& forall|k: int| 0 <= k < self.levels@.len() ==> (#[trigger] self.levels@[k])@.no_duplicates()
        &&& forall|k1: int, k2: int, x: Identity|
            #![trigger self.levels@[k1]@.contains(x), self.levels@[k2]@.contains(x)]
            0 <= k1 < k2 < self.levels@.len() && self.levels@[k1]@.contains(x)
                ==> !self.levels@[k2]@.contains(x)
        &&& self.users_distances.wf()
    }

    /// Starts a neighborhood around a root: the root becomes the sole
    /// member of level 0 and is recorded at distance 0. A root the
    /// graph does not know yet is registered together with its profile
    /// record, when one is given; data of an already-registered root is
    /// left untouched.
    pub fn new(
        user: Identity,
        metadata: Option<(Profile, u64)>,
        network: &mut Network,
    ) -> (r: FollowNetwork)
        requires
            old(network).wf(),
        ensures
            final(network).wf(),
            old(network).id_seq().is_prefix_of(final(network).id_seq()),
            forall|x: Identity, y: Identity|
                final(network).follows(x, y) == old(network).follows(x, y),
            final(network).last_update_map() == old(network).last_update_map(),
            old(network).has_user(user) || (metadata is None) ==> final(network).metadata_map()
                == old(network).metadata_map(),
            !old(network).has_user(user) ==> (match metadata {
                Some((m, t)) => final(network).metadata_map() == old(
                    network,
                ).metadata_map().insert(user, Some((m, t))),
                None => final(network).metadata_map() == old(network).metadata_map(),
            }),
            forall|x: Identity| final(network).has_user(x) <==> old(network).has_user(x) || x == user,
            r.wf(),
            r.num_levels() == 1,
            r.level_at(0) == seq![user],
            r.distances() == Map::<Identity, usize>::empty().insert(user, 0usize),
    {
        let known = network.contains_user(&user);
        network.add_user(user);
        if !known {
            match metadata {
                Some((m, t)) => {
                    network.add_user_metadata(user, m, t);
                },
                None => {},
            }
        }
        proof {
            assert(old(network).id_seq().is_prefix_of(network.id_seq())) by {
                assert(old(network).id_seq() =~= network.id_seq().subrange(
                    0,
                    old(network).id_seq().len() as int,
                ));
            }
        }
        let mut level_zero: Vec<Identity> = Vec::new();
        level_zero.push(user);
        let mut levels: Vec<Vec<Identity>> = Vec::new();
        levels.push(level_zero);
        let mut users_distances: IdMap<usize> = IdMap::new();
        users_distances.insert(user, 0);
        let r = FollowNetwork { users_distances, levels };
        proof {
            assert(r.level_at(0) =~= seq![user]);
            assert(r.levels@[0]@.no_duplicates());
        }
        r
    }

    /// The identities whose contact lists the next [`Self::add_level`]
    /// will read: the entire current top level.
    pub fn top_level(&self) -> (r: Vec<Identity>)
        requires
            self.wf(),
        ensures
            r@ == self.level_at(self.num_levels() - 1),
    {
        let top = &self.levels[self.levels.len() - 1];
        let n = top.len();
        let mut r: Vec<Identity> = Vec::new();
        let mut i: usize = 0;
        while i < n
            invariant
                i <= n,
                top@ == self.levels@[self.levels@.len() - 1]@,
                n == top@.len(),
                r@ =~= top@.subrange(0, i as int),
            decreases n - i,
        {
            r.push(top[i]);
            proof {
                assert(r@ =~= top@.subrange(0, i + 1));
            }
            i += 1;
        }
        proof {
            assert(top@.subrange(0, n as int) =~= top@);
        }
        r
    }

    /// Builds the next level: the set of followees of the entire
    /// current top level that no existing level has placed, each
    /// recorded at the new level's index. The caller has fetched and
    /// merged the top level's contact lists into the graph beforehand.
    pub fn add_level(&mut self, network: &Network)
        requires
            old(self).wf(),
            network.wf(),
        ensures
            final(self).wf(),
            final(self).num_levels() == old(self).num_levels() + 1,
            forall|k: int|
                0 <= k < old(self).num_levels() ==> final(self).level_at(k) == old(self).level_at(
                    k,
                ),
            forall|y: Identity|
                final(self).level_at(final(self).num_levels() - 1).contains(y) <==> {
                    &&& exists|u: Identity| #[trigger]
                        old(self).level_at(old(self).num_levels() - 1).contains(u)
                            && network.follows(u, y)
                    &&& !old(self).placed(y)
                },
            forall|x: Identity|
                final(self).distances().dom().contains(x) <==> old(self).distances().dom().contains(x) || final(self).level_at(
                    final(self).num_levels() - 1,
                ).contains(x),
            forall|x: Identity|
                final(self).level_at(final(self).num_levels() - 1).contains(x) ==> final(self).distances()[x] == old(self).num_levels(),
            forall|x: Identity|
                old(self).distances().dom().contains(x) && !final(self).level_at(
                    final(self).num_levels() - 1,
                ).contains(x) ==> final(self).distances()[x] == old(self).distances()[x],
    {
        let ghost old_levels = self.levels@;
        let current_level = self.levels.len();
        let top = self.top_level();
        let n = top.len();
        let mut next_level: Vec<Identity> = Vec::new();
        let mut i: usize = 0;
        while i < n
            invariant
                i <= n,
                n == top@.len(),
                self == old(self),
                self.wf(),
                network.wf(),
                top@ == self.level_at(self.num_levels() - 1),
                next_level@.no_duplicates(),
                forall|y: Identity| #[trigger]
                    next_level@.contains(y) <==> {
                        &&& exists|ii: int| 0 <= ii < i && network.follows(#[trigger] top@[ii], y)
                        &&& !self.placed(y)
                    },
            decreases n - i,
        {
            let u = top[i];
            let contacts = network.get_user_contacts(&u);
            let m = contacts.len();
            let mut j: usize = 0;
            while j < m
                invariant
                    j <= m,
                    m == contacts@.len(),
                    i < n,
                    n == top@.len(),
                    u == top@[i as int],
                    self == old(self),
                    self.wf(),
                    network.wf(),
                    top@ == self.level_at(self.num_levels() - 1),
                    forall|x: Identity| contacts@.contains(x) <==> network.follows(u, x),
                    next_level@.no_duplicates(),
                    forall|y: Identity| #[trigger]
                        next_level@.contains(y) <==> {
                            &&& (exists|ii: int|
                                0 <= ii < i && network.follows(#[trigger] top@[ii], y)) || (
                            exists|jj: int| 0 <= jj < j && contacts@[jj] == y)
                            &&& !self.placed(y)
                        },
                decreases m - j,
            {
                let c = contacts[j];
                let ghost nl_pre = next_level@;
                if !self.levels_contain(&c) && !contains_id(&next_level, &c) {
                    next_level.push(c);
                }
                proof {
                    assert(contacts@[j as int] == c);
                    assert forall|y: Identity| #[trigger]
                        next_level@.contains(y) <==> {
                            &&& (exists|ii: int|
                                0 <= ii < i && network.follows(#[trigger] top@[ii], y)) || (
                            exists|jj: int| 0 <= jj < j + 1 && contacts@[jj] == y)
                            &&& !self.placed(y)
                        } by {
                        if next_level@.contains(y) {
                            if nl_pre.contains(y) {
                                if exists|jj: int| 0 <= jj < j && contacts@[jj] == y {
                                    let jj = choose|jj: int| 0 <= jj < j && contacts@[jj] == y;
                                    assert(0 <= jj < j + 1 && contacts@[jj] == y);
                                }
                            } else {
                                assert(next_level@ == nl_pre.push(c));
                                assert(y == c);
                                assert(0 <= (j as int) < j + 1 && contacts@[j as int] == y);
                            }
                        } else {
                            if ((exists|ii: int|
                                0 <= ii < i && network.follows(#[trigger] top@[ii], y)) || (
                            exists|jj: int| 0 <= jj < j + 1 && contacts@[jj] == y))
                                && !self.placed(y) {
                                assert(!nl_pre.contains(y)) by {
                                    if nl_pre.contains(y) {
                                        if next_level@ == nl_pre.push(c) {
                                            let j2 = choose|j2: int|
                                                0 <= j2 < nl_pre.len() && nl_pre[j2] == y;
                                            assert(next_level@[j2] == y);
                                        }
                                        assert(false);
                                    }
                                }
                                if exists|ii: int|
                                    0 <= ii < i && network.follows(#[trigger] top@[ii], y) {
                                    assert(false);
                                } else {
                                    let jj = choose|jj: int|
                                        0 <= jj < j + 1 && contacts@[jj] == y;
                                    assert(jj == j);
                                    assert(y == c);
                                    assert(next_level@ == nl_pre.push(c));
                                    assert(next_level@[next_level@.len() - 1] == y);
                                    assert(next_level@.contains(y));
                                    assert(false);
                                }
                            }
                        }
                    }
                }
                j += 1;
            }
            proof {
                assert forall|y: Identity| #[trigger]
                    next_level@.contains(y) <==> {
                        &&& exists|ii: int|
                            0 <= ii < i + 1 && network.follows(#[trigger] top@[ii], y)
                        &&& !self.placed(y)
                    } by {
                    assert((exists|jj: int| 0 <= jj < m && contacts@[jj] == y) == network.follows(
                        u,
                        y,
                    )) by {
                        if exists|jj: int| 0 <= jj < m && contacts@[jj] == y {
                            let jj = choose|jj: int| 0 <= jj < m && contacts@[jj] == y;
                            assert(contacts@.contains(y)) by {
                                assert(contacts@[jj] == y);
                            }
                        }
                        if network.follows(u, y) {
                            assert(contacts@.contains(y));
                            let jj = choose|jj: int|
                                0 <= jj < contacts@.len() && contacts@[jj] == y;
                        }
                    }
                    assert(((exists|ii: int|
                        0 <= ii < i && network.follows(#[trigger] top@[ii], y)) || network.follows(
                        u,
                        y,
                    )) == (exists|ii: int|
                        0 <= ii < i + 1 && network.follows(#[trigger] top@[ii], y))) by {
                        if exists|ii: int|
                            0 <= ii < i && network.follows(#[trigger] top@[ii], y) {
                            let ii = choose|ii: int|
                                0 <= ii < i && network.follows(#[trigger] top@[ii], y);
                            assert(0 <= ii < i + 1 && network.follows(top@[ii], y));
                        }
                        if network.follows(u, y) {
                            assert(0 <= (i as int) < i + 1 && network.follows(
                                top@[i as int],
                                y,
                            ));
                        }
                        if exists|ii: int|
                            0 <= ii < i + 1 && network.follows(#[trigger] top@[ii], y) {
                            let ii = choose|ii: int|
                                0 <= ii < i + 1 && network.follows(#[trigger] top@[ii], y);
                            if ii < i {
                                assert(exists|ii2: int|
                                    0 <= ii2 < i && network.follows(#[trigger] top@[ii2], y));
                            }
                        }
                    }
                }
            }
            i += 1;
        }
        // Record each newcomer's level index.
        let nn = next_level.len();
        let mut q: usize = 0;
        while q < nn
            invariant
                q <= nn,
                nn == next_level@.len(),
                next_level@.no_duplicates(),
                self.levels@ == old_levels,
                self.users_distances.wf(),
                forall|x: Identity|
                    self.users_distances@.dom().contains(x) <==> old(self).users_distances@.dom().contains(x) || next_level@.subrange(
                        0,
                        q as int,
                    ).contains(x),
                forall|x: Identity|
                    next_level@.subrange(0, q as int).contains(x)
                        ==> self.users_distances@[x] == current_level,
                forall|x: Identity|
                    old(self).users_distances@.dom().contains(x) && !next_level@.subrange(
                        0,
                        q as int,
                    ).contains(x) ==> self.users_distances@[x] == old(self).users_distances@[x],
                current_level == old_levels.len(),
            decreases nn - q,
        {
            let y = next_level[q];
            self.users_distances.insert(y, current_level);
            proof {
                assert(next_level@.subrange(0, q + 1) =~= next_level@.subrange(0, q as int).push(
                    y,
                ));
                assert forall|x: Identity|
                    next_level@.subrange(0, q + 1).contains(x) == (next_level@.subrange(
                        0,
                        q as int,
                    ).contains(x) || x == y) by {
                    let s_new = next_level@.subrange(0, q + 1);
                    let s_old = next_level@.subrange(0, q as int);
                    if s_new.contains(x) {
                        let jj = choose|jj: int| 0 <= jj < s_new.len() && s_new[jj] == x;
                        if jj < q {
                            assert(s_old[jj] == x);
                        }
                    }
                    if s_old.contains(x) {
                        let jj = choose|jj: int| 0 <= jj < s_old.len() && s_old[jj] == x;
                        assert(s_new[jj] == x);
                    }
                    if x == y {
                        assert(s_new[q as int] == x);
                    }
                }
            }
            q += 1;
        }
        proof {
            assert(next_level@.subrange(0, nn as int) =~= next_level@);
        }
        let ghost nl = next_level@;
        self.levels.push(next_level);
        proof {
            let new_levels = self.levels@;
            assert(new_levels.len() == old_levels.len() + 1);
            assert(forall|k: int|
                0 <= k < old_levels.len() ==> #[trigger] new_levels[k] == old_levels[k]);
            assert(new_levels.last()@ == nl);
            assert(self.wf()) by {
                assert forall|k1: int, k2: int, x: Identity|
                    #![trigger new_levels[k1]@.contains(x), new_levels[k2]@.contains(x)]
                    0 <= k1 < k2 < new_levels.len() && new_levels[k1]@.contains(x) implies
                    !new_levels[k2]@.contains(x) by {
                    if k2 < old_levels.len() {
                        assert(old_levels[k1]@.contains(x) ==> !old_levels[k2]@.contains(x));
                    } else {
                        assert(new_levels[k1] == old_levels[k1]);
                        if new_levels[k2]@.contains(x) {
                            assert(nl.contains(x));
                            assert(!old(self).placed(x));
                            assert(old_levels[k1]@.contains(x) ==> some_level_contains(
                                old_levels,
                                x,
                            ));
                            assert(false);
                        }
                    }
                }
            }
            assert forall|y: Identity|
                self.level_at(self.num_levels() - 1).contains(y) <==> {
                    &&& exists|u: Identity| #[trigger]
                        old(self).level_at(old(self).num_levels() - 1).contains(u)
                            && network.follows(u, y)
                    &&& !old(self).placed(y)
                } by {
                let top0 = old(self).level_at(old(self).num_levels() - 1);
                assert((exists|ii: int| 0 <= ii < top0.len() && network.follows(
                    #[trigger] top0[ii],
                    y,
                )) == (exists|u: Identity| #[trigger] top0.contains(u) && network.follows(
                    u,
                    y,
                ))) by {
                    if exists|ii: int|
                        0 <= ii < top0.len() && network.follows(#[trigger] top0[ii], y) {
                        let ii = choose|ii: int|
                            0 <= ii < top0.len() && network.follows(#[trigger] top0[ii], y);
                        assert(top0.contains(top0[ii]) && network.follows(top0[ii], y));
                    }
                    if exists|u: Identity| #[trigger] top0.contains(u) && network.follows(u, y) {
                        let u = choose|u: Identity| #[trigger]
                            top0.contains(u) && network.follows(u, y);
                        let ii = choose|ii: int| 0 <= ii < top0.len() && top0[ii] == u;
                        assert(0 <= ii < top0.len() && network.follows(top0[ii], y));
                    }
                }
            }
        }
    }

    /// Whether any level holds the identity.
    fn levels_contain(&self, x: &Identity) -> (b: bool)
        requires
            self.wf(),
        ensures
            b == self.placed(*x),
    {
        let n = self.levels.len();
        let mut k: usize = 0;
        while k < n
            invariant
                k <= n,
                n == self.levels@.len(),
                forall|k2: int| 0 <= k2 < k ==> !(#[trigger] self.levels@[k2])@.contains(*x),
            decreases n - k,
        {
            if contains_id(&self.levels[k], x) {
                proof {
                    assert(self.levels@[k as int]@.contains(*x));
                }
                return true;
            }
            k += 1;
        }
        proof {
            if self.placed(*x) {
                let k2 = choose|k2: int|
                    0 <= k2 < self.levels@.len() && (#[trigger] self.levels@[k2])@.contains(*x);
                assert(!self.levels@[k2]@.contains(*x));
            }
        }
        false
    }

    /// The identities whose profile records a caller should fetch to
    /// attach metadata to a level: exactly the level's members. Fails
    /// with `LevelNotPresent` when the index exceeds the built levels.
    /// The caller merges the fetched records through
    /// [`Network::extend_users_metadata`].
    pub fn add_metadata(&self, level: usize) -> (r: Result<Vec<Identity>, GetMetadataError>)
        requires
            self.wf(),
        ensures
            level < self.num_levels() ==> (r matches Ok(v) && v@ == self.level_at(level as int)),
            level >= self.num_levels() ==> r == Err::<Vec<Identity>, GetMetadataError>(
                GetMetadataError::LevelNotPresent,
            ),
    {
        if level >= self.levels.len() {
            return Err(GetMetadataError::LevelNotPresent);
        }
        let lvl = &self.levels[level];
        let n = lvl.len();
        let mut r: Vec<Identity> = Vec::new();
        let mut i: usize = 0;
        while i < n
            invariant
                i <= n,
                level < self.levels@.len(),
                lvl@ == self.levels@[level as int]@,
                n == lvl@.len(),
                r@ =~= lvl@.subrange(0, i as int),
            decreases n - i,
        {
            r.push(lvl[i]);
            proof {
                assert(r@ =~= lvl@.subrange(0, i + 1));
            }
            i += 1;
        }
        proof {
            assert(lvl@.subrange(0, n as int) =~= lvl@);
        }
        Ok(r)
    }

    /// Whether the ranks of a ranking would fit their machine width:
    /// true exactly when ten points per level-1 identity cannot
    /// overflow, so a caller can discharge
    /// [`Self::generate_user_ranks`]'s arithmetic bound by testing this
    /// first. Vacuously true while level 1 is not built yet.
    pub fn ranks_fit(&self) -> (b: bool)
        requires
            self.wf(),
        ensures
            b == (self.num_levels() < 2 || 10 * self.level_at(1).len() <= i32::MAX),
    {
        if self.levels.len() < 2 {
            return true;
        }
        self.levels[1].len() <= 214748364
    }

    /// Ties the placement predicate to the per-level views: an identity
    /// is placed exactly when some built level holds it.
    pub proof fn lemma_placed_char(self, x: Identity)
        ensures
            self.placed(x) <==> exists|k: int|
                0 <= k < self.num_levels() && #[trigger] self.level_at(k).contains(x),
    {
        if self.placed(x) {
            let k = choose|k: int|
                0 <= k < self.levels@.len() && (#[trigger] self.levels@[k])@.contains(x);
            assert(self.level_at(k).contains(x));
        }
        if exists|k: int|
            0 <= k < self.num_levels() && #[trigger] self.level_at(k).contains(x) {
            let k = choose|k: int|
                0 <= k < self.num_levels() && #[trigger] self.level_at(k).contains(x);
            assert(self.levels@[k]@.contains(x));
        }
    }

    /// First discovery wins: in a well-formed neighborhood no identity
    /// sits in two different levels.
    pub proof fn lemma_levels_disjoint(self, k1: int, k2: int, x: Identity)
        requires
            self.wf(),
            0 <= k1 < self.num_levels(),
            0 <= k2 < self.num_levels(),
            k1 != k2,
            self.level_at(k1).contains(x),
        ensures
            !self.level_at(k2).contains(x),
    {
        if k1 < k2 {
            assert(self.levels@[k1]@.contains(x));
        } else {
            assert(self.levels@[k2]@.contains(x) ==> !self.levels@[k1]@.contains(x));
        }
    }

    /// Ranks the level-2 identities — the candidate recommendations —
    /// by their mutual connections into level 1: ten points per shared
    /// level-1 mutual, with those mutuals named as the reasons. The
    /// rows come sorted by rank, ascending. Fails with
    /// `NotEnoughLevels` unless at least three levels are built.
    pub fn generate_user_ranks(&self, network: &Network) -> (r: Result<
        Vec<(Identity, i32, Vec<RankReasons>)>,
        RecommendationError,
    >)
        requires
            self.wf(),
            network.wf(),
            self.num_levels() > 2 ==> 10 * self.level_at(1).len() <= i32::MAX,
        ensures
            self.num_levels() <= 2 <==> r == Err::<
                Vec<(Identity, i32, Vec<RankReasons>)>,
                RecommendationError,
            >(RecommendationError::NotEnoughLevels),
            self.num_levels() > 2 ==> r is Ok,
            r matches Ok(v) ==> ranking_ok(*network, self.level_at(1), self.level_at(2), v@),
    {
        if self.levels.len() <= 2 {
            return Err(RecommendationError::NotEnoughLevels);
        }
        let ghost l1 = self.level_at(1);
        let ghost l2 = self.level_at(2);
        let n2 = self.levels[2].len();
        let mut out: Vec<(Identity, i32, Vec<RankReasons>)> = Vec::new();
        let mut i: usize = 0;
        while i < n2
            invariant
                self.wf(),
                network.wf(),
                self.num_levels() > 2,
                10 * l1.len() <= i32::MAX,
                l1 == self.level_at(1),
                l2 == self.level_at(2),
                n2 == l2.len(),
                i <= n2,
                forall|x: Identity|
                    #![trigger l2.subrange(0, i as int).contains(x)]
                    (exists|q: int| 0 <= q < out@.len() && (#[trigger] out@[q]).0 == x) <==> l2.subrange(
                        0,
                        i as int,
                    ).contains(x),
                forall|q1: int, q2: int|
                    0 <= q1 < q2 < out@.len() ==> (#[trigger] out@[q1]).0 != (#[trigger] out@[
                    q2]).0,
                forall|q1: int, q2: int|
                    0 <= q1 < q2 < out@.len() ==> (#[trigger] out@[q1]).1 <= (#[trigger] out@[
                    q2]).1,
                forall|q: int|
                    0 <= q < out@.len() ==> rank_entry_ok(*network, l1, #[trigger] out@[q]),
            decreases n2 - i,
        {
            let g_id = self.levels[2][i];
            proof {
                assert(l2[i as int] == g_id);
            }
            let mutual_nodes = network.get_user_mutuals(&g_id);
            let mn = mutual_nodes.len();
            let mut reasons: Vec<Identity> = Vec::new();
            let mut rank: i32 = 0;
            let mut t: usize = 0;
            while t < mn
                invariant
                    self.wf(),
                    network.wf(),
                    self.num_levels() > 2,
                    10 * l1.len() <= i32::MAX,
                    l1 == self.level_at(1),
                    mn == mutual_nodes@.len(),
                    mutual_nodes@.no_duplicates(),
                    forall|x: usize|
                        mutual_nodes@.contains(x) <==> (x < network.id_seq().len()
                            && network.mutual(g_id, network.id_seq()[x as int])),
                    t <= mn,
                    reasons@.no_duplicates(),
                    forall|m: Identity| #[trigger]
                        reasons@.contains(m) ==> l1.contains(m),
                    forall|m: Identity| #[trigger]
                        reasons@.contains(m) <==> (exists|tt: int|
                            0 <= tt < t && network.id_seq()[(#[trigger] mutual_nodes@[tt]) as int]
                                == m) && l1.contains(m),
                    rank == 10 * reasons@.len(),
                decreases mn - t,
            {
                let node = mutual_nodes[t];
                proof {
                    assert(mutual_nodes@.contains(node)) by {
                        assert(mutual_nodes@[t as int] == node);
                    }
                }
                let m_id = match network.node_to_pubkey(node) {
                    Some(x) => x,
                    None => {
                        proof {
                            assert(false);
                        }
                        g_id
                    },
                };
                let ghost reasons_pre = reasons@;
                if contains_id(&self.levels[1], &m_id) {
                    proof {
                        assert(self.levels@[1]@ == l1);
                        assert(l1.contains(m_id));
                        if reasons@.contains(m_id) {
                            let tt = choose|tt: int|
                                0 <= tt < t && network.id_seq()[(
                                #[trigger] mutual_nodes@[tt]) as int] == m_id;
                            assert(mutual_nodes@.contains(mutual_nodes@[tt])) by {
                                assert(mutual_nodes@[tt] == mutual_nodes@[tt]);
                            }
                            network.lemma_index_unique(
                                mutual_nodes@[tt] as int,
                                node as int,
                            );
                            assert(mutual_nodes@[tt] == mutual_nodes@[t as int]);
                            assert(false);
                        }
                        assert(reasons@.push(m_id).no_duplicates());
                        assert(10 * (reasons@.len() + 1) <= 10 * l1.len()) by {
                            let s_new = reasons@.push(m_id);
                            assert(forall|m: Identity| #[trigger] s_new.contains(m)
                                ==> l1.contains(m)) by {
                                assert(forall|j: int|
                                    0 <= j < s_new.len() && j < reasons@.len()
                                        ==> #[trigger] s_new[j] == reasons@[j]);
                                assert forall|m: Identity| #[trigger] s_new.contains(m) implies
                                    l1.contains(m) by {
                                    let j = choose|j: int|
                                        0 <= j < s_new.len() && s_new[j] == m;
                                    if j < reasons@.len() {
                                        assert(reasons@[j] == m);
                                        assert(reasons@.contains(m));
                                    } else {
                                        assert(m == m_id);
                                    }
                                }
                            }
                            assert(s_new.to_set().subset_of(l1.to_set()));
                            s_new.unique_seq_to_set();
                            l1.unique_seq_to_set();
                            vstd::set_lib::lemma_len_subset(s_new.to_set(), l1.to_set());
                        }
                    }
                    rank = rank + 10;
                    reasons.push(m_id);
                }
                proof {
                    assert forall|m: Identity| #[trigger]
                        reasons@.contains(m) <==> ((exists|tt: int|
                            0 <= tt < t + 1 && network.id_seq()[(
                            #[trigger] mutual_nodes@[tt]) as int] == m) && l1.contains(m)) by {
                        if reasons@.contains(m) {
                            if reasons_pre.contains(m) {
                                let tt = choose|tt: int|
                                    0 <= tt < t && network.id_seq()[(
                                    #[trigger] mutual_nodes@[tt]) as int] == m;
                                assert(0 <= tt < t + 1 && network.id_seq()[mutual_nodes@[tt] as int]
                                    == m);
                            } else {
                                assert(reasons@ == reasons_pre.push(m_id));
                                assert(m == m_id);
                                assert(0 <= (t as int) < t + 1 && network.id_seq()[mutual_nodes@[
                                t as int] as int] == m);
                            }
                        } else {
                            if (exists|tt: int|
                                0 <= tt < t + 1 && network.id_seq()[(
                                #[trigger] mutual_nodes@[tt]) as int] == m) && l1.contains(m) {
                                assert(!reasons_pre.contains(m)) by {
                                    if reasons_pre.contains(m) {
                                        if reasons@ == reasons_pre.push(m_id) {
                                            let j2 = choose|j2: int|
                                                0 <= j2 < reasons_pre.len() && reasons_pre[j2]
                                                    == m;
                                            assert(reasons@[j2] == m);
                                        }
                                        assert(false);
                                    }
                                }
                                let tt = choose|tt: int|
                                    0 <= tt < t + 1 && network.id_seq()[(
                                    #[trigger] mutual_nodes@[tt]) as int] == m;
                                assert(tt == t);
                                assert(m == m_id);
                                assert(reasons@ == reasons_pre.push(m_id));
                                assert(reasons@[reasons@.len() - 1] == m);
                                assert(reasons@.contains(m));
                                assert(false);
                            }
                        }
                    }
                }
                t += 1;
            }
            proof {
                assert forall|m: Identity| #[trigger]
                    reasons@.contains(m) <==> (network.mutual(g_id, m) && l1.contains(m)) by {
                    if reasons@.contains(m) {
                        let tt = choose|tt: int|
                            0 <= tt < mn && network.id_seq()[(
                            #[trigger] mutual_nodes@[tt]) as int] == m;
                        assert(mutual_nodes@.contains(mutual_nodes@[tt])) by {
                            assert(mutual_nodes@[tt] == mutual_nodes@[tt]);
                        }
                        assert(network.mutual(g_id, m));
                    } else {
                        if network.mutual(g_id, m) && l1.contains(m) {
                            network.lemma_follows_users(g_id, m);
                            network.lemma_id_count_bounded();
                            assert(network.has_user(m));
                            let b = choose|b: int|
                                0 <= b < network.id_seq().len() && network.id_seq()[b] == m;
                            assert(((b as usize) as int) == b);
                            assert(mutual_nodes@.contains(b as usize)) by {
                                assert((b as usize) < network.id_seq().len() && network.mutual(
                                    g_id,
                                    network.id_seq()[b],
                                ));
                            }
                            let tt = choose|tt: int|
                                0 <= tt < mutual_nodes@.len() && mutual_nodes@[tt] == (b as usize);
                            assert(network.id_seq()[mutual_nodes@[tt] as int] == m);
                            assert(false);
                        }
                    }
                }
            }
            let mut reason_vec: Vec<RankReasons> = Vec::new();
            reason_vec.push(RankReasons::MutualConnections(reasons));
            let entry = (g_id, rank, reason_vec);
            proof {
                assert(rank_entry_ok(*network, l1, entry));
            }
            // keep the output sorted by rank, ascending
            let mut pos: usize = out.len();
            while pos > 0 && out[pos - 1].1 > rank
                invariant
                    pos <= out@.len(),
                    forall|q: int| pos <= q < out@.len() ==> (#[trigger] out@[q]).1 > rank,
                decreases pos,
            {
                pos -= 1;
            }
            let ghost out_pre = out@;
            out.insert(pos, entry);
            proof {
                assert(out@ == out_pre.insert(pos as int, entry));
                assert(out@.len() == out_pre.len() + 1);
                assert(forall|q: int| 0 <= q < pos ==> #[trigger] out@[q] == out_pre[q]);
                assert(forall|q: int|
                    pos < q < out@.len() ==> #[trigger] out@[q] == out_pre[q - 1]);
                assert(out@[pos as int] == entry);
                assert(l2.subrange(0, i + 1) =~= l2.subrange(0, i as int).push(g_id));
                assert forall|x: Identity|
                    #![trigger l2.subrange(0, i + 1).contains(x)]
                    (exists|q: int| 0 <= q < out@.len() && (#[trigger] out@[q]).0 == x)
                        <==> l2.subrange(0, i + 1).contains(x) by {
                    let s_new = l2.subrange(0, i + 1);
                    let s_old = l2.subrange(0, i as int);
                    assert(s_new.contains(x) == (s_old.contains(x) || x == g_id)) by {
                        if s_new.contains(x) {
                            let jj = choose|jj: int| 0 <= jj < s_new.len() && s_new[jj] == x;
                            if jj < i {
                                assert(s_old[jj] == x);
                            }
                        }
                        if s_old.contains(x) {
                            let jj = choose|jj: int| 0 <= jj < s_old.len() && s_old[jj] == x;
                            assert(s_new[jj] == x);
                        }
                        if x == g_id {
                            assert(s_new[i as int] == x);
                        }
                    }
                    if exists|q: int| 0 <= q < out@.len() && (#[trigger] out@[q]).0 == x {
                        let q = choose|q: int| 0 <= q < out@.len() && (#[trigger] out@[q]).0 == x;
                        if q < pos {
                            assert(out_pre[q].0 == x);
                            assert(exists|q2: int|
                                0 <= q2 < out_pre.len() && (#[trigger] out_pre[q2]).0 == x);
                        } else if q > pos {
                            assert(out_pre[q - 1].0 == x);
                            assert(exists|q2: int|
                                0 <= q2 < out_pre.len() && (#[trigger] out_pre[q2]).0 == x);
                        } else {
                            assert(x == g_id);
                        }
                    }
                    if s_old.contains(x) {
                        let q2 = choose|q2: int|
                            0 <= q2 < out_pre.len() && (#[trigger] out_pre[q2]).0 == x;
                        if q2 < pos {
                            assert(out@[q2].0 == x);
                        } else {
                            assert(out@[q2 + 1].0 == x);
                        }
                    }
                    if x == g_id {
                        assert(out@[pos as int].0 == x);
                    }
                }
                assert forall|q1: int, q2: int|
                    0 <= q1 < q2 < out@.len() implies (#[trigger] out@[q1]).0 != (
                #[trigger] out@[q2]).0 by {
                    if q1 != pos && q2 != pos {
                        let p1: int = if q1 < pos {
                            q1
                        } else {
                            q1 - 1
                        };
                        let p2: int = if q2 < pos {
                            q2
                        } else {
                            q2 - 1
                        };
                        assert(out@[q1] == out_pre[p1]);
                        assert(out@[q2] == out_pre[p2]);
                    } else {
                        let qo: int = if q1 == pos {
                            q2
                        } else {
                            q1
                        };
                        let po: int = if qo < pos {
                            qo
                        } else {
                            qo - 1
                        };
                        assert(out@[qo] == out_pre[po]);
                        if out_pre[po].0 == g_id {
                            assert(exists|q3: int|
                                0 <= q3 < out_pre.len() && (#[trigger] out_pre[q3]).0 == g_id);
                            assert(l2.subrange(0, i as int).contains(g_id));
                            let jj = choose|jj: int|
                                0 <= jj < i && l2.subrange(0, i as int)[jj] == g_id;
                            assert(l2[jj] == g_id);
                            assert(l2[i as int] == g_id);
                            assert(false);
                        }
                    }
                }
                assert forall|q1: int, q2: int|
                    0 <= q1 < q2 < out@.len() implies (#[trigger] out@[q1]).1 <= (
                #[trigger] out@[q2]).1 by {
                    if q1 != pos && q2 != pos {
                        let p1: int = if q1 < pos {
                            q1
                        } else {
                            q1 - 1
                        };
                        let p2: int = if q2 < pos {
                            q2
                        } else {
                            q2 - 1
                        };
                        assert(out@[q1] == out_pre[p1]);
                        assert(out@[q2] == out_pre[p2]);
                    } else if q1 == pos {
                        assert(out@[q2] == out_pre[q2 - 1]);
                        assert(out_pre[q2 - 1].1 > rank);
                    } else {
                        assert(out@[q1] == out_pre[q1]);
                        if pos > 0 {
                            assert(out_pre[pos - 1].1 <= rank);
                            assert(out_pre[q1].1 <= out_pre[pos - 1].1 || q1 == pos - 1);
                        }
                    }
                }
                assert forall|q: int|
                    0 <= q < out@.len() implies rank_entry_ok(*network, l1, #[trigger] out@[
                q]) by {
                    if q != pos {
                        let p: int = if q < pos {
                            q
                        } else {
                            q - 1
                        };
                        assert(out@[q] == out_pre[p]);
                        assert(rank_entry_ok(*network, l1, out_pre[p]));
                    }
                }
            }
            i += 1;
        }
        proof {
            assert(l2.subrange(0, n2 as int) =~= l2);
            assert forall|x: Identity|
                (exists|q: int| 0 <= q < out@.len() && (#[trigger] out@[q]).0 == x)
                    <==> self.level_at(2).contains(x) by {
                if exists|q: int| 0 <= q < out@.len() && (#[trigger] out@[q]).0 == x {
                    assert(l2.subrange(0, n2 as int).contains(x));
                    let jj = choose|jj: int|
                        0 <= jj < n2 && (#[trigger] l2.subrange(0, n2 as int)[jj]) == x;
                    assert(l2[jj] == x);
                }
                if self.level_at(2).contains(x) {
                    let jj = choose|jj: int| 0 <= jj < l2.len() && l2[jj] == x;
                    assert(l2.subrange(0, n2 as int)[jj] == x);
                    assert(l2.subrange(0, n2 as int).contains(x));
                }
            }
            assert(forall|q: int|
                0 <= q < out@.len() ==> rank_entry_ok(
                    *network,
                    self.level_at(1),
                    #[trigger] out@[q],
                ));
            assert(ranking_ok(*network, self.level_at(1), self.level_at(2), out@));
        }
        Ok(out)
    }
}

} // verus!
