//! Degrees of separation: a bidirectional, round-synchronized search
//! over mutual-follow edges, with path reconstruction and staleness
//! verification.
//!
//! The search itself never fetches: it reads contact lists that the
//! caller has already merged into the [`Network`]. Between rounds the
//! caller may fetch the lists of the identities in
//! [`SepSearch::pending_border`] and merge them, then call
//! [`SepSearch::step`] again.

use vstd::prelude::*;

use crate::identity::contains_id;
use crate::identity::Identity;
use crate::map_intersect::intersection_map;
use crate::map_intersect::IdMap;
use crate::network::base::Network;

verus! {

/// The round cap policy default.
pub const DEFAULT_ROUND_CAP: u32 = 7;

/// Why a separation query failed.
#[derive(Debug, Clone, PartialEq, Eq)]
pub enum SepDegreeError {
    /// A request carried fewer identities than expected.
    TooFewArguments,
    /// A request carried more identities than expected.
    TooMuchArguments,
    /// The transport failed; holds its message.
    NostrClientError(String),
    /// The round cap was exhausted without the frontiers meeting.
    NotFound,
    /// This identity has no discoverable contact list.
    MissingContactList(Identity),
}

/// A mutual-follow chain through `g` from `t1` to `t2`: consecutive
/// path members follow each other.
pub open spec fn is_mutual_chain(g: Network, path: Seq<Identity>, t1: Identity, t2: Identity) -> bool {
    &&& path.len() >= 1
    &&& path[0] == t1
    &&& path[path.len() - 1] == t2
    &&& forall|k: int| 0 <= k < path.len() - 1 ==> g.mutual(path[k], #[trigger] path[k + 1])
}

/// Whether some level of a side holds the identity.
pub open spec fn side_contains(levels: Seq<IdMap<Identity>>, x: Identity) -> bool {
    exists|k: int| 0 <= k < levels.len() && (#[trigger] levels[k])@.dom().contains(x)
}

/// The shape of one side's level maps: level 0 maps the side's root to
/// itself; an identity at level `k >= 1` has a backpointer at level
/// `k - 1`; and no identity sits in two levels of the same side.
pub open spec fn levels_struct_wf(levels: Seq<IdMap<Identity>>, root: Identity) -> bool {
    &&& levels.len() >= 1
    &&& forall|k: int| 0 <= k < levels.len() ==> (#[trigger] levels[k]).wf()
    &&& levels[0]@.dom() == set![root]
    &&& levels[0]@[root] == root
    &&& forall|k: int, x: Identity|
        #![trigger levels[k]@.dom().contains(x)]
        1 <= k < levels.len() && levels[k]@.dom().contains(x) ==> levels[k - 1]@.dom().contains(
            levels[k]@[x],
        )
    &&& forall|k1: int, k2: int, x: Identity|
        #![trigger levels[k1]@.dom().contains(x), levels[k2]@.dom().contains(x)]
        0 <= k1 < k2 < levels.len() && levels[k1]@.dom().contains(x) ==> !levels[k2]@.dom().contains(
            x,
        )
}

/// Every backpointer recorded on this side is a confirmed mutual edge
/// in `g`.
pub open spec fn levels_edges_ok(levels: Seq<IdMap<Identity>>, g: Network) -> bool {
    forall|k: int, x: Identity|
        #![trigger levels[k]@.dom().contains(x)]
        1 <= k < levels.len() && levels[k]@.dom().contains(x) ==> g.mutual(x, levels[k]@[x])
}

/// A border holds only identities not yet placed in a level of its
/// side.
pub open spec fn border_fresh(border: Seq<Identity>, levels: Seq<IdMap<Identity>>) -> bool {
    forall|x: Identity| #[trigger] border.contains(x) ==> !side_contains(levels, x)
}

/// What one round of the search reported.
#[derive(Debug)]
pub enum SearchStep {
    /// The frontiers met: the separation degree and a connecting path.
    Found(u32, Vec<Identity>),
    /// The round cap is exhausted.
    NotFound,
    /// No collision yet; fetch the pending border and step again.
    Continue,
}

/// The state of one bidirectional search: a level-map sequence and a
/// border per side, the round counter and the cap.
pub struct SepSearch {
    target1: Identity,
    target2: Identity,
    round_cap: u32,
    current_distance: u32,
    levels1: Vec<IdMap<Identity>>,
    levels2: Vec<IdMap<Identity>>,
    border1: Vec<Identity>,
    border2: Vec<Identity>,
}

impl SepSearch {
    /// The first search target.
    pub closed spec fn t1(self) -> Identity {
        self.target1
    }

    /// The second search target.
    pub closed spec fn t2(self) -> Identity {
        self.target2
    }

    /// The round cap.
    pub closed spec fn cap(self) -> u32 {
        self.round_cap
    }

    /// Completed rounds.
    pub closed spec fn dist(self) -> u32 {
        self.current_distance
    }

    /// The border of side 1.
    pub closed spec fn border1_seq(self) -> Seq<Identity> {
        self.border1@
    }

    /// The border of side 2.
    pub closed spec fn border2_seq(self) -> Seq<Identity> {
        self.border2@
    }

    /// The level maps of side 1.
    pub closed spec fn levels1_seq(self) -> Seq<IdMap<Identity>> {
        self.levels1@
    }

    /// The level maps of side 2.
    pub closed spec fn levels2_seq(self) -> Seq<IdMap<Identity>> {
        self.levels2@
    }

    /// Whether the next round expands side 1: sides alternate strictly,
    /// starting with side 1.
    pub open spec fn expands_side_one(self) -> bool {
        self.dist() % 2 == 0
    }

    /// The two most recently completed level maps share a key.
    pub closed spec fn collided(self) -> bool {
        exists|m: Identity| #![auto]
            self.levels1@.last()@.dom().contains(m) && self.levels2@.last()@.dom().contains(m)
    }

    /// Well-formed search state: both sides' level maps have the shape
    /// of [`levels_struct_wf`], their lengths track the round counter
    /// under strict side alternation, the counter is below the cap, and
    /// the borders are duplicate-free and fresh.
    pub closed spec fn wf(self) -> bool {
        &&& levels_struct_wf(self.levels1@, self.target1)
        &&& levels_struct_wf(self.levels2@, self.target2)
        &&& self.levels1@.len() == 1 + (self.current_distance as int + 1) / 2
        &&& self.levels2@.len() == 1 + (self.current_distance as int) / 2
        &&& self.current_distance <= self.round_cap
        &&& self.border1@.no_duplicates()
        &&& self.border2@.no_duplicates()
        &&& border_fresh(self.border1@, self.levels1@)
        &&& border_fresh(self.border2@, self.levels2@)
    }

    /// Backpointers on both sides are confirmed mutual edges in `g`.
    pub closed spec fn edges_ok(self, g: Network) -> bool {
        levels_edges_ok(self.levels1@, g) && levels_edges_ok(self.levels2@, g)
    }

    /// Starts a search between two targets.
    ///
    /// Both targets are added to the graph. Each target must already
    /// have a contact list recorded in the graph (the caller fetches
    /// and merges them first); otherwise the search fails immediately
    /// with `MissingContactList` for the first target lacking one.
    /// Each side's border starts as its target's contacts, less the
    /// target itself.
    pub fn new(network: &mut Network, target_1: Identity, target_2: Identity, round_cap: u32) -> (r:
        Result<SepSearch, SepDegreeError>)
        requires
            old(network).wf(),
            round_cap >= 1,
        ensures
            final(network).wf(),
            old(network).id_seq().is_prefix_of(final(network).id_seq()),
            forall|x: Identity, y: Identity|
                final(network).follows(x, y) == old(network).follows(x, y),
            final(network).last_update_map() == old(network).last_update_map(),
            final(network).metadata_map() == old(network).metadata_map(),
            forall|x: Identity|
                final(network).has_user(x) <==> old(network).has_user(x) || x == target_1 || x
                    == target_2,
            !old(network).last_update_map().dom().contains(target_1) ==> r == Err::<
                SepSearch,
                SepDegreeError,
            >(SepDegreeError::MissingContactList(target_1)),
            old(network).last_update_map().dom().contains(target_1) && !old(
                network,
            ).last_update_map().dom().contains(target_2) ==> r == Err::<
                SepSearch,
                SepDegreeError,
            >(SepDegreeError::MissingContactList(target_2)),
            old(network).last_update_map().dom().contains(target_1) && old(
                network,
            ).last_update_map().dom().contains(target_2) ==> (r matches Ok(s) && {
                &&& s.wf()
                &&& s.edges_ok(*final(network))
                &&& s.t1() == target_1
                &&& s.t2() == target_2
                &&& s.cap() == round_cap
                &&& s.dist() == 0
                &&& s.collided() == (target_1 == target_2)
                &&& forall|x: Identity|
                    s.border1_seq().contains(x) <==> (final(network).follows(target_1, x) && x
                        != target_1)
                &&& forall|x: Identity|
                    s.border2_seq().contains(x) <==> (final(network).follows(target_2, x) && x
                        != target_2)
            }),
    {
        let ghost pre = *old(network);
        network.add_user(target_1);
        let ghost mid1 = *network;
        network.add_user(target_2);
        proof {
            assert(network.last_update_map() == pre.last_update_map());
            assert(pre.id_seq().is_prefix_of(network.id_seq())) by {
                assert(pre.id_seq() =~= network.id_seq().subrange(0, pre.id_seq().len() as int));
            }
            assert forall|x: Identity|
                network.has_user(x) <==> (pre.has_user(x) || x == target_1 || x == target_2) by {
                assert(mid1.has_user(x) == (pre.has_user(x) || x == target_1));
                assert(network.has_user(x) == (mid1.has_user(x) || x == target_2));
            }
        }
        match network.does_user_follow(&target_1) {
            Some(_) => {},
            None => {
                return Err(SepDegreeError::MissingContactList(target_1));
            },
        }
        match network.does_user_follow(&target_2) {
            Some(_) => {},
            None => {
                return Err(SepDegreeError::MissingContactList(target_2));
            },
        }
        let border1 = contacts_without(network, &target_1);
        let border2 = contacts_without(network, &target_2);
        let mut map1: IdMap<Identity> = IdMap::new();
        map1.insert(target_1, target_1);
        let mut map2: IdMap<Identity> = IdMap::new();
        map2.insert(target_2, target_2);
        let mut levels1: Vec<IdMap<Identity>> = Vec::new();
        levels1.push(map1);
        let mut levels2: Vec<IdMap<Identity>> = Vec::new();
        levels2.push(map2);
        let s = SepSearch {
            target1: target_1,
            target2: target_2,
            round_cap,
            current_distance: 0,
            levels1,
            levels2,
            border1,
            border2,
        };
        proof {
            assert(s.levels1@[0]@ =~= Map::<Identity, Identity>::empty().insert(target_1, target_1));
            assert(s.levels1@[0]@.dom() =~= set![target_1]);
            assert(s.levels2@[0]@.dom() =~= set![target_2]);
            assert(levels_struct_wf(s.levels1@, target_1));
            assert(levels_struct_wf(s.levels2@, target_2));
            assert(border_fresh(s.border1@, s.levels1@)) by {
                assert forall|x: Identity| #[trigger] s.border1@.contains(x) implies !side_contains(
                    s.levels1@,
                    x,
                ) by {
                    if side_contains(s.levels1@, x) {
                        let k = choose|k: int|
                            0 <= k < s.levels1@.len() && (#[trigger] s.levels1@[k])@.dom().contains(x);
                        assert(x == target_1);
                    }
                }
            }
            assert(border_fresh(s.border2@, s.levels2@)) by {
                assert forall|x: Identity| #[trigger] s.border2@.contains(x) implies !side_contains(
                    s.levels2@,
                    x,
                ) by {
                    if side_contains(s.levels2@, x) {
                        let k = choose|k: int|
                            0 <= k < s.levels2@.len() && (#[trigger] s.levels2@[k])@.dom().contains(x);
                        assert(x == target_2);
                    }
                }
            }
            assert(s.collided() == (target_1 == target_2)) by {
                if target_1 == target_2 {
                    assert(s.levels1@.last()@.dom().contains(target_1));
                    assert(s.levels2@.last()@.dom().contains(target_1));
                }
                if s.collided() {
                    let m = choose|m: Identity| #![auto]
                        s.levels1@.last()@.dom().contains(m) && s.levels2@.last()@.dom().contains(m);
                    assert(m == target_1 && m == target_2);
                }
            }
            assert(s.edges_ok(*network)) by {
                assert(forall|k: int, x: Identity|
                    #![trigger s.levels1@[k]@.dom().contains(x)]
                    !(1 <= k < s.levels1@.len()));
                assert(forall|k: int, x: Identity|
                    #![trigger s.levels2@[k]@.dom().contains(x)]
                    !(1 <= k < s.levels2@.len()));
            }
        }
        Ok(s)
    }
}

/// Walks the backpointers of one side from `start` — an identity in the
/// side's next-to-last level — down to the level placed right above the
/// root. The result starts at `start` and each following element is the
/// previous one's backpointer; the last element's backpointer is the
/// root itself.
fn backtrack(levels: &Vec<IdMap<Identity>>, start: Identity, Ghost(root): Ghost<Identity>) -> (r:
    Vec<Identity>)
    requires
        levels_struct_wf(levels@, root),
        levels@.len() >= 3,
        levels@[levels@.len() - 2]@.dom().contains(start),
    ensures
        r@.len() == levels@.len() - 2,
        r@[0] == start,
        forall|j: int|
            0 <= j < r@.len() ==> (#[trigger] levels@[levels@.len() - 2 - j])@.dom().contains(
                r@[j],
            ),
        forall|j: int|
            0 <= j < r@.len() - 1 ==> levels@[levels@.len() - 2 - j]@[#[trigger] r@[j]] == r@[j
                + 1],
        levels@[1]@[r@[r@.len() - 1]] == root,
{
    let ghost k0 = levels@.len() - 2;
    let mut r: Vec<Identity> = Vec::new();
    let mut current = start;
    let mut k = levels.len() - 2;
    while k > 0
        invariant
            levels_struct_wf(levels@, root),
            k0 == levels@.len() - 2,
            k0 >= 1,
            0 <= k <= k0,
            r@.len() == k0 - k,
            levels@[k as int]@.dom().contains(current),
            r@.len() == 0 ==> current == start && k == k0,
            r@.len() > 0 ==> r@[0] == start,
            forall|j: int|
                0 <= j < r@.len() ==> (#[trigger] levels@[k0 - j])@.dom().contains(r@[j]),
            forall|j: int|
                0 <= j < r@.len() - 1 ==> levels@[k0 - j]@[#[trigger] r@[j]] == r@[j + 1],
            r@.len() > 0 ==> levels@[k + 1]@[r@[r@.len() - 1]] == current,
        decreases k,
    {
        let ghost r_pre = r@;
        let ghost cur_pre = current;
        r.push(current);
        let next = match levels[k].get(&current) {
            Some(b) => *b,
            None => {
                proof {
                    assert(false);
                }
                current
            },
        };
        current = next;
        k -= 1;
        proof {
            assert(r@ == r_pre.push(cur_pre));
            assert(r@[r@.len() - 1] == cur_pre);
            assert(levels@[k0 - (r@.len() - 1)]@.dom().contains(cur_pre));
            assert(levels@[k + 1]@[cur_pre] == current);
            assert(levels@[k as int]@.dom().contains(current)) by {
                assert(levels@[k + 1]@.dom().contains(cur_pre));
            }
            assert(forall|j: int|
                0 <= j < r_pre.len() ==> #[trigger] r@[j] == r_pre[j]);
        }
    }
    proof {
        assert(r@.len() == k0);
        assert(levels@[0]@.dom().contains(current));
        assert(levels@[0]@.dom() == set![root]);
        assert(current == root);
        assert(levels@[1]@[r@[r@.len() - 1]] == current);
    }
    r
}

/// Whether a contact advances a border identity into the next level of
/// a side whose most recent level map is `last`: the contact already
/// sits in `last` and the graph confirms the edge mutual in both
/// directions.
pub open spec fn advances(g: Network, last: IdMap<Identity>, x: Identity, c: Identity) -> bool {
    last@.dom().contains(c) && g.mutual(x, c)
}

/// What one round of expansion puts into a side's new level map, given
/// the border and the most recent level map it expanded from: exactly
/// the border identities with a contact that advances them.
pub open spec fn expanded_level_ok(
    g: Network,
    border: Seq<Identity>,
    last: IdMap<Identity>,
    new_last: IdMap<Identity>,
) -> bool {
    forall|x: Identity|
        new_last@.dom().contains(x) <==> (border.contains(x) && exists|c: Identity| #[trigger] advances(
            g,
            last,
            x,
            c,
        ))
}

/// What one round of expansion leaves as a side's new border, given the
/// old border and both sides' level maps after the round: exactly the
/// old border's followees that no level of either side has placed.
pub open spec fn reseeded_border_ok(
    g: Network,
    old_border: Seq<Identity>,
    own_levels: Seq<IdMap<Identity>>,
    other_levels: Seq<IdMap<Identity>>,
    new_border: Seq<Identity>,
) -> bool {
    forall|y: Identity| #[trigger]
        new_border.contains(y) <==> {
            &&& exists|x: Identity| #[trigger] old_border.contains(x) && g.follows(x, y)
            &&& !side_contains(own_levels, y)
            &&& !side_contains(other_levels, y)
        }
}

/// Whether any level of a side holds the identity.
fn levels_contain(levels: &Vec<IdMap<Identity>>, x: &Identity) -> (b: bool)
    requires
        forall|k: int| 0 <= k < levels@.len() ==> (#[trigger] levels@[k]).wf(),
    ensures
        b == side_contains(levels@, *x),
{
    let n = levels.len();
    let mut k: usize = 0;
    while k < n
        invariant
            k <= n,
            n == levels@.len(),
            forall|k2: int| 0 <= k2 < levels@.len() ==> (#[trigger] levels@[k2]).wf(),
            forall|k2: int| 0 <= k2 < k ==> !(#[trigger] levels@[k2])@.dom().contains(*x),
        decreases n - k,
    {
        if levels[k].contains_key(x) {
            proof {
                assert(levels@[k as int]@.dom().contains(*x));
            }
            return true;
        }
        k += 1;
    }
    proof {
        if side_contains(levels@, *x) {
            let k2 = choose|k2: int|
                0 <= k2 < levels@.len() && (#[trigger] levels@[k2])@.dom().contains(*x);
            assert(!levels@[k2]@.dom().contains(*x));
        }
    }
    false
}

/// Expands one side by one round: builds the next level map from the
/// border — a border identity advances when it has a contact in the
/// side's most recent level confirmed mutual, with that contact as its
/// backpointer — then reseeds the border with the border's contacts
/// that no level of either side (the new one included) has placed yet.
fn expand(
    levels_own: &mut Vec<IdMap<Identity>>,
    border: &mut Vec<Identity>,
    levels_other: &Vec<IdMap<Identity>>,
    network: &Network,
    Ghost(root): Ghost<Identity>,
) -> (r: ())
    requires
        network.wf(),
        levels_struct_wf(old(levels_own)@, root),
        old(border)@.no_duplicates(),
        border_fresh(old(border)@, old(levels_own)@),
        forall|k: int| 0 <= k < levels_other@.len() ==> (#[trigger] levels_other@[k]).wf(),
    ensures
        final(levels_own)@.len() == old(levels_own)@.len() + 1,
        final(levels_own)@.subrange(0, old(levels_own)@.len() as int) == old(levels_own)@,
        levels_struct_wf(final(levels_own)@, root),
        levels_edges_ok(old(levels_own)@, *network) ==> levels_edges_ok(
            final(levels_own)@,
            *network,
        ),
        forall|x: Identity|
            final(levels_own)@.last()@.dom().contains(x) <==> (old(border)@.contains(x) && exists|
                c: Identity,
            | #[trigger] advances(*network, old(levels_own)@.last(), x, c)),
        final(border)@.no_duplicates(),
        border_fresh(final(border)@, final(levels_own)@),
        forall|y: Identity|
            final(border)@.contains(y) <==> {
                &&& exists|x: Identity| #[trigger]
                    old(border)@.contains(x) && network.follows(x, y)
                &&& !side_contains(final(levels_own)@, y)
                &&& !side_contains(levels_other@, y)
            },
{
    let ghost old_levels = levels_own@;
    let ghost old_border = border@;
    let ghost last_map = levels_own@.last();
    let last_index = levels_own.len() - 1;
    let n = border.len();

    // Pass one: build the next level map.
    let mut next_map: IdMap<Identity> = IdMap::new();
    let mut i: usize = 0;
    while i < n
        invariant
            i <= n,
            n == old_border.len(),
            border@ == old_border,
            levels_own@ == old_levels,
            last_index == old_levels.len() - 1,
            last_map == old_levels.last(),
            network.wf(),
            levels_struct_wf(old_levels, root),
            next_map.wf(),
            forall|x: Identity| #[trigger]
                next_map@.dom().contains(x) <==> (old_border.subrange(0, i as int).contains(x)
                    && exists|c: Identity| #[trigger] advances(*network, last_map, x, c)),
            forall|x: Identity|
                next_map@.dom().contains(x) ==> #[trigger] advances(
                    *network,
                    last_map,
                    x,
                    next_map@[x],
                ),
        decreases n - i,
    {
        let u = border[i];
        let contacts = network.get_user_contacts(&u);
        let m = contacts.len();
        let ghost nm_pre = next_map@;
        let mut j: usize = 0;
        while j < m
            invariant
                j <= m,
                m == contacts@.len(),
                i < n,
                u == old_border[i as int],
                levels_own@ == old_levels,
                last_index == old_levels.len() - 1,
                last_map == old_levels.last(),
                network.wf(),
                levels_struct_wf(old_levels, root),
                forall|x: Identity| contacts@.contains(x) <==> network.follows(u, x),
                next_map.wf(),
                forall|x: Identity|
                    x != u ==> (#[trigger] next_map@.dom().contains(x) == nm_pre.dom().contains(x)
                        && (next_map@.dom().contains(x) ==> next_map@[x] == nm_pre[x])),
                next_map@.dom().contains(u) <==> (nm_pre.dom().contains(u) || exists|jj: int|
                    0 <= jj < j && advances(*network, last_map, u, #[trigger] contacts@[jj])),
                forall|x: Identity|
                    next_map@.dom().contains(x) ==> #[trigger] advances(
                        *network,
                        last_map,
                        x,
                        next_map@[x],
                    ),
            decreases m - j,
        {
            let c = contacts[j];
            if levels_own[last_index].contains_key(&c) {
                if network.are_users_mutuals(&u, &c) {
                    proof {
                        assert(old_levels[last_index as int].wf());
                        assert(advances(*network, last_map, u, c));
                    }
                    next_map.insert(u, c);
                }
            }
            proof {
                assert(next_map@.dom().contains(u) <==> (nm_pre.dom().contains(u) || exists|
                    jj: int,
                |
                    0 <= jj < j + 1 && advances(
                        *network,
                        last_map,
                        u,
                        #[trigger] contacts@[jj],
                    ))) by {
                    if next_map@.dom().contains(u) {
                        if !nm_pre.dom().contains(u) {
                            if advances(*network, last_map, u, c) {
                                assert(contacts@[j as int] == c);
                                assert(0 <= (j as int) < j + 1 && advances(
                                    *network,
                                    last_map,
                                    u,
                                    contacts@[j as int],
                                ));
                            } else {
                                let jj = choose|jj: int|
                                    0 <= jj < j && advances(
                                        *network,
                                        last_map,
                                        u,
                                        #[trigger] contacts@[jj],
                                    );
                                assert(0 <= jj < j + 1 && advances(
                                    *network,
                                    last_map,
                                    u,
                                    contacts@[jj],
                                ));
                            }
                        }
                    } else {
                        if exists|jj: int|
                            0 <= jj < j + 1 && advances(
                                *network,
                                last_map,
                                u,
                                #[trigger] contacts@[jj],
                            ) {
                            let jj = choose|jj: int|
                                0 <= jj < j + 1 && advances(
                                    *network,
                                    last_map,
                                    u,
                                    #[trigger] contacts@[jj],
                                );
                            if jj == j {
                                assert(last_map@.dom().contains(c) && network.mutual(u, c));
                                assert(false);
                            }
                        }
                    }
                }
            }
            j += 1;
        }
        proof {
            assert(old_border.subrange(0, i + 1) =~= old_border.subrange(0, i as int).push(u));
            assert forall|x: Identity| #[trigger]
                next_map@.dom().contains(x) <==> (old_border.subrange(0, i + 1).contains(x)
                    && exists|c: Identity| #[trigger] advances(
                    *network,
                    last_map,
                    x,
                    c,
                )) by {
                let s_new = old_border.subrange(0, i + 1);
                let s_old = old_border.subrange(0, i as int);
                assert(s_new.contains(x) == (s_old.contains(x) || x == u)) by {
                    if s_new.contains(x) {
                        let jj = choose|jj: int| 0 <= jj < s_new.len() && s_new[jj] == x;
                        if jj < i {
                            assert(s_old[jj] == x);
                        }
                    }
                    if s_old.contains(x) {
                        let jj = choose|jj: int| 0 <= jj < s_old.len() && s_old[jj] == x;
                        assert(s_new[jj] == x);
                    }
                    if x == u {
                        assert(s_new[i as int] == x);
                    }
                }
                if x == u {
                    if next_map@.dom().contains(u) {
                        if !nm_pre.dom().contains(u) {
                            let jj = choose|jj: int|
                                0 <= jj < m && advances(
                                    *network,
                                    last_map,
                                    u,
                                    #[trigger] contacts@[jj],
                                );
                            assert(advances(*network, last_map, u, contacts@[jj]));
                        } else {
                            assert(advances(*network, last_map, u, nm_pre[u]));
                        }
                    } else {
                        if exists|c: Identity| #[trigger] advances(*network, last_map, u, c) {
                            let c = choose|c: Identity| #[trigger] advances(
                                *network,
                                last_map,
                                u,
                                c,
                            );
                            assert(network.follows(u, c));
                            assert(contacts@.contains(c));
                            let jj = choose|jj: int|
                                0 <= jj < contacts@.len() && contacts@[jj] == c;
                            assert(advances(*network, last_map, u, contacts@[jj]));
                            assert(false);
                        }
                    }
                }
            }
        }
        i += 1;
    }
    proof {
        assert(old_border.subrange(0, n as int) =~= old_border);
    }

    // Pass two: reseed the border with not-yet-placed contacts.
    let mut new_border: Vec<Identity> = Vec::new();
    let mut i2: usize = 0;
    while i2 < n
        invariant
            i2 <= n,
            n == old_border.len(),
            border@ == old_border,
            levels_own@ == old_levels,
            network.wf(),
            levels_struct_wf(old_levels, root),
            next_map.wf(),
            new_border@.no_duplicates(),
            forall|y: Identity| #[trigger]
                new_border@.contains(y) <==> {
                    &&& exists|ii: int|
                        0 <= ii < i2 && network.follows(#[trigger] old_border[ii], y)
                    &&& !side_contains(old_levels, y)
                    &&& !next_map@.dom().contains(y)
                    &&& !side_contains(levels_other@, y)
                },
            forall|k: int| 0 <= k < levels_other@.len() ==> (#[trigger] levels_other@[k]).wf(),
        decreases n - i2,
    {
        let u = border[i2];
        let contacts = network.get_user_contacts(&u);
        let m = contacts.len();
        let ghost nb_pre_outer = new_border@;
        let mut j: usize = 0;
        while j < m
            invariant
                j <= m,
                m == contacts@.len(),
                i2 < n,
                u == old_border[i2 as int],
                border@ == old_border,
                levels_own@ == old_levels,
                network.wf(),
                levels_struct_wf(old_levels, root),
                next_map.wf(),
                forall|x: Identity| contacts@.contains(x) <==> network.follows(u, x),
                new_border@.no_duplicates(),
                forall|y: Identity| #[trigger]
                    new_border@.contains(y) <==> {
                        &&& (exists|ii: int|
                            0 <= ii < i2 && network.follows(#[trigger] old_border[ii], y))
                            || (exists|jj: int| 0 <= jj < j && contacts@[jj] == y)
                        &&& !side_contains(old_levels, y)
                        &&& !next_map@.dom().contains(y)
                        &&& !side_contains(levels_other@, y)
                    },
                forall|k: int| 0 <= k < levels_other@.len() ==> (#[trigger] levels_other@[k]).wf(),
            decreases m - j,
        {
            let c = contacts[j];
            let ghost nb_pre = new_border@;
            if !levels_contain(levels_own, &c) && !next_map.contains_key(&c) && !levels_contain(
                levels_other,
                &c,
            ) && !contains_id(&new_border, &c) {
                new_border.push(c);
            }
            proof {
                assert(contacts@[j as int] == c);
                assert forall|y: Identity| #[trigger]
                    new_border@.contains(y) <==> {
                        &&& (exists|ii: int|
                            0 <= ii < i2 && network.follows(#[trigger] old_border[ii], y))
                            || (exists|jj: int| 0 <= jj < j + 1 && contacts@[jj] == y)
                        &&& !side_contains(old_levels, y)
                        &&& !next_map@.dom().contains(y)
                        &&& !side_contains(levels_other@, y)
                    } by {
                    if new_border@.contains(y) {
                        if nb_pre.contains(y) {
                            assert((exists|ii: int|
                                0 <= ii < i2 && network.follows(#[trigger] old_border[ii], y))
                                || (exists|jj: int| 0 <= jj < j && contacts@[jj] == y));
                            if exists|jj: int| 0 <= jj < j && contacts@[jj] == y {
                                let jj = choose|jj: int| 0 <= jj < j && contacts@[jj] == y;
                                assert(0 <= jj < j + 1 && contacts@[jj] == y);
                            }
                        } else {
                            assert(new_border@ == nb_pre.push(c));
                            assert(y == c);
                            assert(0 <= (j as int) < j + 1 && contacts@[j as int] == y);
                        }
                    } else {
                        if ((exists|ii: int|
                            0 <= ii < i2 && network.follows(#[trigger] old_border[ii], y))
                            || (exists|jj: int| 0 <= jj < j + 1 && contacts@[jj] == y))
                            && !side_contains(old_levels, y) && !next_map@.dom().contains(y)
                            && !side_contains(levels_other@, y) {
                            assert(!nb_pre.contains(y)) by {
                                if nb_pre.contains(y) {
                                    if new_border@ == nb_pre.push(c) {
                                        let jj2 = choose|jj2: int|
                                            0 <= jj2 < nb_pre.len() && nb_pre[jj2] == y;
                                        assert(new_border@[jj2] == y);
                                    }
                                    assert(false);
                                }
                            }
                            if exists|ii: int|
                                0 <= ii < i2 && network.follows(#[trigger] old_border[ii], y) {
                                assert(false);
                            } else {
                                let jj = choose|jj: int| 0 <= jj < j + 1 && contacts@[jj] == y;
                                assert(jj == j);
                                assert(y == c);
                                assert(new_border@ == nb_pre.push(c));
                                assert(new_border@[new_border@.len() - 1] == y);
                                assert(new_border@.contains(y));
                                assert(false);
                            }
                        }
                    }
                }
            }
            j += 1;
        }
        proof {
            assert forall|y: Identity| #[trigger]
                new_border@.contains(y) <==> {
                    &&& exists|ii: int|
                        0 <= ii < i2 + 1 && network.follows(#[trigger] old_border[ii], y)
                    &&& !side_contains(old_levels, y)
                    &&& !next_map@.dom().contains(y)
                    &&& !side_contains(levels_other@, y)
                } by {
                assert((exists|jj: int| 0 <= jj < m && contacts@[jj] == y) == network.follows(
                    u,
                    y,
                )) by {
                    if exists|jj: int| 0 <= jj < m && contacts@[jj] == y {
                        let jj = choose|jj: int| 0 <= jj < m && contacts@[jj] == y;
                        assert(contacts@.contains(y)) by {
                            assert(contacts@[jj] == y);
                        }
                    }
                    if network.follows(u, y) {
                        assert(contacts@.contains(y));
                        let jj = choose|jj: int| 0 <= jj < contacts@.len() && contacts@[jj] == y;
                    }
                }
                assert(((exists|ii: int|
                    0 <= ii < i2 && network.follows(#[trigger] old_border[ii], y))
                    || network.follows(u, y)) == (exists|ii: int|
                    0 <= ii < i2 + 1 && network.follows(#[trigger] old_border[ii], y))) by {
                    if exists|ii: int|
                        0 <= ii < i2 && network.follows(#[trigger] old_border[ii], y) {
                        let ii = choose|ii: int|
                            0 <= ii < i2 && network.follows(#[trigger] old_border[ii], y);
                        assert(0 <= ii < i2 + 1 && network.follows(old_border[ii], y));
                    }
                    if network.follows(u, y) {
                        assert(0 <= (i2 as int) < i2 + 1 && network.follows(
                            old_border[i2 as int],
                            y,
                        ));
                    }
                    if exists|ii: int|
                        0 <= ii < i2 + 1 && network.follows(#[trigger] old_border[ii], y) {
                        let ii = choose|ii: int|
                            0 <= ii < i2 + 1 && network.follows(#[trigger] old_border[ii], y);
                        if ii < i2 {
                            assert(exists|ii2: int|
                                0 <= ii2 < i2 && network.follows(
                                    #[trigger] old_border[ii2],
                                    y,
                                ));
                        }
                    }
                }
            }
        }
        i2 += 1;
    }

    // Install the new level and the new border.
    let ghost nm = next_map@;
    levels_own.push(next_map);
    *border = new_border;
    proof {
        let new_levels = levels_own@;
        assert(new_levels.len() == old_levels.len() + 1);
        assert(new_levels.subrange(0, old_levels.len() as int) =~= old_levels);
        assert(forall|k: int|
            0 <= k < old_levels.len() ==> #[trigger] new_levels[k] == old_levels[k]);
        assert(new_levels.last()@ == nm);
        assert forall|y: Identity|
            side_contains(new_levels, y) <==> (side_contains(old_levels, y)
                || nm.dom().contains(y)) by {
            if side_contains(new_levels, y) {
                let k = choose|k: int|
                    0 <= k < new_levels.len() && (#[trigger] new_levels[k])@.dom().contains(y);
                if k < old_levels.len() {
                    assert(old_levels[k]@.dom().contains(y));
                }
            }
            if side_contains(old_levels, y) {
                let k = choose|k: int|
                    0 <= k < old_levels.len() && (#[trigger] old_levels[k])@.dom().contains(y);
                assert(new_levels[k]@.dom().contains(y));
            }
            if nm.dom().contains(y) {
                assert(new_levels[old_levels.len() as int]@.dom().contains(y));
            }
        }
        assert(levels_struct_wf(new_levels, root)) by {
            assert(new_levels[0] == old_levels[0]);
            assert forall|k: int, x: Identity|
                #![trigger new_levels[k]@.dom().contains(x)]
                1 <= k < new_levels.len() && new_levels[k]@.dom().contains(x) implies new_levels[k
                - 1]@.dom().contains(new_levels[k]@[x]) by {
                if k < old_levels.len() {
                    assert(old_levels[k]@.dom().contains(x));
                    assert(old_levels[k - 1]@.dom().contains(old_levels[k]@[x]));
                } else {
                    assert(nm.dom().contains(x));
                    assert(advances(*network, last_map, x, nm[x]));
                    assert(last_map == old_levels[k - 1]);
                }
            }
            assert forall|k1: int, k2: int, x: Identity|
                #![trigger new_levels[k1]@.dom().contains(x), new_levels[k2]@.dom().contains(x)]
                0 <= k1 < k2 < new_levels.len() && new_levels[k1]@.dom().contains(x) implies
                !new_levels[k2]@.dom().contains(x) by {
                if k2 < old_levels.len() {
                    assert(old_levels[k1]@.dom().contains(x) ==> !old_levels[k2]@.dom().contains(
                        x,
                    ));
                } else {
                    assert(new_levels[k1] == old_levels[k1]);
                    if new_levels[k2]@.dom().contains(x) {
                        assert(nm.dom().contains(x));
                        assert(old_border.contains(x));
                        assert(!side_contains(old_levels, x));
                        assert(old_levels[k1]@.dom().contains(x) ==> side_contains(
                            old_levels,
                            x,
                        ));
                        assert(false);
                    }
                }
            }
        }
        if levels_edges_ok(old_levels, *network) {
            assert(levels_edges_ok(new_levels, *network)) by {
                assert forall|k: int, x: Identity|
                    #![trigger new_levels[k]@.dom().contains(x)]
                    1 <= k < new_levels.len() && new_levels[k]@.dom().contains(x) implies
                    network.mutual(x, new_levels[k]@[x]) by {
                    if k < old_levels.len() {
                        assert(old_levels[k]@.dom().contains(x));
                    } else {
                        assert(advances(*network, last_map, x, nm[x]));
                    }
                }
            }
        }
        assert(border_fresh(border@, new_levels)) by {
            assert forall|y: Identity| #[trigger] border@.contains(y) implies !side_contains(
                new_levels,
                y,
            ) by {
            }
        }
        assert forall|y: Identity|
            border@.contains(y) <==> {
                &&& exists|x: Identity| #[trigger] old_border.contains(x) && network.follows(x, y)
                &&& !side_contains(new_levels, y)
                &&& !side_contains(levels_other@, y)
            } by {
            if border@.contains(y) {
                let ii = choose|ii: int|
                    0 <= ii < old_border.len() && network.follows(#[trigger] old_border[ii], y);
                assert(old_border.contains(old_border[ii])) by {
                    assert(old_border[ii] == old_border[ii]);
                }
                assert(old_border.contains(old_border[ii]) && network.follows(
                    old_border[ii],
                    y,
                ));
            } else {
                if (exists|x: Identity| #[trigger] old_border.contains(x) && network.follows(
                    x,
                    y,
                )) && !side_contains(new_levels, y) && !side_contains(levels_other@, y) {
                    let x = choose|x: Identity| #[trigger]
                        old_border.contains(x) && network.follows(x, y);
                    let ii = choose|ii: int|
                        0 <= ii < old_border.len() && old_border[ii] == x;
                    assert(0 <= ii < old_border.len() && network.follows(old_border[ii], y));
                    assert(!side_contains(old_levels, y) && !nm.dom().contains(y));
                    assert(false);
                }
            }
        }
    }
}

impl SepSearch {
    /// The border identities of the side about to expand that still
    /// lack a follow list in the graph: the caller should fetch their
    /// contact lists and merge them before the next [`Self::step`].
    pub fn pending_border(&self, network: &Network) -> (r: Vec<Identity>)
        requires
            network.wf(),
        ensures
            forall|x: Identity|
                r@.contains(x) <==> ((if self.expands_side_one() {
                    self.border1_seq()
                } else {
                    self.border2_seq()
                }).contains(x) && !network.last_update_map().dom().contains(x)),
    {
        let border = if self.current_distance % 2 == 0 {
            &self.border1
        } else {
            &self.border2
        };
        let ghost bseq = border@;
        let n = border.len();
        let mut r: Vec<Identity> = Vec::new();
        let mut i: usize = 0;
        while i < n
            invariant
                i <= n,
                n == bseq.len(),
                border@ == bseq,
                network.wf(),
                forall|x: Identity|
                    r@.contains(x) <==> (bseq.subrange(0, i as int).contains(x)
                        && !network.last_update_map().dom().contains(x)),
            decreases n - i,
        {
            let u = border[i];
            let ghost r_pre = r@;
            match network.does_user_follow(&u) {
                Some(_) => {},
                None => {
                    r.push(u);
                },
            }
            proof {
                assert(bseq.subrange(0, i + 1) =~= bseq.subrange(0, i as int).push(u));
                assert forall|x: Identity|
                    r@.contains(x) == (bseq.subrange(0, i + 1).contains(x)
                        && !network.last_update_map().dom().contains(x)) by {
                    if r@.contains(x) {
                        if r_pre.contains(x) {
                            assert(bseq.subrange(0, i as int).contains(x));
                            let j = choose|j: int|
                                0 <= j < i && bseq.subrange(0, i as int)[j] == x;
                            assert(bseq.subrange(0, i + 1)[j] == x);
                        } else {
                            assert(r@ == r_pre.push(u));
                            assert(x == u);
                            assert(bseq.subrange(0, i + 1)[i as int] == x);
                        }
                    }
                    if bseq.subrange(0, i + 1).contains(x)
                        && !network.last_update_map().dom().contains(x) {
                        let j = choose|j: int|
                            0 <= j < i + 1 && (#[trigger] bseq.subrange(0, i + 1)[j]) == x;
                        if j < i {
                            assert(bseq.subrange(0, i as int)[j] == x);
                            assert(r_pre.contains(x));
                            if r@ != r_pre {
                                let j2 = choose|j2: int|
                                    0 <= j2 < r_pre.len() && r_pre[j2] == x;
                                assert(r@[j2] == x);
                            }
                        } else {
                            assert(x == u);
                            assert(r@[r@.len() - 1] == x);
                        }
                    }
                }
            }
            i += 1;
        }
        proof {
            assert(bseq.subrange(0, n as int) =~= bseq);
        }
        r
    }

    /// Reconstructs the connecting path for a meeting identity, walking
    /// its two backpointers down to the respective targets.
    fn build_path(&self, network: &Network, user_match: Identity, back1: Identity, back2: Identity)
        -> (p: Vec<Identity>)
        requires
            network.wf(),
            self.wf(),
            self.levels1@.last()@.dom().contains(user_match),
            self.levels2@.last()@.dom().contains(user_match),
            back1 == self.levels1@.last()@[user_match],
            back2 == self.levels2@.last()@[user_match],
        ensures
            p@.len() == self.dist() + 1,
            p@[0] == self.t1(),
            p@[p@.len() - 1] == self.t2(),
            self.edges_ok(*network) ==> is_mutual_chain(*network, p@, self.t1(), self.t2()),
    {
        let ghost g = *network;
        let ghost lv1 = self.levels1@;
        let ghost lv2 = self.levels2@;
        let ghost len1 = lv1.len();
        let ghost len2 = lv2.len();
        let d = self.current_distance;
        proof {
            assert(len1 + len2 == d + 2);
        }
        if d == 0 {
            let mut p: Vec<Identity> = Vec::new();
            p.push(self.target1);
            proof {
                assert(len1 == 1 && len2 == 1);
                assert(lv1.last() == lv1[0] && lv2.last() == lv2[0]);
                assert(user_match == self.target1 && user_match == self.target2);
                assert(p@ =~= seq![self.target1]);
            }
            p
        } else if d == 1 {
            let mut p: Vec<Identity> = Vec::new();
            p.push(self.target1);
            p.push(self.target2);
            proof {
                assert(len1 == 2 && len2 == 1);
                assert(lv2.last() == lv2[0]);
                assert(user_match == self.target2);
                assert(lv1.last() == lv1[1]);
                assert(lv1[0]@.dom().contains(back1)) by {
                    assert(lv1[1]@.dom().contains(user_match));
                }
                assert(back1 == self.target1);
                assert(p@.len() == 2);
                assert(p@[0] == self.target1 && p@[1] == self.target2);
                if self.edges_ok(g) {
                    assert(g.mutual(user_match, back1)) by {
                        assert(lv1[1]@.dom().contains(user_match));
                    }
                    assert(g.mutual(self.target1, self.target2));
                    assert(is_mutual_chain(g, p@, self.t1(), self.t2()));
                }
            }
            p
        } else if d == 2 {
            let mut p: Vec<Identity> = Vec::new();
            p.push(self.target1);
            p.push(user_match);
            p.push(self.target2);
            proof {
                assert(len1 == 2 && len2 == 2);
                assert(lv1.last() == lv1[1] && lv2.last() == lv2[1]);
                assert(lv1[0]@.dom().contains(back1)) by {
                    assert(lv1[1]@.dom().contains(user_match));
                }
                assert(back1 == self.target1);
                assert(lv2[0]@.dom().contains(back2)) by {
                    assert(lv2[1]@.dom().contains(user_match));
                }
                assert(back2 == self.target2);
                assert(p@.len() == 3);
                assert(p@[0] == self.target1 && p@[1] == user_match && p@[2] == self.target2);
                if self.edges_ok(g) {
                    assert(g.mutual(user_match, back1)) by {
                        assert(lv1[1]@.dom().contains(user_match));
                    }
                    assert(g.mutual(user_match, back2)) by {
                        assert(lv2[1]@.dom().contains(user_match));
                    }
                    assert forall|k: int| 0 <= k < p@.len() - 1 implies g.mutual(
                        p@[k],
                        #[trigger] p@[k + 1],
                    ) by {
                        if k == 0 {
                            assert(g.mutual(self.target1, user_match));
                        } else {
                            assert(g.mutual(user_match, self.target2));
                        }
                    }
                }
            }
            p
        } else {
            proof {
                assert(d >= 3);
                assert(len1 >= 3 && len2 >= 2);
                assert(lv1.last() == lv1[len1 - 1]);
                assert(lv1[len1 - 2]@.dom().contains(back1)) by {
                    assert(lv1[len1 - 1]@.dom().contains(user_match));
                }
                assert(lv2.last() == lv2[len2 - 1]);
                assert(lv2[len2 - 2]@.dom().contains(back2)) by {
                    assert(lv2[len2 - 1]@.dom().contains(user_match));
                }
            }
            let chain1 = backtrack(&self.levels1, back1, Ghost(self.target1));
            let chain2 = if self.levels2.len() >= 3 {
                backtrack(&self.levels2, back2, Ghost(self.target2))
            } else {
                Vec::new()
            };
            proof {
                if len2 == 2 {
                    assert(lv2[0]@.dom().contains(back2)) by {
                        assert(lv2[len2 - 1]@.dom().contains(user_match));
                    }
                    assert(back2 == self.target2);
                }
            }
            let ghost l1: int = chain1@.len() as int;
            let ghost l2: int = chain2@.len() as int;
            let mut p: Vec<Identity> = Vec::new();
            p.push(self.target1);
            let c1len = chain1.len();
            let mut j: usize = 0;
            while j < c1len
                invariant
                    j <= c1len,
                    c1len == l1,
                    chain1@.len() == l1,
                    p@.len() == 1 + j,
                    p@[0] == self.target1,
                    forall|jj: int|
                        0 <= jj < j ==> (#[trigger] p@[1 + jj]) == chain1@[l1 - 1 - jj],
                decreases c1len - j,
            {
                p.push(chain1[c1len - 1 - j]);
                j += 1;
            }
            p.push(user_match);
            let c2len = chain2.len();
            let mut j2: usize = 0;
            while j2 < c2len
                invariant
                    j2 <= c2len,
                    c2len == l2,
                    chain2@.len() == l2,
                    c1len == l1,
                    chain1@.len() == l1,
                    p@.len() == 2 + l1 + j2,
                    p@[0] == self.target1,
                    forall|jj: int|
                        0 <= jj < l1 ==> (#[trigger] p@[1 + jj]) == chain1@[l1 - 1 - jj],
                    p@[1 + l1] == user_match,
                    forall|jj: int|
                        0 <= jj < j2 ==> (#[trigger] p@[2 + l1 + jj]) == chain2@[jj],
                decreases c2len - j2,
            {
                p.push(chain2[j2]);
                j2 += 1;
            }
            let ghost p_mid = p@;
            p.push(self.target2);
            proof {
                assert(p@ == p_mid.push(self.target2));
                assert(forall|idx: int|
                    0 <= idx < p_mid.len() ==> #[trigger] p@[idx] == p_mid[idx]);
                assert(p@[0] == self.target1);
                assert(forall|jj: int|
                    0 <= jj < l1 ==> (#[trigger] p@[1 + jj]) == chain1@[l1 - 1 - jj]) by {
                    assert(forall|jj: int|
                        0 <= jj < l1 ==> (#[trigger] p_mid[1 + jj]) == chain1@[l1 - 1 - jj]);
                }
                assert(p@[1 + l1] == user_match) by {
                    assert(p_mid[1 + l1] == user_match);
                }
                assert(forall|jj: int|
                    0 <= jj < l2 ==> (#[trigger] p@[2 + l1 + jj]) == chain2@[jj]) by {
                    assert(forall|jj: int|
                        0 <= jj < l2 ==> (#[trigger] p_mid[2 + l1 + jj]) == chain2@[jj]);
                }
                assert(l1 == len1 - 2);
                assert(l2 == if len2 >= 3 {
                    len2 - 2
                } else {
                    0
                });
                assert(p@.len() == 3 + l1 + l2);
                assert(p@.len() == d + 1);
                assert(p@[0] == self.target1);
                assert(p@[p@.len() - 1] == self.target2);
                if self.edges_ok(g) {
                assert forall|k: int| 0 <= k < p@.len() - 1 implies g.mutual(
                    p@[k],
                    #[trigger] p@[k + 1],
                ) by {
                    if k == 0 {
                        // target 1 to the level-1 identity of side 1
                        let jj: int = 0;
                        assert(p@[1 + jj] == chain1@[l1 - 1 - jj]);
                        let x = chain1@[l1 - 1];
                        assert(p@[1] == x);
                        assert(lv1[1]@.dom().contains(x)) by {
                            assert(lv1[len1 - 2 - (l1 - 1)]@.dom().contains(chain1@[l1 - 1]));
                        }
                        assert(g.mutual(x, lv1[1]@[x]));
                        assert(lv1[1]@[x] == self.target1);
                    } else if k < l1 {
                        // within the reversed side-1 chain
                        let jja: int = k - 1;
                        let jjb: int = k;
                        assert(p@[1 + jja] == chain1@[l1 - 1 - jja]);
                        assert(p@[1 + jjb] == chain1@[l1 - 1 - jjb]);
                        assert(p@[k] == chain1@[l1 - k]);
                        assert(p@[k + 1] == chain1@[l1 - k - 1]);
                        assert(lv1[len1 - 2 - (l1 - k - 1)]@[chain1@[l1 - k - 1]] == chain1@[l1
                            - k]);
                        assert(lv1[len1 - 2 - (l1 - k - 1)]@.dom().contains(chain1@[l1 - k - 1]));
                        assert(g.mutual(chain1@[l1 - k - 1], chain1@[l1 - k]));
                    } else if k == l1 {
                        // the side-1 chain head is the meeting identity's backpointer
                        let jj: int = l1 - 1;
                        assert(p@[1 + jj] == chain1@[l1 - 1 - jj]);
                        assert(p@[k] == chain1@[0]);
                        assert(chain1@[0] == back1);
                        assert(p@[k + 1] == user_match);
                        assert(g.mutual(user_match, back1)) by {
                            assert(lv1[len1 - 1]@.dom().contains(user_match));
                        }
                    } else if k == l1 + 1 {
                        // meeting identity to side 2
                        assert(p@[k] == user_match);
                        assert(g.mutual(user_match, back2)) by {
                            assert(lv2[len2 - 1]@.dom().contains(user_match));
                        }
                        if l2 > 0 {
                            let jj: int = 0;
                            assert(p@[2 + l1 + jj] == chain2@[jj]);
                            assert(p@[k + 1] == chain2@[0]);
                            assert(chain2@[0] == back2);
                        } else {
                            assert(p@[k + 1] == self.target2);
                            assert(back2 == self.target2);
                        }
                    } else if k < l1 + 1 + l2 {
                        // within the side-2 chain
                        let jj = k - l1 - 2;
                        let jjb = k - l1 - 1;
                        assert(p@[2 + l1 + jj] == chain2@[jj]);
                        assert(p@[2 + l1 + jjb] == chain2@[jjb]);
                        assert(p@[k] == chain2@[jj]);
                        assert(p@[k + 1] == chain2@[jj + 1]);
                        assert(lv2[len2 - 2 - jj]@[chain2@[jj]] == chain2@[jj + 1]);
                        assert(lv2[len2 - 2 - jj]@.dom().contains(chain2@[jj]));
                        assert(g.mutual(chain2@[jj], chain2@[jj + 1]));
                    } else {
                        // the side-2 chain tail back to target 2
                        assert(k == l1 + 1 + l2 && l2 > 0);
                        let jj: int = l2 - 1;
                        assert(p@[2 + l1 + jj] == chain2@[jj]);
                        assert(p@[k] == chain2@[l2 - 1]);
                        assert(p@[k + 1] == self.target2);
                        let x = chain2@[l2 - 1];
                        assert(lv2[1]@.dom().contains(x)) by {
                            assert(lv2[len2 - 2 - (l2 - 1)]@.dom().contains(chain2@[l2 - 1]));
                        }
                        assert(g.mutual(x, lv2[1]@[x]));
                        assert(lv2[1]@[x] == self.target2);
                    }
                }
                }
            }
            p
        }
    }

    /// Runs one round: first the collision check over the two most
    /// recently completed level maps — a shared key means the frontiers
    /// met, and the separation degree with a connecting mutual chain is
    /// reconstructed from the backpointers. Otherwise the side whose
    /// turn it is expands by one level; when that exhausts the round
    /// cap the search fails.
    #[verifier::rlimit(50)]
    pub fn step(&mut self, network: &Network) -> (r: SearchStep)
        requires
            network.wf(),
            old(self).wf(),
        ensures
            r matches SearchStep::Found(d, p) ==> {
                &&& *final(self) == *old(self)
                &&& d == old(self).dist()
                &&& p@.len() == d + 1
                &&& p@[0] == old(self).t1()
                &&& p@[p@.len() - 1] == old(self).t2()
                &&& old(self).edges_ok(*network) ==> is_mutual_chain(
                    *network,
                    p@,
                    old(self).t1(),
                    old(self).t2(),
                )
            },
            (r is Found) == old(self).collided(),
            r is NotFound ==> {
                &&& !old(self).collided()
                &&& old(self).dist() + 1 > old(self).cap()
            },
            r is Continue ==> {
                &&& !old(self).collided()
                &&& old(self).dist() + 1 <= old(self).cap()
                &&& final(self).wf()
                &&& (old(self).edges_ok(*network) ==> final(self).edges_ok(*network))
                &&& final(self).dist() == old(self).dist() + 1
                &&& final(self).t1() == old(self).t1()
                &&& final(self).t2() == old(self).t2()
                &&& final(self).cap() == old(self).cap()
            },
            (r is Continue) && old(self).expands_side_one() ==> final(self).levels2_seq() == old(
                self,
            ).levels2_seq() && final(self).border2_seq() == old(self).border2_seq(),
            (r is Continue) && old(self).expands_side_one() ==> final(self).levels1_seq().len()
                == old(self).levels1_seq().len() + 1,
            (r is Continue) && old(self).expands_side_one() ==> expanded_level_ok(
                *network,
                old(self).border1_seq(),
                old(self).levels1_seq().last(),
                final(self).levels1_seq().last(),
            ),
            (r is Continue) && old(self).expands_side_one() ==> reseeded_border_ok(
                *network,
                old(self).border1_seq(),
                final(self).levels1_seq(),
                final(self).levels2_seq(),
                final(self).border1_seq(),
            ),
            (r is Continue) && !old(self).expands_side_one() ==> final(self).levels1_seq() == old(
                self,
            ).levels1_seq() && final(self).border1_seq() == old(self).border1_seq(),
            (r is Continue) && !old(self).expands_side_one() ==> final(self).levels2_seq().len()
                == old(self).levels2_seq().len() + 1,
            (r is Continue) && !old(self).expands_side_one() ==> expanded_level_ok(
                *network,
                old(self).border2_seq(),
                old(self).levels2_seq().last(),
                final(self).levels2_seq().last(),
            ),
            (r is Continue) && !old(self).expands_side_one() ==> reseeded_border_ok(
                *network,
                old(self).border2_seq(),
                final(self).levels2_seq(),
                final(self).levels1_seq(),
                final(self).border2_seq(),
            ),
    {
        let len1 = self.levels1.len();
        let len2 = self.levels2.len();
        let d = self.current_distance;
        let mut inter = intersection_map(&self.levels1[len1 - 1], &self.levels2[len2 - 1]);
        let ghost last1 = self.levels1@.last();
        let ghost last2 = self.levels2@.last();
        proof {
            assert(self.levels1@[len1 - 1] == last1);
            assert(self.levels2@[len2 - 1] == last2);
        }
        match inter.next() {
            Some((user_match, back1, back2)) => {
                proof {
                    assert(inter.full_items()[0] == (user_match, back1, back2));
                    assert(crate::map_intersect::tri_keys(inter.full_items()).contains(
                        user_match,
                    )) by {
                        assert(crate::map_intersect::tri_keys(inter.full_items())[0]
                            == user_match);
                    }
                    assert(last1@.dom().contains(user_match));
                    assert(last2@.dom().contains(user_match));
                    assert(back1 == last1@[user_match]);
                    assert(back2 == last2@[user_match]);
                    assert(self.collided());
                }
                let path = self.build_path(network, user_match, back1, back2);
                SearchStep::Found(d, path)
            },
            None => {
                proof {
                    if self.collided() {
                        let m = choose|m: Identity| #![auto]
                            self.levels1@.last()@.dom().contains(m)
                                && self.levels2@.last()@.dom().contains(m);
                        assert(crate::map_intersect::tri_keys(inter.full_items()).contains(m));
                        let j = choose|j: int|
                            0 <= j < crate::map_intersect::tri_keys(inter.full_items()).len()
                                && crate::map_intersect::tri_keys(inter.full_items())[j] == m;
                        assert(inter.full_items().len() > 0);
                        assert(false);
                    }
                }
                if self.current_distance == self.round_cap {
                    // a completed round would push the counter past the cap
                    return SearchStep::NotFound;
                }
                let ghost pre = *self;
                if self.current_distance % 2 == 0 {
                    expand(
                        &mut self.levels1,
                        &mut self.border1,
                        &self.levels2,
                        network,
                        Ghost(self.target1),
                    );
                    proof {
                        assert(expanded_level_ok(
                            *network,
                            pre.border1@,
                            pre.levels1@.last(),
                            self.levels1@.last(),
                        ));
                        assert(reseeded_border_ok(
                            *network,
                            pre.border1@,
                            self.levels1@,
                            self.levels2@,
                            self.border1@,
                        ));
                    }
                } else {
                    expand(
                        &mut self.levels2,
                        &mut self.border2,
                        &self.levels1,
                        network,
                        Ghost(self.target2),
                    );
                    proof {
                        assert(expanded_level_ok(
                            *network,
                            pre.border2@,
                            pre.levels2@.last(),
                            self.levels2@.last(),
                        ));
                        assert(reseeded_border_ok(
                            *network,
                            pre.border2@,
                            self.levels2@,
                            self.levels1@,
                            self.border2@,
                        ));
                    }
                }
                self.current_distance = self.current_distance + 1;
                proof {
                    let dd = pre.current_distance as int;
                    assert(self.current_distance == dd + 1);
                    if pre.expands_side_one() {
                        assert(dd % 2 == 0);
                        assert((dd + 1) / 2 == dd / 2);
                        assert((dd + 2) / 2 == dd / 2 + 1);
                        assert(self.levels1@.len() == 1 + (dd + 1) / 2 + 1);
                        assert(self.levels1@.len() == 1 + (dd + 1 + 1) / 2);
                        assert(self.levels2@.len() == 1 + dd / 2);
                        assert(self.levels2@.len() == 1 + (dd + 1) / 2);
                        assert(levels_struct_wf(self.levels1@, self.target1));
                        assert(levels_struct_wf(self.levels2@, self.target2));
                        if pre.edges_ok(*network) {
                            assert(levels_edges_ok(self.levels1@, *network));
                            assert(levels_edges_ok(self.levels2@, *network));
                        }
                        assert(border_fresh(self.border2@, self.levels2@));
                    } else {
                        assert(dd % 2 == 1);
                        assert((dd + 1) / 2 == dd / 2 + 1);
                        assert((dd + 2) / 2 == dd / 2 + 1);
                        assert(self.levels2@.len() == 1 + dd / 2 + 1);
                        assert(self.levels2@.len() == 1 + (dd + 1) / 2);
                        assert(self.levels1@.len() == 1 + (dd + 1) / 2);
                        assert(self.levels1@.len() == 1 + (dd + 1 + 1) / 2);
                        assert(levels_struct_wf(self.levels1@, self.target1));
                        assert(levels_struct_wf(self.levels2@, self.target2));
                        if pre.edges_ok(*network) {
                            assert(levels_edges_ok(self.levels1@, *network));
                            assert(levels_edges_ok(self.levels2@, *network));
                        }
                        assert(border_fresh(self.border1@, self.levels1@));
                    }
                    assert(self.border1@.no_duplicates());
                    assert(self.border2@.no_duplicates());
                }
                {
                    proof {
                        assert(self.current_distance <= self.round_cap);
                        assert(self.wf());
                        if pre.edges_ok(*network) {
                            assert(self.edges_ok(*network));
                        }
                        if pre.expands_side_one() {
                            assert(self.levels2@ == pre.levels2@);
                            assert(self.border2@ == pre.border2@);
                            assert(self.levels1@.len() == pre.levels1@.len() + 1);
                        } else {
                            assert(self.levels1@ == pre.levels1@);
                            assert(self.border1@ == pre.border1@);
                            assert(self.levels2@.len() == pre.levels2@.len() + 1);
                        }
                    }
                    SearchStep::Continue
                }
            },
        }
    }
}

/// Finds the degree of separation between two targets and a connecting
/// mutual-follow path, over the contact lists already merged into the
/// graph.
///
/// The result is exact where the premises pin it down: two equal
/// targets are at distance 0; two distinct confirmed mutuals are at
/// distance 1; a returned path is always a mutual chain of length equal
/// to the degree; and when no mutual chain exists at all, the search
/// fails with `NotFound`. A target without a recorded contact list
/// fails with `MissingContactList` first.
pub fn find_sep_degrees(
    network: &mut Network,
    target_1: Identity,
    target_2: Identity,
    round_cap: u32,
) -> (r: Result<(u32, Vec<Identity>), SepDegreeError>)
    requires
        old(network).wf(),
        round_cap >= 1,
    ensures
        final(network).wf(),
        old(network).id_seq().is_prefix_of(final(network).id_seq()),
        forall|x: Identity, y: Identity|
            final(network).follows(x, y) == old(network).follows(x, y),
        final(network).last_update_map() == old(network).last_update_map(),
        final(network).metadata_map() == old(network).metadata_map(),
        forall|x: Identity|
            final(network).has_user(x) <==> old(network).has_user(x) || x == target_1 || x
                == target_2,
        !old(network).last_update_map().dom().contains(target_1) ==> r == Err::<
            (u32, Vec<Identity>),
            SepDegreeError,
        >(SepDegreeError::MissingContactList(target_1)),
        old(network).last_update_map().dom().contains(target_1) && !old(
            network,
        ).last_update_map().dom().contains(target_2) ==> r == Err::<
            (u32, Vec<Identity>),
            SepDegreeError,
        >(SepDegreeError::MissingContactList(target_2)),
        old(network).last_update_map().dom().contains(target_1) && old(
            network,
        ).last_update_map().dom().contains(target_2) ==> ((r is Ok) || r == Err::<
            (u32, Vec<Identity>),
            SepDegreeError,
        >(SepDegreeError::NotFound)),
        r matches Ok(dp) ==> {
            &&& dp.0 <= round_cap
            &&& dp.1@.len() == dp.0 + 1
            &&& is_mutual_chain(*old(network), dp.1@, target_1, target_2)
        },
        r matches Ok(dp) && dp.0 >= 1 ==> target_1 != target_2,
        r matches Ok(dp) && dp.0 >= 2 ==> !old(network).mutual(target_1, target_2),
        old(network).last_update_map().dom().contains(target_1) && old(
            network,
        ).last_update_map().dom().contains(target_2) && target_1 == target_2 ==> (r matches Ok(dp)
            && dp.0 == 0 && dp.1@ == seq![target_1]),
        old(network).last_update_map().dom().contains(target_1) && old(
            network,
        ).last_update_map().dom().contains(target_2) && target_1 != target_2 && old(
            network,
        ).mutual(target_1, target_2) ==> (r matches Ok(dp) && dp.0 == 1 && dp.1@
            == seq![target_1, target_2]),
        old(network).last_update_map().dom().contains(target_1) && old(
            network,
        ).last_update_map().dom().contains(target_2) && (forall|pp: Seq<Identity>|
            !is_mutual_chain(*old(network), pp, target_1, target_2)) ==> r == Err::<
            (u32, Vec<Identity>),
            SepDegreeError,
        >(SepDegreeError::NotFound),
{
    let ghost pre = *old(network);
    let mut search = match SepSearch::new(network, target_1, target_2, round_cap) {
        Ok(s) => s,
        Err(e) => {
            return Err(e);
        },
    };
    let ghost net0 = *network;
    proof {
        assert(pre.last_update_map().dom().contains(target_1));
        assert(pre.last_update_map().dom().contains(target_2));
        if target_1 != target_2 && pre.mutual(target_1, target_2) {
            assert(net0.follows(target_1, target_2) == pre.follows(target_1, target_2));
            assert(search.border1_seq().contains(target_2));
        }
    }
    loop
        invariant
            network.wf(),
            *network == net0,
            pre == *old(network),
            pre.id_seq().is_prefix_of(net0.id_seq()),
            forall|x: Identity, y: Identity| net0.follows(x, y) == pre.follows(x, y),
            net0.last_update_map() == pre.last_update_map(),
            net0.metadata_map() == pre.metadata_map(),
            forall|x: Identity|
                net0.has_user(x) <==> pre.has_user(x) || x == target_1 || x == target_2,
            pre.last_update_map().dom().contains(target_1),
            pre.last_update_map().dom().contains(target_2),
            round_cap >= 1,
            search.wf(),
            search.edges_ok(net0),
            search.t1() == target_1,
            search.t2() == target_2,
            search.cap() == round_cap,
            target_1 == target_2 ==> search.collided() && search.dist() == 0,
            (target_1 != target_2 && pre.mutual(target_1, target_2)) ==> ((search.dist() == 0
                && search.border1_seq().contains(target_2)) || (search.dist() == 1
                && search.collided())),
        decreases search.cap() - search.dist(),
    {
        let ghost s_pre = search;
        match search.step(network) {
            SearchStep::Found(dg, path) => {
                proof {
                    assert(is_mutual_chain(pre, path@, target_1, target_2)) by {
                        assert forall|k: int| 0 <= k < path@.len() - 1 implies pre.mutual(
                            path@[k],
                            #[trigger] path@[k + 1],
                        ) by {
                            assert(net0.mutual(path@[k], path@[k + 1]));
                            assert(net0.follows(path@[k], path@[k + 1]) == pre.follows(
                                path@[k],
                                path@[k + 1],
                            ));
                            assert(net0.follows(path@[k + 1], path@[k]) == pre.follows(
                                path@[k + 1],
                                path@[k],
                            ));
                        }
                    }
                    if target_1 != target_2 && pre.mutual(target_1, target_2) {
                        if s_pre.dist() == 0 {
                            assert(s_pre.collided());
                            let m = choose|m: Identity| #![auto]
                                s_pre.levels1_seq().last()@.dom().contains(m)
                                    && s_pre.levels2_seq().last()@.dom().contains(m);
                            assert(s_pre.levels1_seq().last() == s_pre.levels1_seq()[0]);
                            assert(s_pre.levels2_seq().last() == s_pre.levels2_seq()[0]);
                            assert(m == target_1 && m == target_2);
                            assert(false);
                        }
                        assert(dg == 1);
                        assert(path@.len() == 2);
                        assert(path@ =~= seq![target_1, target_2]);
                    }
                    if target_1 == target_2 {
                        assert(dg == 0);
                        assert(path@ =~= seq![target_1]);
                    }
                    assert(dg >= 1 ==> target_1 != target_2);
                    assert(dg >= 2 ==> !pre.mutual(target_1, target_2));
                }
                return Ok((dg, path));
            },
            SearchStep::NotFound => {
                proof {
                    if target_1 == target_2 {
                        assert(s_pre.collided());
                        assert(false);
                    }
                    if target_1 != target_2 && pre.mutual(target_1, target_2) {
                        assert(!s_pre.collided());
                        assert(s_pre.dist() == 0);
                        assert(s_pre.dist() + 1 > round_cap);
                        assert(false);
                    }
                }
                return Err(SepDegreeError::NotFound);
            },
            SearchStep::Continue => {
                proof {
                    if target_1 == target_2 {
                        assert(s_pre.collided());
                        assert(false);
                    }
                    if target_1 != target_2 && pre.mutual(target_1, target_2) {
                        assert(!s_pre.collided());
                        assert(s_pre.dist() == 0 && s_pre.border1_seq().contains(target_2));
                        assert(s_pre.expands_side_one());
                        assert(s_pre.levels1_seq().last() == s_pre.levels1_seq()[0]);
                        assert(s_pre.levels1_seq()[0]@.dom().contains(target_1));
                        assert(net0.mutual(target_2, target_1)) by {
                            assert(net0.follows(target_1, target_2) == pre.follows(
                                target_1,
                                target_2,
                            ));
                            assert(net0.follows(target_2, target_1) == pre.follows(
                                target_2,
                                target_1,
                            ));
                        }
                        assert(advances(
                            net0,
                            s_pre.levels1_seq().last(),
                            target_2,
                            target_1,
                        ));
                        assert(search.levels1_seq().last()@.dom().contains(target_2));
                        assert(search.levels2_seq().last() == s_pre.levels2_seq().last());
                        assert(s_pre.levels2_seq().last() == s_pre.levels2_seq()[0]);
                        assert(s_pre.levels2_seq()[0]@.dom().contains(target_2));
                        assert(search.collided()) by {
                            assert(search.levels1_seq().last()@.dom().contains(target_2)
                                && search.levels2_seq().last()@.dom().contains(target_2));
                        }
                        assert(search.dist() == 1);
                    }
                }
            },
        }
    }
}

/// Checks a previously found path against the graph's current data:
/// true exactly when every consecutive pair of path members is still
/// confirmed mutual. The caller re-fetches and merges each hop's
/// contact list first; a false answer means the path went stale and the
/// search should be re-run.
pub fn verify_path(network: &Network, path: &Vec<Identity>) -> (b: bool)
    requires
        network.wf(),
    ensures
        b == (forall|k: int|
            0 <= k < path@.len() - 1 ==> network.mutual(path@[k], #[trigger] path@[k + 1])),
{
    let n = path.len();
    if n == 0 {
        return true;
    }
    let mut k: usize = 0;
    while k < n - 1
        invariant
            n == path@.len(),
            n >= 1,
            0 <= k <= n - 1,
            network.wf(),
            forall|kk: int| 0 <= kk < k ==> network.mutual(path@[kk], #[trigger] path@[kk + 1]),
        decreases n - 1 - k,
    {
        if !network.are_users_mutuals(&path[k], &path[k + 1]) {
            return false;
        }
        k += 1;
    }
    true
}

/// Picks the two search targets out of the identities found in a
/// message that is expected to carry exactly `argnum` of them: too many
/// or too few fail. A request of two identities names the targets
/// directly; a longer request names the mentioned bot first and the two
/// targets after it.
pub fn select_message_targets(vals: &Vec<Identity>, argnum: usize) -> (r: Result<
    (Identity, Identity),
    SepDegreeError,
>)
    requires
        argnum >= 2,
    ensures
        vals@.len() > argnum ==> r == Err::<(Identity, Identity), SepDegreeError>(
            SepDegreeError::TooMuchArguments,
        ),
        vals@.len() < argnum ==> r == Err::<(Identity, Identity), SepDegreeError>(
            SepDegreeError::TooFewArguments,
        ),
        vals@.len() == argnum && argnum == 2 ==> r == Ok::<(Identity, Identity), SepDegreeError>(
            (vals@[0], vals@[1]),
        ),
        vals@.len() == argnum && argnum >= 3 ==> r == Ok::<(Identity, Identity), SepDegreeError>(
            (vals@[1], vals@[2]),
        ),
{
    if vals.len() > argnum {
        Err(SepDegreeError::TooMuchArguments)
    } else if vals.len() < argnum {
        Err(SepDegreeError::TooFewArguments)
    } else if argnum == 2 {
        Ok((vals[0], vals[1]))
    } else {
        Ok((vals[1], vals[2]))
    }
}

/// The identity's contacts, less the identity itself: duplicate-free,
/// and exactly the identities the graph says it follows, minus itself.
fn contacts_without(network: &Network, target: &Identity) -> (r: Vec<Identity>)
    requires
        network.wf(),
    ensures
        r@.no_duplicates(),
        forall|x: Identity|
            r@.contains(x) <==> (network.follows(*target, x) && x != *target),
{
    let contacts = network.get_user_contacts(target);
    let n = contacts.len();
    let mut r: Vec<Identity> = Vec::new();
    let mut i: usize = 0;
    while i < n
        invariant
            i <= n,
            n == contacts@.len(),
            contacts@.no_duplicates(),
            r@.no_duplicates(),
            forall|x: Identity|
                r@.contains(x) <==> (contacts@.subrange(0, i as int).contains(x) && x != *target),
        decreases n - i,
    {
        let c = contacts[i];
        let ghost r_pre = r@;
        if !(c == *target) {
            proof {
                if r@.contains(c) {
                    assert(contacts@.subrange(0, i as int).contains(c));
                    let j = choose|j: int| 0 <= j < i && contacts@.subrange(0, i as int)[j] == c;
                    assert(contacts@[j] == c);
                    assert(contacts@[i as int] == c);
                    assert(false);
                }
            }
            r.push(c);
        }
        proof {
            assert forall|x: Identity|
                r@.contains(x) == (contacts@.subrange(0, i + 1).contains(x) && x != *target) by {
                assert(contacts@.subrange(0, i + 1) =~= contacts@.subrange(0, i as int).push(c));
                if r@.contains(x) {
                    if r_pre.contains(x) {
                        assert(contacts@.subrange(0, i as int).contains(x));
                        let j = choose|j: int|
                            0 <= j < i && contacts@.subrange(0, i as int)[j] == x;
                        assert(contacts@.subrange(0, i + 1)[j] == x);
                    } else {
                        assert(x == c);
                        assert(contacts@.subrange(0, i + 1)[i as int] == x);
                    }
                }
                if contacts@.subrange(0, i + 1).contains(x) && x != *target {
                    let j = choose|j: int|
                        0 <= j < i + 1 && (#[trigger] contacts@.subrange(0, i + 1)[j]) == x;
                    if j < i {
                        assert(contacts@.subrange(0, i as int)[j] == x);
                        assert(r_pre.contains(x));
                        if r@ != r_pre {
                            let j2 = choose|j2: int| 0 <= j2 < r_pre.len() && r_pre[j2] == x;
                            assert(r@[j2] == x);
                        }
                    } else {
                        assert(x == c);
                        assert(r@[r@.len() - 1] == x);
                    }
                }
            }
        }
        i += 1;
    }
    proof {
        assert(contacts@.subrange(0, n as int) =~= contacts@);
    }
    r
}

} // verus!
