//! Key-value mappings over identities, and the intersection primitive
//! used by the search for frontier-collision detection.

use vstd::prelude::*;

use crate::identity::Identity;

verus! {

/// A finite mapping from identities to values, held as a vector of
/// pairs with pairwise-distinct keys. Viewed as a `Map<Identity, V>`.
pub struct IdMap<V> {
    pairs: Vec<(Identity, V)>,
}

/// The keys of a pair sequence, in order.
pub open spec fn keys_of<V>(s: Seq<(Identity, V)>) -> Seq<Identity> {
    s.map_values(|p: (Identity, V)| p.0)
}

/// The mapping that a pair sequence denotes; later pairs win.
pub open spec fn map_of<V>(s: Seq<(Identity, V)>) -> Map<Identity, V>
    decreases s.len(),
{
    if s.len() == 0 {
        Map::empty()
    } else {
        map_of(s.drop_last()).insert(s.last().0, s.last().1)
    }
}

/// What `map_of` holds pair by pair: its domain is exactly the key set,
/// and with distinct keys each pair gives its key's value.
pub proof fn lemma_map_of_pairs<V>(s: Seq<(Identity, V)>)
    ensures
        forall|k: Identity|
            map_of(s).dom().contains(k) <==> #[trigger] keys_of(s).contains(k),
        keys_of(s).no_duplicates() ==> forall|i: int|
            0 <= i < s.len() ==> map_of(s)[#[trigger] s[i].0] == s[i].1,
    decreases s.len(),
{
    if s.len() > 0 {
        lemma_map_of_pairs(s.drop_last());
        assert(forall|i: int|
            #![trigger keys_of(s.drop_last())[i]]
            #![trigger keys_of(s)[i]]
            0 <= i < s.len() - 1 ==> keys_of(s.drop_last())[i] == keys_of(s)[i]);
        assert(keys_of(s)[s.len() - 1] == s.last().0);
        assert forall|k: Identity| #[trigger] keys_of(s).contains(k) implies (keys_of(
            s.drop_last(),
        ).contains(k) || k == s.last().0) by {
            let i = choose|i: int| 0 <= i < keys_of(s).len() && keys_of(s)[i] == k;
            if i < s.len() - 1 {
                assert(keys_of(s.drop_last())[i] == k);
            }
        }
        assert forall|k: Identity| keys_of(s.drop_last()).contains(k) || k == s.last().0 implies
            #[trigger] keys_of(s).contains(k) by {
            if keys_of(s.drop_last()).contains(k) {
                let i = choose|i: int|
                    0 <= i < keys_of(s.drop_last()).len() && keys_of(s.drop_last())[i] == k;
                assert(keys_of(s)[i] == k);
            } else {
                assert(keys_of(s)[s.len() - 1] == k);
            }
        }
        if keys_of(s).no_duplicates() {
            assert(keys_of(s.drop_last()).no_duplicates());
            assert forall|i: int| 0 <= i < s.len() implies map_of(s)[#[trigger] s[i].0]
                == s[i].1 by {
                assert(keys_of(s)[i] == s[i].0);
                if i < s.len() - 1 {
                    assert(keys_of(s)[s.len() - 1] == s.last().0);
                    assert(s[i].0 != s.last().0);
                    assert(s.drop_last()[i] == s[i]);
                    assert(map_of(s.drop_last())[s.drop_last()[i].0] == s.drop_last()[i].1);
                }
            }
        }
    }
}

impl<V> IdMap<V> {
    /// The mapping this value denotes.
    pub closed spec fn view(&self) -> Map<Identity, V> {
        map_of(self.pairs@)
    }

    /// The keys in insertion order.
    pub closed spec fn key_seq(&self) -> Seq<Identity> {
        keys_of(self.pairs@)
    }

    /// Well-formed: no key occurs twice.
    pub closed spec fn wf(&self) -> bool {
        keys_of(self.pairs@).no_duplicates()
    }

    /// The sequence of values, ordered as `key_seq`.
    pub closed spec fn val_seq(&self) -> Seq<V> {
        self.pairs@.map_values(|p: (Identity, V)| p.1)
    }

    /// Ties the view to the key order: the domain is the key set, each
    /// key's value is the paired one, and the domain size is the number
    /// of keys.
    pub proof fn lemma_view_char(&self)
        requires
            self.wf(),
        ensures
            forall|k: Identity| self@.dom().contains(k) <==> #[trigger] self.key_seq().contains(k),
            forall|i: int|
                0 <= i < self.key_seq().len() ==> self@[#[trigger] self.key_seq()[i]]
                    == self.val_seq()[i],
            self.key_seq().no_duplicates(),
            self@.dom().len() == self.key_seq().len(),
            self@.dom().finite(),
    {
        lemma_map_of_pairs(self.pairs@);
        assert(forall|i: int|
            0 <= i < self.pairs@.len() ==> #[trigger] self.key_seq()[i] == self.pairs@[i].0
                && self.val_seq()[i] == self.pairs@[i].1);
        assert(self@.dom() =~= self.key_seq().to_set());
        self.key_seq().unique_seq_to_set();
    }

    /// An empty mapping.
    pub fn new() -> (r: IdMap<V>)
        ensures
            r.wf(),
            r@ == Map::<Identity, V>::empty(),
            r.key_seq() == Seq::<Identity>::empty(),
    {
        let r = IdMap { pairs: Vec::new() };
        proof {
            assert(keys_of(r.pairs@) =~= Seq::<Identity>::empty());
        }
        r
    }

    /// How many keys the mapping holds.
    pub fn len(&self) -> (n: usize)
        ensures
            n == self.key_seq().len(),
            self.wf() ==> n == self@.dom().len(),
    {
        proof {
            if self.wf() {
                self.lemma_view_char();
            }
        }
        self.pairs.len()
    }

    /// The key at a position.
    pub fn key_at(&self, i: usize) -> (k: Identity)
        requires
            i < self.key_seq().len(),
        ensures
            k == self.key_seq()[i as int],
    {
        self.pairs[i].0
    }

    /// The value at a position.
    pub fn val_at(&self, i: usize) -> (v: &V)
        requires
            i < self.key_seq().len(),
        ensures
            *v == self.val_seq()[i as int],
    {
        &self.pairs[i].1
    }

    /// Whether a key is present.
    pub fn contains_key(&self, k: &Identity) -> (b: bool)
        ensures
            b == self.key_seq().contains(*k),
            self.wf() ==> b == self@.dom().contains(*k),
    {
        proof {
            if self.wf() {
                self.lemma_view_char();
            }
        }
        let n = self.pairs.len();
        let mut i: usize = 0;
        while i < n
            invariant
                i <= n,
                n == self.key_seq().len(),
                forall|j: int| 0 <= j < i ==> self.key_seq()[j] != *k,
            decreases n - i,
        {
            assert(self.key_seq()[i as int] == self.pairs@[i as int].0);
            if self.pairs[i].0 == *k {
                proof {
                    assert(self.key_seq().contains(*k)) by {
                        assert(self.key_seq()[i as int] == *k);
                    }
                    if self.wf() {
                        self.lemma_view_char();
                    }
                }
                return true;
            }
            i += 1;
        }
        proof {
            if self.key_seq().contains(*k) {
                let j = choose|j: int|
                    0 <= j < self.key_seq().len() && self.key_seq()[j] == *k;
                assert(self.key_seq()[j] != *k);
            }
        }
        false
    }

    /// The value under a key, if the key is present.
    pub fn get(&self, k: &Identity) -> (r: Option<&V>)
        requires
            self.wf(),
        ensures
            match r {
                Some(v) => self@.dom().contains(*k) && *v == self@[*k],
                None => !self@.dom().contains(*k),
            },
    {
        proof {
            self.lemma_view_char();
        }
        let n = self.pairs.len();
        let mut i: usize = 0;
        while i < n
            invariant
                i <= n,
                self.wf(),
                n == self.key_seq().len(),
                forall|j: int| 0 <= j < i ==> self.key_seq()[j] != *k,
            decreases n - i,
        {
            assert(self.key_seq()[i as int] == self.pairs@[i as int].0);
            if self.pairs[i].0 == *k {
                proof {
                    self.lemma_view_char();
                    assert(self.key_seq().contains(*k)) by {
                        assert(self.key_seq()[i as int] == *k);
                    }
                    assert(self.val_seq()[i as int] == self.pairs@[i as int].1);
                    assert(self@[*k] == self.val_seq()[i as int]);
                }
                return Some(&self.pairs[i].1);
            }
            i += 1;
        }
        proof {
            if self@.dom().contains(*k) {
                assert(self.key_seq().contains(*k));
                let j = choose|j: int|
                    0 <= j < self.key_seq().len() && self.key_seq()[j] == *k;
                assert(self.key_seq()[j] != *k);
            }
        }
        None
    }

    /// Binds a key to a value, replacing any previous binding.
    pub fn insert(&mut self, k: Identity, v: V)
        requires
            old(self).wf(),
        ensures
            final(self).wf(),
            final(self)@ == old(self)@.insert(k, v),
            old(self)@.dom().contains(k) ==> final(self).key_seq() == old(self).key_seq(),
            !old(self)@.dom().contains(k) ==> final(self).key_seq() == old(self).key_seq().push(
                k,
            ),
    {
        proof {
            self.lemma_view_char();
        }
        let n = self.pairs.len();
        let mut i: usize = 0;
        while i < n
            invariant
                i <= n,
                self.wf(),
                self == old(self),
                n == self.key_seq().len(),
                forall|j: int| 0 <= j < i ==> self.key_seq()[j] != k,
            decreases n - i,
        {
            assert(self.key_seq()[i as int] == self.pairs@[i as int].0);
            if self.pairs[i].0 == k {
                self.pairs[i] = (k, v);
                proof {
                    assert(forall|j: int|
                        #![trigger keys_of(self.pairs@)[j]]
                        #![trigger keys_of(old(self).pairs@)[j]]
                        0 <= j < self.pairs@.len() ==> keys_of(self.pairs@)[j] == self.pairs@[j].0
                            && keys_of(old(self).pairs@)[j] == old(self).pairs@[j].0);
                    assert(keys_of(self.pairs@) =~= keys_of(old(self).pairs@));
                    self.lemma_view_char();
                    old(self).lemma_view_char();
                    assert(forall|j: int|
                        #![trigger self.val_seq()[j]]
                        #![trigger old(self).val_seq()[j]]
                        0 <= j < self.pairs@.len() ==> self.val_seq()[j] == self.pairs@[j].1 && old(
                            self,
                        ).val_seq()[j] == old(self).pairs@[j].1);
                    assert(self@ =~= old(self)@.insert(k, v)) by {
                        assert forall|k2: Identity| #[trigger] self@.dom().contains(k2) implies old(
                            self,
                        )@.insert(k, v).dom().contains(k2) by {
                            assert(self.key_seq().contains(k2));
                            assert(old(self)@.dom().contains(k2));
                        }
                        assert forall|k2: Identity| #[trigger] old(self)@.insert(k, v).dom()
                            .contains(k2) implies self@.dom().contains(k2) by {
                            if k2 == k {
                                assert(self.key_seq()[i as int] == k);
                                assert(self.key_seq().contains(k2));
                            } else {
                                assert(old(self).key_seq().contains(k2));
                                assert(self.key_seq().contains(k2));
                            }
                        }
                        assert(self@[k] == v) by {
                            assert(self.key_seq()[i as int] == k);
                            assert(self.val_seq()[i as int] == v);
                        }
                        assert forall|k2: Identity|
                            self@.dom().contains(k2) && k2 != k implies self@[k2] == old(
                            self,
                        )@[k2] by {
                            assert(self.key_seq().contains(k2));
                            let j = choose|j: int|
                                0 <= j < self.key_seq().len() && self.key_seq()[j] == k2;
                            assert(self.key_seq()[j] == k2);
                            assert(self.key_seq()[i as int] == k);
                            assert(j != i);
                            assert(self.pairs@[j] == old(self).pairs@[j]);
                            assert(self.val_seq()[j] == old(self).val_seq()[j]);
                            assert(old(self).key_seq()[j] == k2);
                            assert(self@[k2] == self.val_seq()[j]);
                            assert(old(self)@[k2] == old(self).val_seq()[j]);
                        }
                    }
                }
                return ;
            }
            i += 1;
        }
        self.pairs.push((k, v));
        proof {
            assert(keys_of(self.pairs@) =~= keys_of(old(self).pairs@).push(k));
            assert(!old(self).key_seq().contains(k));
            old(self).lemma_view_char();
            assert(self.wf());
            assert(self.pairs@.drop_last() =~= old(self).pairs@);
            assert(self@ == old(self)@.insert(k, v));
        }
    }

    /// Drops a key's binding, handing back the value it had.
    pub fn remove(&mut self, k: &Identity) -> (r: Option<V>)
        requires
            old(self).wf(),
        ensures
            final(self).wf(),
            final(self)@ == old(self)@.remove(*k),
            match r {
                Some(v) => old(self)@.dom().contains(*k) && v == old(self)@[*k],
                None => !old(self)@.dom().contains(*k) && *final(self) == *old(self),
            },
    {
        proof {
            self.lemma_view_char();
        }
        let n = self.pairs.len();
        let mut i: usize = 0;
        while i < n
            invariant
                i <= n,
                self.wf(),
                self == old(self),
                n == self.key_seq().len(),
                forall|j: int| 0 <= j < i ==> self.key_seq()[j] != *k,
            decreases n - i,
        {
            assert(self.key_seq()[i as int] == self.pairs@[i as int].0);
            if self.pairs[i].0 == *k {
                proof {
                    old(self).lemma_view_char();
                }
                let pair = self.pairs.remove(i);
                proof {
                    let kk = *k;
                    assert(keys_of(self.pairs@) =~= keys_of(old(self).pairs@).remove(i as int))
                        by {
                        assert(forall|j: int|
                            #![trigger keys_of(self.pairs@)[j]]
                            0 <= j < self.pairs@.len() ==> keys_of(self.pairs@)[j]
                                == self.pairs@[j].0);
                        assert(forall|j: int|
                            #![trigger keys_of(old(self).pairs@)[j]]
                            0 <= j < old(self).pairs@.len() ==> keys_of(old(self).pairs@)[j]
                                == old(self).pairs@[j].0);
                    }
                    assert(self.wf()) by {
                        assert forall|j1: int, j2: int|
                            0 <= j1 < self.key_seq().len() && 0 <= j2 < self.key_seq().len() && j1
                                != j2 implies self.key_seq()[j1] != self.key_seq()[j2] by {
                            let m1: int = if j1 < i {
                                j1
                            } else {
                                j1 + 1
                            };
                            let m2: int = if j2 < i {
                                j2
                            } else {
                                j2 + 1
                            };
                            assert(self.key_seq()[j1] == old(self).key_seq()[m1]);
                            assert(self.key_seq()[j2] == old(self).key_seq()[m2]);
                        }
                    }
                    self.lemma_view_char();
                    assert(old(self).key_seq().contains(kk)) by {
                        assert(old(self).key_seq()[i as int] == kk);
                    }
                    assert(old(self)@[kk] == old(self).val_seq()[i as int]);
                    assert(old(self).val_seq()[i as int] == old(self).pairs@[i as int].1);
                    assert(pair.1 == old(self)@[kk]);
                    assert(self@ =~= old(self)@.remove(kk)) by {
                        assert forall|k2: Identity| #[trigger] self@.dom().contains(k2) implies
                            old(self)@.remove(kk).dom().contains(k2) by {
                            assert(self.key_seq().contains(k2));
                            let j = choose|j: int|
                                0 <= j < self.key_seq().len() && self.key_seq()[j] == k2;
                            let m: int = if j < i {
                                j
                            } else {
                                j + 1
                            };
                            assert(old(self).key_seq()[m] == k2);
                            assert(old(self).key_seq().contains(k2));
                            assert(m != i);
                            assert(old(self).key_seq()[i as int] == kk);
                            assert(k2 != kk);
                        }
                        assert forall|k2: Identity| #[trigger] old(self)@.remove(kk).dom()
                            .contains(k2) implies self@.dom().contains(k2) by {
                            assert(old(self).key_seq().contains(k2));
                            let m = choose|m: int|
                                0 <= m < old(self).key_seq().len() && old(self).key_seq()[m] == k2;
                            assert(old(self).key_seq()[i as int] == kk);
                            assert(m != i);
                            let j: int = if m < i {
                                m
                            } else {
                                m - 1
                            };
                            assert(self.key_seq()[j] == k2);
                            assert(self.key_seq().contains(k2));
                        }
                        assert forall|k2: Identity|
                            self@.dom().contains(k2) implies self@[k2] == old(self)@[k2] by {
                            assert(self.key_seq().contains(k2));
                            let j = choose|j: int|
                                0 <= j < self.key_seq().len() && self.key_seq()[j] == k2;
                            let m: int = if j < i {
                                j
                            } else {
                                j + 1
                            };
                            assert(old(self).key_seq()[m] == k2);
                            assert(self.pairs@[j] == old(self).pairs@[m]);
                            assert(self.val_seq()[j] == self.pairs@[j].1);
                            assert(old(self).val_seq()[m] == old(self).pairs@[m].1);
                            assert(self@[k2] == self.val_seq()[j]);
                            assert(old(self)@[k2] == old(self).val_seq()[m]);
                        }
                    }
                }
                return Some(pair.1);
            }
            i += 1;
        }
        proof {
            if self@.dom().contains(*k) {
                assert(self.key_seq().contains(*k));
                let j = choose|j: int|
                    0 <= j < self.key_seq().len() && self.key_seq()[j] == *k;
                assert(self.key_seq()[j] != *k);
            }
            assert(self@ =~= old(self)@.remove(*k));
        }
        None
    }
}

/// The keys of a triple sequence, in order.
pub open spec fn tri_keys<V>(s: Seq<(Identity, V, V)>) -> Seq<Identity> {
    s.map_values(|t: (Identity, V, V)| t.0)
}

/// The intersection of two mappings: for every key present in both, the
/// key together with its value in the first mapping and its value in the
/// second. Yields its triples one by one through [`Self::next`].
pub struct IntersectionMap<V> {
    items: Vec<(Identity, V, V)>,
    pos: usize,
}

impl<V> IntersectionMap<V> {
    /// All triples, in the order they are yielded.
    pub closed spec fn full_items(&self) -> Seq<(Identity, V, V)> {
        self.items@
    }

    /// How many triples have been yielded so far.
    pub closed spec fn yielded(&self) -> int {
        self.pos as int
    }

    /// Position is within bounds and no key occurs twice.
    pub closed spec fn wf(&self) -> bool {
        self.pos <= self.items@.len() && tri_keys(self.items@).no_duplicates()
    }
}

impl<V: Copy> IntersectionMap<V> {
    /// The next triple, if any is left.
    pub fn next(&mut self) -> (r: Option<(Identity, V, V)>)
        requires
            old(self).wf(),
        ensures
            final(self).wf(),
            final(self).full_items() == old(self).full_items(),
            old(self).yielded() < old(self).full_items().len() ==> {
                &&& r == Some(old(self).full_items()[old(self).yielded()])
                &&& final(self).yielded() == old(self).yielded() + 1
            },
            old(self).yielded() >= old(self).full_items().len() ==> {
                &&& r is None
                &&& final(self).yielded() == old(self).yielded()
            },
    {
        if self.pos < self.items.len() {
            let item = self.items[self.pos];
            self.pos += 1;
            Some(item)
        } else {
            None
        }
    }

    /// No key is yielded twice: the keys of the triples, in yield
    /// order, are pairwise distinct.
    pub proof fn lemma_keys_distinct(&self)
        requires
            self.wf(),
        ensures
            tri_keys(self.full_items()).no_duplicates(),
    {
    }

    /// Gathers all triples, yielded or not, into a mapping from key to
    /// the pair of values.
    pub fn collect_map(self) -> (r: IdMap<(V, V)>)
        requires
            self.wf(),
        ensures
            r.wf(),
            r.key_seq() == tri_keys(self.full_items()),
            forall|i: int|
                0 <= i < self.full_items().len() ==> r@[#[trigger] self.full_items()[i].0] == (
                    self.full_items()[i].1,
                    self.full_items()[i].2,
                ),
            forall|k: Identity|
                r@.dom().contains(k) <==> #[trigger] tri_keys(self.full_items()).contains(k),
    {
        let ghost all = self.items@;
        let n = self.items.len();
        let mut r: IdMap<(V, V)> = IdMap::new();
        let mut i: usize = 0;
        while i < n
            invariant
                i <= n,
                n == all.len(),
                self.items@ == all,
                tri_keys(all).no_duplicates(),
                r.wf(),
                r.key_seq() == tri_keys(all).subrange(0, i as int),
                forall|j: int|
                    0 <= j < i ==> r@[#[trigger] all[j].0] == (all[j].1, all[j].2),
            decreases n - i,
        {
            let (k, v1, v2) = self.items[i];
            proof {
                assert(forall|j: int|
                    0 <= j < all.len() ==> #[trigger] tri_keys(all)[j] == all[j].0);
                r.lemma_view_char();
                if r@.dom().contains(k) {
                    assert(r.key_seq().contains(k));
                    let j = choose|j: int|
                        0 <= j < r.key_seq().len() && r.key_seq()[j] == k;
                    assert(r.key_seq()[j] == tri_keys(all).subrange(0, i as int)[j]);
                    assert(tri_keys(all)[j] == k);
                    assert(tri_keys(all)[i as int] == k);
                    assert(false);
                }
            }
            r.insert(k, (v1, v2));
            proof {
                assert(r.key_seq() =~= tri_keys(all).subrange(0, i + 1));
                assert forall|j: int| 0 <= j < i implies all[j].0 != all[i as int].0 by {
                    assert(tri_keys(all)[j] == all[j].0);
                    assert(tri_keys(all)[i as int] == all[i as int].0);
                }
            }
            i += 1;
        }
        proof {
            assert(r.key_seq() =~= tri_keys(all));
            r.lemma_view_char();
        }
        r
    }
}

/// Intersects two mappings with the same key and value types.
///
/// The result holds exactly the keys present in both arguments, each
/// paired with its value in the first argument followed by its value in
/// the second, regardless of which argument is iterated internally.
/// The smaller mapping is iterated and the larger one probed,
/// so at most `min(|first|, |other|)` probes are made and at most that
/// many triples produced. The order of the triples is not part of the
/// contract.
pub fn intersection_map<V: Copy>(first: &IdMap<V>, other: &IdMap<V>) -> (r: IntersectionMap<V>)
    requires
        first.wf(),
        other.wf(),
    ensures
        r.wf(),
        r.yielded() == 0,
        forall|k: Identity|
            #[trigger] tri_keys(r.full_items()).contains(k) <==> (first@.dom().contains(k)
                && other@.dom().contains(k)),
        forall|i: int|
            0 <= i < r.full_items().len() ==> (#[trigger] r.full_items()[i]).1
                == first@[r.full_items()[i].0] && r.full_items()[i].2 == other@[r.full_items()[
                i
            ].0],
        r.full_items().len() <= first@.dom().len(),
        r.full_items().len() <= other@.dom().len(),
{
    let flen = first.len();
    let olen = other.len();
    let iterate_first = flen <= olen;
    let (small, big): (&IdMap<V>, &IdMap<V>) = if iterate_first {
        (first, other)
    } else {
        (other, first)
    };
    proof {
        first.lemma_view_char();
        other.lemma_view_char();
    }
    let n = small.len();
    let mut items: Vec<(Identity, V, V)> = Vec::new();
    let mut i: usize = 0;
    while i < n
        invariant
            i <= n,
            n == small.key_seq().len(),
            first.wf(),
            other.wf(),
            small.wf(),
            big.wf(),
            (small == first && big == other && iterate_first) || (small == other && big == first
                && !iterate_first),
            items@.len() <= i,
            tri_keys(items@).no_duplicates(),
            forall|j: int|
                0 <= j < items@.len() ==> small.key_seq().subrange(0, i as int).contains(
                    #[trigger] items@[j].0,
                ),
            forall|j: int|
                0 <= j < items@.len() ==> first@.dom().contains(#[trigger] items@[j].0)
                    && other@.dom().contains(items@[j].0),
            forall|j: int|
                0 <= j < items@.len() ==> (#[trigger] items@[j]).1 == first@[items@[j].0]
                    && items@[j].2 == other@[items@[j].0],
            forall|m: int|
                0 <= m < i && big@.dom().contains(#[trigger] small.key_seq()[m]) ==> tri_keys(
                    items@,
                ).contains(small.key_seq()[m]),
        decreases n - i,
    {
        let k = small.key_at(i);
        let ghost items_pre = items@;
        match big.get(&k) {
            Some(vb) => {
                let vs = *small.val_at(i);
                proof {
                    small.lemma_view_char();
                    assert(small.key_seq().contains(k)) by {
                        assert(small.key_seq()[i as int] == k);
                    }
                    assert(small@[k] == small.val_seq()[i as int]);
                    if tri_keys(items_pre).contains(k) {
                        let j = choose|j: int|
                            0 <= j < tri_keys(items_pre).len() && tri_keys(items_pre)[j] == k;
                        assert(items_pre[j].0 == k);
                        assert(small.key_seq().subrange(0, i as int).contains(k));
                        let m = choose|m: int|
                            0 <= m < i && small.key_seq().subrange(0, i as int)[m] == k;
                        assert(small.key_seq()[m] == k);
                        assert(small.key_seq()[i as int] == k);
                        assert(false);
                    }
                }
                let triple = if iterate_first {
                    (k, vs, *vb)
                } else {
                    (k, *vb, vs)
                };
                items.push(triple);
                proof {
                    assert(items@ == items_pre.push(triple));
                    assert(tri_keys(items@) =~= tri_keys(items_pre).push(k)) by {
                        assert(forall|j: int|
                            0 <= j < items@.len() ==> #[trigger] tri_keys(items@)[j]
                                == items@[j].0);
                        assert(forall|j: int|
                            0 <= j < items_pre.len() ==> #[trigger] tri_keys(items_pre)[j]
                                == items_pre[j].0);
                    }
                    assert(tri_keys(items@).no_duplicates());
                    assert forall|j: int|
                        0 <= j < items@.len() implies small.key_seq().subrange(0, i + 1).contains(
                        (#[trigger] items@[j]).0,
                    ) by {
                        if j < items_pre.len() {
                            assert(items@[j] == items_pre[j]);
                            assert(small.key_seq().subrange(0, i as int).contains(items_pre[j].0));
                            let m = choose|m: int|
                                0 <= m < i && small.key_seq().subrange(0, i as int)[m]
                                    == items_pre[j].0;
                            assert(small.key_seq().subrange(0, i + 1)[m] == items_pre[j].0);
                        } else {
                            assert(items@[j] == triple);
                            assert(small.key_seq().subrange(0, i + 1)[i as int] == k);
                        }
                    }
                    assert forall|m: int|
                        0 <= m < i + 1 && big@.dom().contains(
                            #[trigger] small.key_seq()[m],
                        ) implies tri_keys(items@).contains(small.key_seq()[m]) by {
                        if m < i {
                            assert(tri_keys(items_pre).contains(small.key_seq()[m]));
                            let j = choose|j: int|
                                0 <= j < tri_keys(items_pre).len() && tri_keys(items_pre)[j]
                                    == small.key_seq()[m];
                            assert(tri_keys(items@)[j] == tri_keys(items_pre)[j]);
                        } else {
                            assert(tri_keys(items@).last() == k);
                            assert(tri_keys(items@)[items@.len() - 1] == k);
                        }
                    }
                }
            },
            None => {
                proof {
                    assert(small.key_seq()[i as int] == k);
                    assert forall|m: int|
                        0 <= m < i + 1 && big@.dom().contains(
                            #[trigger] small.key_seq()[m],
                        ) implies tri_keys(items@).contains(small.key_seq()[m]) by {
                        assert(m < i);
                    }
                }
            },
        }
        i += 1;
    }
    proof {
        small.lemma_view_char();
        big.lemma_view_char();
        assert forall|k: Identity| #[trigger] tri_keys(items@).contains(k) implies (
        first@.dom().contains(k) && other@.dom().contains(k)) by {
            let j = choose|j: int| 0 <= j < tri_keys(items@).len() && tri_keys(items@)[j] == k;
            assert(forall|j2: int|
                0 <= j2 < items@.len() ==> #[trigger] tri_keys(items@)[j2] == items@[j2].0);
        }
        assert forall|k: Identity|
            first@.dom().contains(k) && other@.dom().contains(k) implies #[trigger] tri_keys(
            items@,
        ).contains(k) by {
            assert(small@.dom().contains(k));
            assert(small.key_seq().contains(k));
            let m = choose|m: int|
                0 <= m < small.key_seq().len() && small.key_seq()[m] == k;
            assert(big@.dom().contains(small.key_seq()[m]));
        }
        assert(items@.len() <= small@.dom().len());
        assert(small@.dom().len() <= first@.dom().len() && small@.dom().len()
            <= other@.dom().len());
    }
    IntersectionMap { items, pos: 0 }
}

} // verus!
