//! The price store: an associative container from 128-bit identifiers to
//! prices, viewed in specifications as a `Map<u128, u64>`.

use vstd::map::*;
use vstd::multiset::Multiset;
use vstd::prelude::*;

verus! {

/// True when no identifier occurs twice among the entries.
pub open spec fn distinct_keys(s: Seq<(u128, u64)>) -> bool {
    forall|i: int, j: int| 0 <= i < j < s.len() ==> s[i].0 != s[j].0
}

/// True when some entry carries the identifier `id`.
pub open spec fn has_key(s: Seq<(u128, u64)>, id: u128) -> bool {
    exists|i: int| 0 <= i < s.len() && s[i].0 == id
}

/// The position of the entry carrying `id` (meaningful when `has_key` holds
/// and the keys are distinct).
pub open spec fn key_index(s: Seq<(u128, u64)>, id: u128) -> int {
    choose|i: int| 0 <= i < s.len() && s[i].0 == id
}

/// The mapping that a sequence of key-value entries denotes.
pub open spec fn map_of(s: Seq<(u128, u64)>) -> Map<u128, u64> {
    Map::new(|id: u128| has_key(s, id), |id: u128| s[key_index(s, id)].1)
}

/// When the keys are distinct, the entry found at any position is the one
/// `key_index` picks for its identifier.
proof fn lemma_key_index_unique(s: Seq<(u128, u64)>, i: int)
    requires
        distinct_keys(s),
        0 <= i < s.len(),
    ensures
        has_key(s, s[i].0),
        key_index(s, s[i].0) == i,
{
    let id = s[i].0;
    assert(has_key(s, id));
    let j = key_index(s, id);
    assert(0 <= j < s.len() && s[j].0 == id);
    if j < i {
        assert(s[j].0 != s[i].0);
    } else if i < j {
        assert(s[i].0 != s[j].0);
    }
}

/// Appending an entry under a fresh identifier denotes inserting it into the
/// mapping.
proof fn lemma_map_of_push(s: Seq<(u128, u64)>, id: u128, v: u64)
    requires
        distinct_keys(s),
        !has_key(s, id),
    ensures
        distinct_keys(s.push((id, v))),
        map_of(s.push((id, v))) == map_of(s).insert(id, v),
{
    let t = s.push((id, v));
    assert forall|i: int, j: int| 0 <= i < j < t.len() implies t[i].0 != t[j].0 by {
        if j < s.len() {
            assert(s[i].0 != s[j].0);
        } else {
            assert(t[i] == s[i]);
            if s[i].0 == id {
                assert(has_key(s, id));
            }
        }
    }
    assert_maps_equal!(map_of(t), map_of(s).insert(id, v), k => {
        if k == id {
            lemma_key_index_unique(t, s.len() as int);
        } else {
            if has_key(s, k) {
                let i = key_index(s, k);
                assert(0 <= i < s.len() && s[i].0 == k);
                assert(t[i].0 == k);
                lemma_key_index_unique(t, i);
                lemma_key_index_unique(s, i);
            }
            if has_key(t, k) {
                let i = key_index(t, k);
                assert(0 <= i < t.len() && t[i].0 == k);
                assert(i < s.len());
                assert(t[i] == s[i]);
                assert(has_key(s, k));
            }
        }
    });
}

/// Replacing the price at one position denotes inserting the new price under
/// that position's identifier.
proof fn lemma_map_of_update(s: Seq<(u128, u64)>, i: int, v: u64)
    requires
        distinct_keys(s),
        0 <= i < s.len(),
    ensures
        distinct_keys(s.update(i, (s[i].0, v))),
        map_of(s.update(i, (s[i].0, v))) == map_of(s).insert(s[i].0, v),
{
    let id = s[i].0;
    let t = s.update(i, (id, v));
    assert forall|a: int, b: int| 0 <= a < b < t.len() implies t[a].0 != t[b].0 by {
        assert(t[a].0 == s[a].0 && t[b].0 == s[b].0);
        assert(s[a].0 != s[b].0);
    }
    assert_maps_equal!(map_of(t), map_of(s).insert(id, v), k => {
        if has_key(s, k) {
            let j = key_index(s, k);
            assert(0 <= j < s.len() && s[j].0 == k);
            assert(t[j].0 == k);
            lemma_key_index_unique(t, j);
            lemma_key_index_unique(s, j);
            if k == id {
                lemma_key_index_unique(s, i);
                assert(j == i);
                assert(t[i].1 == v);
            }
        }
        if has_key(t, k) {
            let j = key_index(t, k);
            assert(0 <= j < t.len() && t[j].0 == k);
            assert(s[j].0 == k);
            assert(has_key(s, k));
        }
    });
}

/// Removing the entry at one position denotes removing that position's
/// identifier from the mapping.
proof fn lemma_map_of_remove(s: Seq<(u128, u64)>, i: int)
    requires
        distinct_keys(s),
        0 <= i < s.len(),
    ensures
        distinct_keys(s.remove(i)),
        map_of(s.remove(i)) == map_of(s).remove(s[i].0),
{
    let id = s[i].0;
    let t = s.remove(i);
    s.remove_ensures(i);
    assert forall|a: int, b: int| 0 <= a < b < t.len() implies t[a].0 != t[b].0 by {
        let a2 = if a < i { a } else { a + 1 };
        let b2 = if b < i { b } else { b + 1 };
        assert(t[a] == s[a2] && t[b] == s[b2]);
        assert(s[a2].0 != s[b2].0);
    }
    assert_maps_equal!(map_of(t), map_of(s).remove(id), k => {
        if has_key(t, k) {
            let j = key_index(t, k);
            assert(0 <= j < t.len() && t[j].0 == k);
            let j2 = if j < i { j } else { j + 1 };
            assert(t[j] == s[j2]);
            assert(has_key(s, k));
            lemma_key_index_unique(s, j2);
            lemma_key_index_unique(t, j);
            if k == id {
                lemma_key_index_unique(s, i);
                assert(false);
            }
        }
        if k != id && has_key(s, k) {
            let j2 = key_index(s, k);
            assert(0 <= j2 < s.len() && s[j2].0 == k);
            assert(j2 != i);
            let j = if j2 < i { j2 } else { j2 - 1 };
            assert(t[j] == s[j2]);
            assert(has_key(t, k));
            lemma_key_index_unique(t, j);
            lemma_key_index_unique(s, j2);
        }
    });
}

/// Pigeonhole capacity bound: if every identifier up to `m` is live, the
/// store holds more than `m` entries.
proof fn lemma_key_capacity(s: Seq<(u128, u64)>, m: int)
    requires
        distinct_keys(s),
        0 <= m <= u64::MAX,
        forall|k: u128| k <= m ==> #[trigger] has_key(s, k),
    ensures
        s.len() > m,
{
    let ks = s.map_values(|p: (u128, u64)| p.0);
    assert forall|i: int, j: int|
        0 <= i < ks.len() && 0 <= j < ks.len() && i != j implies ks[i] != ks[j] by {
        if i < j {
            assert(s[i].0 != s[j].0);
        } else {
            assert(s[j].0 != s[i].0);
        }
    }
    assert(ks.no_duplicates());
    let cs = Seq::<u128>::new((m + 1) as nat, |i: int| i as u128);
    assert forall|i: int, j: int|
        0 <= i < cs.len() && 0 <= j < cs.len() && i != j implies cs[i] != cs[j] by {
        assert(cs[i] == i as u128 && cs[j] == j as u128);
    }
    assert(cs.no_duplicates());
    assert forall|k: u128| cs.to_set().contains(k) implies ks.to_set().contains(k) by {
        let i = choose|i: int| 0 <= i < cs.len() && cs[i] == k;
        assert(k == i as u128);
        assert(k <= m);
        assert(has_key(s, k));
        let j = key_index(s, k);
        assert(0 <= j < s.len() && s[j].0 == k);
        assert(ks[j] == k);
        assert(ks.contains(k));
    }
    cs.unique_seq_to_set();
    ks.unique_seq_to_set();
    broadcast use vstd::seq_lib::seq_to_set_is_finite;

    vstd::set_lib::lemma_len_subset(cs.to_set(), ks.to_set());
}

/// Each price occurs among the entries' values exactly as often as there are
/// entries whose identifier the mapping binds to it.
proof fn lemma_count_values(s: Seq<(u128, u64)>, v: u64)
    requires
        distinct_keys(s),
    ensures
        ({
            let m = map_of(s);
            let fset = m.dom().filter(|k: u128| m[k] == v);
            fset.finite() && s.map_values(|p: (u128, u64)| p.1).to_multiset().count(v)
                == fset.len()
        }),
    decreases s.len(),
{
    broadcast use vstd::seq_lib::group_to_multiset_ensures;
    broadcast use vstd::multiset::group_multiset_axioms;

    let m = map_of(s);
    let fset = m.dom().filter(|k: u128| m[k] == v);
    let g = |p: (u128, u64)| p.1;
    if s.len() == 0 {
        assert(s.map_values(g) =~= Seq::<u64>::empty());
        assert(!s.map_values(g).contains(v));
        assert(fset =~= Set::<u128>::empty());
    } else {
        let s0 = s.drop_last();
        let p = s.last();
        let id = p.0;
        let val = p.1;
        assert(!has_key(s0, id)) by {
            if has_key(s0, id) {
                let i = key_index(s0, id);
                assert(0 <= i < s0.len() && s0[i].0 == id);
                assert(s[i].0 != s[s.len() - 1].0);
            }
        }
        assert(s =~= s0.push((id, val)));
        lemma_map_of_push(s0, id, val);
        lemma_count_values(s0, v);
        let m0 = map_of(s0);
        let f0 = m0.dom().filter(|k: u128| m0[k] == v);
        assert(s.map_values(g) =~= s0.map_values(g).push(val));
        if val == v {
            assert forall|k: u128| fset.contains(k) <==> f0.insert(id).contains(k) by {
                if k != id && m.dom().contains(k) {
                    assert(m[k] == m0[k]);
                }
            }
            assert(fset =~= f0.insert(id));
            assert(!f0.contains(id));
        } else {
            assert forall|k: u128| fset.contains(k) <==> f0.contains(k) by {
                if k != id && m.dom().contains(k) {
                    assert(m[k] == m0[k]);
                }
            }
            assert(fset =~= f0);
        }
    }
}

/// A mapping from identifiers to prices. Every entry was put there by
/// `create`, identifiers are pairwise distinct, and the abstract content is
/// the map `self@` together with the multiset of prices
/// `self.values_multiset()`.
pub struct PriceStore {
    entries: Vec<(u128, u64)>,
}

impl View for PriceStore {
    type V = Map<u128, u64>;

    closed spec fn view(&self) -> Map<u128, u64> {
        map_of(self.entries@)
    }
}

impl PriceStore {
    /// Well-formed: no identifier occurs twice.
    pub closed spec fn wf(&self) -> bool {
        distinct_keys(self.entries@)
    }

    /// The multiset of the prices of all live entries.
    pub closed spec fn values_multiset(&self) -> Multiset<u64> {
        self.entries@.map_values(|p: (u128, u64)| p.1).to_multiset()
    }

    /// Completeness of `list_all`: each price is listed exactly as many
    /// times as there are live identifiers that the store binds to it.
    pub proof fn lemma_values_multiset_count(&self, v: u64)
        requires
            self.wf(),
        ensures
            self@.dom().filter(|k: u128| self@[k] == v).finite(),
            self.values_multiset().count(v) == self@.dom().filter(|k: u128| self@[k] == v).len(),
    {
        lemma_count_values(self.entries@, v);
    }

    /// The store holds exactly one price per live identifier: the multiset
    /// of prices that `list_all` returns has the size of the mapping's
    /// domain.
    pub proof fn lemma_values_multiset_len(&self)
        requires
            self.wf(),
        ensures
            self.values_multiset().len() == self@.dom().len(),
    {
        let s = self.entries@;
        let ks = s.map_values(|p: (u128, u64)| p.0);
        assert forall|i: int, j: int|
            0 <= i < ks.len() && 0 <= j < ks.len() && i != j implies ks[i] != ks[j] by {
            if i < j {
                assert(s[i].0 != s[j].0);
            } else {
                assert(s[j].0 != s[i].0);
            }
        }
        assert(ks.no_duplicates());
        assert forall|k: u128| self@.dom().contains(k) implies ks.to_set().contains(k) by {
            let i = key_index(s, k);
            assert(0 <= i < s.len() && s[i].0 == k);
            assert(ks[i] == k);
            assert(ks.contains(k));
        }
        assert forall|k: u128| ks.to_set().contains(k) implies self@.dom().contains(k) by {
            let i = choose|i: int| 0 <= i < ks.len() && ks[i] == k;
            assert(s[i].0 == k);
            assert(has_key(s, k));
        }
        assert(self@.dom() =~= ks.to_set());
        ks.unique_seq_to_set();
        broadcast use vstd::seq_lib::group_to_multiset_ensures;

        assert(self.values_multiset().len() == s.map_values(|p: (u128, u64)| p.1).len());
    }

    /// An empty store.
    pub fn new() -> (s: Self)
        ensures
            s.wf(),
            s@ == Map::<u128, u64>::empty(),
            s.values_multiset() == Multiset::<u64>::empty(),
    {
        let s = PriceStore { entries: Vec::new() };
        proof {
            assert(s@ =~= Map::<u128, u64>::empty());
            broadcast use vstd::seq_lib::group_to_multiset_ensures;

            assert(s.entries@.map_values(|p: (u128, u64)| p.1) =~= Seq::<u64>::empty());
            vstd::multiset::lemma_multiset_empty_len(s.values_multiset());
            assert(s.values_multiset() =~= Multiset::<u64>::empty());
        }
        s
    }

    /// The position of the entry for `id`, if the store holds one.
    fn find(&self, id: u128) -> (r: Option<usize>)
        requires
            self.wf(),
        ensures
            match r {
                Some(i) => {
                    &&& i < self.entries@.len()
                    &&& self.entries@[i as int].0 == id
                    &&& self@.contains_key(id)
                    &&& self@[id] == self.entries@[i as int].1
                },
                None => !self@.contains_key(id),
            },
    {
        let n = self.entries.len();
        let mut i: usize = 0;
        while i < n
            invariant
                self.wf(),
                n == self.entries@.len(),
                i <= n,
                forall|j: int| 0 <= j < i ==> self.entries@[j].0 != id,
            decreases n - i,
        {
            if self.entries[i].0 == id {
                proof {
                    lemma_key_index_unique(self.entries@, i as int);
                }
                return Some(i);
            }
            i += 1;
        }
        proof {
            assert(!has_key(self.entries@, id));
        }
        None
    }

    /// An identifier with no live entry. The random draw practically always
    /// succeeds at once; should it collide, a bounded scan of the
    /// identifiers `0 ..= len` finds a free one, since there are more of
    /// those than there are entries.
    fn fresh_id(&self) -> (id: u128)
        requires
            self.wf(),
        ensures
            !self@.contains_key(id),
    {
        let id = crate::id::random_id_bits();
        if self.find(id).is_none() {
            return id;
        }
        let n = self.entries.len();
        let mut c: u128 = 0;
        while c <= n as u128
            invariant
                self.wf(),
                n == self.entries@.len(),
                c <= n as u128 + 1,
                forall|k: u128| k < c ==> self@.contains_key(k),
            decreases n as u128 + 1 - c,
        {
            if self.find(c).is_none() {
                return c;
            }
            assert(c < u128::MAX);
            c = c + 1;
        }
        proof {
            assert(n <= u64::MAX);
            assert forall|k: u128| k <= n as int implies #[trigger] has_key(self.entries@, k) by {
                assert(k < c);
                assert(self@.contains_key(k));
            }
            lemma_key_capacity(self.entries@, n as int);
            assert(false);
        }
        0
    }

    /// Create a record: bind a freshly generated identifier, live nowhere in
    /// the store, to `value`, and return it.
    pub fn create(&mut self, value: u64) -> (id: u128)
        requires
            old(self).wf(),
        ensures
            final(self).wf(),
            !old(self)@.contains_key(id),
            final(self)@ == old(self)@.insert(id, value),
            final(self).values_multiset() == old(self).values_multiset().insert(value),
    {
        let id = self.fresh_id();
        self.entries.push((id, value));
        proof {
            lemma_map_of_push(old(self).entries@, id, value);
            broadcast use vstd::seq_lib::group_to_multiset_ensures;

            let f = |p: (u128, u64)| p.1;
            assert(self.entries@.map_values(f) =~= old(self).entries@.map_values(f).push(value));
            assert(self.values_multiset() == old(self).values_multiset().insert(value));
        }
        id
    }

    /// Replace the price under `id` with `value` if a live entry carries
    /// that identifier; report whether one did. A miss leaves the store
    /// unchanged.
    pub fn update_by_id(&mut self, id: u128, value: u64) -> (found: bool)
        requires
            old(self).wf(),
        ensures
            final(self).wf(),
            found == old(self)@.contains_key(id),
            found ==> final(self)@ == old(self)@.insert(id, value),
            found ==> final(self).values_multiset() == old(self).values_multiset().insert(
                value,
            ).remove(old(self)@[id]),
            !found ==> final(self)@ == old(self)@,
            !found ==> final(self).values_multiset() == old(self).values_multiset(),
    {
        match self.find(id) {
            Some(i) => {
                self.entries[i] = (id, value);
                proof {
                    let s = old(self).entries@;
                    assert(s[i as int].0 == id);
                    assert(self.entries@ == s.update(i as int, (id, value)));
                    lemma_map_of_update(s, i as int, value);
                    broadcast use vstd::seq_lib::group_to_multiset_ensures;

                    let f = |p: (u128, u64)| p.1;
                    assert(self.entries@.map_values(f) =~= s.map_values(f).update(
                        i as int,
                        value,
                    ));
                    assert(s.map_values(f)[i as int] == old(self)@[id]);
                    assert(self.values_multiset() == old(self).values_multiset().insert(
                        value,
                    ).remove(old(self)@[id]));
                }
                true
            },
            None => false,
        }
    }

    /// Remove the entry under `id` if a live one carries that identifier;
    /// report whether one did. The identifier is gone afterwards; a miss
    /// leaves the store unchanged.
    pub fn delete_by_id(&mut self, id: u128) -> (found: bool)
        requires
            old(self).wf(),
        ensures
            final(self).wf(),
            found == old(self)@.contains_key(id),
            found ==> final(self)@ == old(self)@.remove(id),
            found ==> final(self).values_multiset() == old(self).values_multiset().remove(
                old(self)@[id],
            ),
            !found ==> final(self)@ == old(self)@,
            !found ==> final(self).values_multiset() == old(self).values_multiset(),
    {
        match self.find(id) {
            Some(i) => {
                self.entries.remove(i);
                proof {
                    let s = old(self).entries@;
                    assert(s[i as int].0 == id);
                    assert(self.entries@ == s.remove(i as int));
                    lemma_map_of_remove(s, i as int);
                    s.remove_ensures(i as int);
                    broadcast use vstd::seq_lib::group_to_multiset_ensures;

                    let f = |p: (u128, u64)| p.1;
                    s.map_values(f).remove_ensures(i as int);
                    assert(self.entries@.map_values(f) =~= s.map_values(f).remove(i as int));
                    assert(s.map_values(f)[i as int] == old(self)@[id]);
                    assert(self.values_multiset() == old(self).values_multiset().remove(
                        old(self)@[id],
                    ));
                }
                true
            },
            None => false,
        }
    }

    /// The prices of all live entries, in no promised order: the multiset of
    /// the returned values is exactly the multiset of live prices.
    pub fn list_all(&self) -> (r: Vec<u64>)
        requires
            self.wf(),
        ensures
            r@.to_multiset() == self.values_multiset(),
    {
        let n = self.entries.len();
        let mut r: Vec<u64> = Vec::new();
        let mut i: usize = 0;
        while i < n
            invariant
                n == self.entries@.len(),
                i <= n,
                r@ == self.entries@.take(i as int).map_values(|p: (u128, u64)| p.1),
            decreases n - i,
        {
            let ghost prefix = self.entries@.take(i as int);
            r.push(self.entries[i].1);
            i += 1;
            proof {
                let f = |p: (u128, u64)| p.1;
                assert(self.entries@.take(i as int) =~= prefix.push(
                    self.entries@[i as int - 1],
                ));
                assert(self.entries@.take(i as int).map_values(f) =~= prefix.map_values(
                    f,
                ).push(self.entries@[i as int - 1].1));
            }
        }
        proof {
            assert(self.entries@.take(n as int) =~= self.entries@);
            assert(r@ == self.entries@.map_values(|p: (u128, u64)| p.1));
        }
        r
    }

    /// The current price under `id`, or `None` when no live entry carries it.
    pub fn get_by_id(&self, id: u128) -> (r: Option<u64>)
        requires
            self.wf(),
        ensures
            match r {
                Some(v) => self@.contains_key(id) && self@[id] == v,
                None => !self@.contains_key(id),
            },
    {
        match self.find(id) {
            Some(i) => Some(self.entries[i].1),
            None => None,
        }
    }
}

} // verus!
