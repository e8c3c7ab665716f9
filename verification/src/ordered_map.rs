use vstd::prelude::*;

use crate::hash::{
    bytes_lt, lemma_bytes_lt_asymmetric, lemma_bytes_lt_irreflexive, lemma_bytes_lt_transitive,
    KeyOrder, RawHash,
};

verus! {

/// The keys of `s` are strictly ascending (so no key occurs twice).
pub open spec fn keys_ascending<V>(s: Seq<(Seq<u8>, V)>) -> bool {
    forall|i: int, j: int| 0 <= i < j < s.len() ==> #[trigger] bytes_lt(s[i].0, s[j].0)
}

/// `k` is the key of some entry of `s`.
pub open spec fn has_key<V>(s: Seq<(Seq<u8>, V)>, k: Seq<u8>) -> bool {
    exists|i: int| 0 <= i < s.len() && #[trigger] s[i].0 == k
}

/// A position of `s` whose key is `k` (meaningful when `has_key(s, k)`).
pub open spec fn key_index<V>(s: Seq<(Seq<u8>, V)>, k: Seq<u8>) -> int {
    choose|i: int| 0 <= i < s.len() && #[trigger] s[i].0 == k
}

/// The map from keys to values that the entries `s` describe.
pub open spec fn entries_map<V>(s: Seq<(Seq<u8>, V)>) -> Map<Seq<u8>, V> {
    Map::new(|k: Seq<u8>| has_key(s, k), |k: Seq<u8>| s[key_index(s, k)].1)
}

/// The map obtained by inserting the pairs of `s` one after another, so that
/// a later pair with the same key replaces an earlier one.
pub open spec fn pairs_map<V>(s: Seq<(Seq<u8>, V)>) -> Map<Seq<u8>, V>
    decreases s.len(),
{
    if s.len() == 0 {
        Map::empty()
    } else {
        pairs_map(s.drop_last()).insert(s.last().0, s.last().1)
    }
}

/// Holochain-hash keyed pairs, each key taken as its bytes.
pub open spec fn view_entries<V>(s: Seq<(RawHash, V)>) -> Seq<(Seq<u8>, V)> {
    s.map_values(|e: (RawHash, V)| (e.0@, e.1))
}

/// The values of `s`, in the order of its entries.
pub open spec fn entry_values<V>(s: Seq<(Seq<u8>, V)>) -> Seq<V> {
    s.map_values(|e: (Seq<u8>, V)| e.1)
}

/// In entries with ascending keys, the map gives each entry's key its value.
pub proof fn lemma_entries_map_at<V>(s: Seq<(Seq<u8>, V)>, i: int)
    requires
        keys_ascending(s),
        0 <= i < s.len(),
    ensures
        entries_map(s).dom().contains(s[i].0),
        entries_map(s)[s[i].0] == s[i].1,
        key_index(s, s[i].0) == i,
{
    let k = s[i].0;
    assert(has_key(s, k));
    let j = key_index(s, k);
    if j < i {
        assert(bytes_lt(s[j].0, s[i].0));
        lemma_bytes_lt_irreflexive(k);
    } else if i < j {
        assert(bytes_lt(s[i].0, s[j].0));
        lemma_bytes_lt_irreflexive(k);
    }
}

/// Entries with ascending keys are determined by the map they describe: this
/// is why an ordered map's contents in key order follow from its map.
pub proof fn lemma_ascending_determined<V>(a: Seq<(Seq<u8>, V)>, b: Seq<(Seq<u8>, V)>)
    requires
        keys_ascending(a),
        keys_ascending(b),
        entries_map(a) == entries_map(b),
    ensures
        a == b,
    decreases a.len(),
{
    if a.len() == 0 {
        if b.len() > 0 {
            lemma_entries_map_at(b, 0);
            assert(entries_map(a).dom().contains(b[0].0));
            let i = key_index(a, b[0].0);
            assert(0 <= i < a.len());
        }
        assert(a =~= b);
    } else {
        lemma_entries_map_at(a, 0);
        let k = a[0].0;
        assert(entries_map(b).dom().contains(k));
        assert(b.len() > 0);
        lemma_entries_map_at(b, 0);
        let k2 = b[0].0;
        assert(entries_map(a).dom().contains(k2));
        let i = key_index(a, k2);
        let j = key_index(b, k);
        assert(a[i].0 == k2);
        assert(b[j].0 == k);
        if k != k2 {
            if i > 0 && j > 0 {
                assert(bytes_lt(a[0].0, a[i].0));
                assert(bytes_lt(b[0].0, b[j].0));
                lemma_bytes_lt_asymmetric(k, k2);
            } else if i == 0 {
                assert(false);
            } else {
                assert(false);
            }
        }
        assert(a[0] == b[0]);
        lemma_drop_first_map(a);
        lemma_drop_first_map(b);
        lemma_ascending_determined(a.drop_first(), b.drop_first());
        assert(a =~= seq![a[0]] + a.drop_first());
        assert(b =~= seq![b[0]] + b.drop_first());
    }
}

/// Dropping the first entry of ascending entries drops its key from the map.
proof fn lemma_drop_first_map<V>(s: Seq<(Seq<u8>, V)>)
    requires
        keys_ascending(s),
        s.len() > 0,
    ensures
        keys_ascending(s.drop_first()),
        entries_map(s.drop_first()) == entries_map(s).remove(s[0].0),
{
    let t = s.drop_first();
    assert(keys_ascending(t)) by {
        assert forall|i: int, j: int| 0 <= i < j < t.len() implies #[trigger] bytes_lt(
            t[i].0,
            t[j].0,
        ) by {
            assert(t[i] == s[i + 1]);
            assert(t[j] == s[j + 1]);
        }
    }
    let m = entries_map(s).remove(s[0].0);
    assert forall|k: Seq<u8>| entries_map(t).dom().contains(k) <==> m.dom().contains(k) by {
        if has_key(t, k) {
            let i = key_index(t, k);
            assert(s[i + 1] == t[i]);
            assert(bytes_lt(s[0].0, s[i + 1].0));
            if k == s[0].0 {
                lemma_bytes_lt_irreflexive(k);
            }
            assert(has_key(s, k));
        }
        if m.dom().contains(k) {
            let i = key_index(s, k);
            assert(i != 0);
            assert(t[i - 1] == s[i]);
            assert(has_key(t, k));
        }
    }
    assert forall|k: Seq<u8>| #[trigger] entries_map(t).dom().contains(k) implies entries_map(t)[k]
        == m[k] by {
        let i = key_index(t, k);
        assert(s[i + 1] == t[i]);
        lemma_entries_map_at(s, i + 1);
        lemma_entries_map_at(t, i);
        assert(m.dom().contains(k));
    }
    assert(entries_map(t) =~= m);
}

/// Inserting an entry at its place among ascending entries adds its key to
/// the map.
pub proof fn lemma_map_insert_at<V>(s: Seq<(Seq<u8>, V)>, p: int, e: (Seq<u8>, V))
    requires
        0 <= p <= s.len(),
        keys_ascending(s),
        keys_ascending(s.insert(p, e)),
    ensures
        entries_map(s.insert(p, e)) == entries_map(s).insert(e.0, e.1),
{
    let t = s.insert(p, e);
    let m = entries_map(s).insert(e.0, e.1);
    assert forall|k: Seq<u8>| entries_map(t).dom().contains(k) <==> m.dom().contains(k) by {
        if has_key(t, k) {
            let i = key_index(t, k);
            if i < p {
                assert(t[i] == s[i]);
            } else if i > p {
                assert(t[i] == s[i - 1]);
            }
        }
        if has_key(s, k) {
            let i = key_index(s, k);
            if i < p {
                assert(t[i] == s[i]);
            } else {
                assert(t[i + 1] == s[i]);
            }
        }
        if k == e.0 {
            assert(t[p] == e);
        }
    }
    assert forall|k: Seq<u8>| #[trigger] entries_map(t).dom().contains(k) implies entries_map(t)[k]
        == m[k] by {
        let i = key_index(t, k);
        lemma_entries_map_at(t, i);
        if i < p {
            assert(t[i] == s[i]);
            lemma_entries_map_at(s, i);
            if k == e.0 {
                assert(t[p] == e);
                lemma_entries_map_at(t, p);
            }
        } else if i > p {
            assert(t[i] == s[i - 1]);
            lemma_entries_map_at(s, i - 1);
            if k == e.0 {
                assert(t[p] == e);
                lemma_entries_map_at(t, p);
            }
        } else {
            assert(t[p] == e);
        }
    }
    assert(entries_map(t) =~= m);
}

/// Replacing the value of an entry among ascending entries replaces it in the
/// map.
pub proof fn lemma_map_update_at<V>(s: Seq<(Seq<u8>, V)>, p: int, e: (Seq<u8>, V))
    requires
        0 <= p < s.len(),
        keys_ascending(s),
        s[p].0 == e.0,
    ensures
        keys_ascending(s.update(p, e)),
        entries_map(s.update(p, e)) == entries_map(s).insert(e.0, e.1),
{
    let t = s.update(p, e);
    assert(keys_ascending(t)) by {
        assert forall|i: int, j: int| 0 <= i < j < t.len() implies #[trigger] bytes_lt(
            t[i].0,
            t[j].0,
        ) by {
            assert(t[i].0 == s[i].0);
            assert(t[j].0 == s[j].0);
        }
    }
    let m = entries_map(s).insert(e.0, e.1);
    assert forall|k: Seq<u8>| entries_map(t).dom().contains(k) <==> m.dom().contains(k) by {
        if has_key(t, k) {
            let i = key_index(t, k);
            assert(t[i].0 == s[i].0);
        }
        if has_key(s, k) {
            let i = key_index(s, k);
            assert(t[i].0 == s[i].0);
        }
        if k == e.0 {
            assert(t[p] == e);
        }
    }
    assert forall|k: Seq<u8>| #[trigger] entries_map(t).dom().contains(k) implies entries_map(t)[k]
        == m[k] by {
        let i = key_index(t, k);
        lemma_entries_map_at(t, i);
        if i != p {
            assert(t[i] == s[i]);
            lemma_entries_map_at(s, i);
            lemma_entries_map_at(s, p);
        }
    }
    assert(entries_map(t) =~= m);
}

/// Removing an entry from ascending entries removes its key from the map.
pub proof fn lemma_map_remove_at<V>(s: Seq<(Seq<u8>, V)>, p: int)
    requires
        0 <= p < s.len(),
        keys_ascending(s),
    ensures
        keys_ascending(s.remove(p)),
        entries_map(s.remove(p)) == entries_map(s).remove(s[p].0),
{
    let t = s.remove(p);
    assert(keys_ascending(t)) by {
        assert forall|i: int, j: int| 0 <= i < j < t.len() implies #[trigger] bytes_lt(
            t[i].0,
            t[j].0,
        ) by {
            let i2 = if i < p { i } else { i + 1 };
            let j2 = if j < p { j } else { j + 1 };
            assert(t[i] == s[i2]);
            assert(t[j] == s[j2]);
        }
    }
    let m = entries_map(s).remove(s[p].0);
    assert forall|k: Seq<u8>| entries_map(t).dom().contains(k) <==> m.dom().contains(k) by {
        if has_key(t, k) {
            let i = key_index(t, k);
            let i2 = if i < p { i } else { i + 1 };
            assert(t[i] == s[i2]);
            lemma_entries_map_at(s, i2);
            lemma_entries_map_at(s, p);
        }
        if m.dom().contains(k) {
            let i = key_index(s, k);
            assert(i != p);
            if i < p {
                assert(t[i] == s[i]);
            } else {
                assert(t[i - 1] == s[i]);
            }
        }
    }
    assert forall|k: Seq<u8>| #[trigger] entries_map(t).dom().contains(k) implies entries_map(t)[k]
        == m[k] by {
        let i = key_index(t, k);
        lemma_entries_map_at(t, i);
        let i2 = if i < p { i } else { i + 1 };
        assert(t[i] == s[i2]);
        lemma_entries_map_at(s, i2);
        assert(m.dom().contains(k));
    }
    assert(entries_map(t) =~= m);
}

/// When pairs are collected into a map, the last pair with a key gives that
/// key its value, and the keys are those of the pairs.
pub proof fn law_last_pair_wins<V>(s: Seq<(Seq<u8>, V)>, i: int)
    requires
        0 <= i < s.len(),
        forall|j: int| i < j < s.len() ==> #[trigger] s[j].0 != s[i].0,
    ensures
        pairs_map(s).dom().contains(s[i].0),
        pairs_map(s)[s[i].0] == s[i].1,
    decreases s.len(),
{
    if i < s.len() - 1 {
        let t = s.drop_last();
        assert forall|j: int| i < j < t.len() implies #[trigger] t[j].0 != t[i].0 by {
            assert(t[j] == s[j] && t[i] == s[i]);
        }
        law_last_pair_wins(t, i);
        assert(t[i] == s[i]);
        assert(s.last().0 != s[i].0);
    }
}

/// Collecting the entries of an ordered map gives back the same map: taking
/// a map apart into its entries and collecting them again undoes nothing.
pub proof fn law_collect_entries_round_trip<V>(s: Seq<(Seq<u8>, V)>)
    requires
        keys_ascending(s),
    ensures
        pairs_map(s) == entries_map(s),
    decreases s.len(),
{
    if s.len() == 0 {
        assert(entries_map(s) =~= Map::empty());
    } else {
        let t = s.drop_last();
        assert(keys_ascending(t)) by {
            assert forall|i: int, j: int| 0 <= i < j < t.len() implies #[trigger] bytes_lt(
                t[i].0,
                t[j].0,
            ) by {
                assert(t[i] == s[i] && t[j] == s[j]);
            }
        }
        law_collect_entries_round_trip(t);
        assert(t.insert(t.len() as int, s.last()) =~= s);
        lemma_map_insert_at(t, t.len() as int, s.last());
    }
}

/// A map from Holochain hashes to values, kept in ascending key order: the
/// order in which a `BTreeMap` keyed by hashes holds and walks its entries.
pub struct OrderedMap<V> {
    entries: Vec<(RawHash, V)>,
}

impl<V> View for OrderedMap<V> {
    type V = Seq<(Seq<u8>, V)>;

    /// The entries in key order, each key taken as its bytes.
    closed spec fn view(&self) -> Seq<(Seq<u8>, V)> {
        view_entries(self.entries@)
    }
}

/// Where a key stands among ascending entries: at a position, or before the
/// entry at a position (the length when it is above every key).
enum Slot {
    Found(usize),
    Vacant(usize),
}

impl<V> OrderedMap<V> {
    /// The keys are strictly ascending.
    #[verifier::type_invariant]
    pub open spec fn well_formed(&self) -> bool {
        keys_ascending(self@)
    }

    /// The map that the entries describe.
    pub open spec fn as_map(&self) -> Map<Seq<u8>, V> {
        entries_map(self@)
    }

    proof fn lemma_view(&self)
        ensures
            self@.len() == self.entries@.len(),
            forall|i: int|
                0 <= i < self@.len() ==> #[trigger] self@[i] == (
                self.entries@[i].0@,
                self.entries@[i].1,
            ),
    {
    }

    /// An empty map.
    pub fn new() -> (m: OrderedMap<V>)
        ensures
            m@ == Seq::<(Seq<u8>, V)>::empty(),
    {
        let m = OrderedMap { entries: Vec::new() };
        assert(m@ =~= Seq::<(Seq<u8>, V)>::empty());
        m
    }

    /// The number of entries.
    pub fn len(&self) -> (n: usize)
        ensures
            n == self@.len(),
    {
        self.entries.len()
    }

    /// The entry at position `i` in key order.
    pub fn entry(&self, i: usize) -> (r: &(RawHash, V))
        requires
            i < self@.len(),
        ensures
            (r.0@, r.1) == self@[i as int],
    {
        proof {
            self.lemma_view();
        }
        &self.entries[i]
    }

    /// Where `key` stands.
    fn slot(&self, key: &RawHash) -> (r: Slot)
        ensures
            r matches Slot::Found(i) ==> i < self@.len() && self@[i as int].0 == key@,
            r matches Slot::Vacant(p) ==> {
                &&& p <= self@.len()
                &&& forall|j: int| 0 <= j < p ==> bytes_lt(#[trigger] self@[j].0, key@)
                &&& forall|j: int| p <= j < self@.len() ==> bytes_lt(key@, #[trigger] self@[j].0)
            },
    {
        proof {
            use_type_invariant(self);
            self.lemma_view();
        }
        let n = self.entries.len();
        let mut i: usize = 0;
        while i < n
            invariant
                n == self@.len(),
                i <= n,
                keys_ascending(self@),
                forall|j: int| 0 <= j < i ==> bytes_lt(#[trigger] self@[j].0, key@),
                self@.len() == self.entries@.len(),
                forall|j: int|
                    0 <= j < self@.len() ==> #[trigger] self@[j] == (
                    self.entries@[j].0@,
                    self.entries@[j].1,
                ),
            decreases n - i,
        {
            match self.entries[i].0.compare(key) {
                KeyOrder::Less => {
                    i = i + 1;
                },
                KeyOrder::Equal => {
                    return Slot::Found(i);
                },
                KeyOrder::Greater => {
                    assert forall|j: int| i <= j < self@.len() implies bytes_lt(
                        key@,
                        #[trigger] self@[j].0,
                    ) by {
                        if j > i {
                            assert(bytes_lt(self@[i as int].0, self@[j].0));
                            lemma_bytes_lt_transitive(key@, self@[i as int].0, self@[j].0);
                        }
                    }
                    return Slot::Vacant(i);
                },
            }
        }
        Slot::Vacant(i)
    }

    /// Whether some entry has the key `key`.
    pub fn contains_key(&self, key: &RawHash) -> (r: bool)
        ensures
            r == self.as_map().dom().contains(key@),
    {
        proof {
            use_type_invariant(self);
        }
        match self.slot(key) {
            Slot::Found(i) => {
                proof {
                    lemma_entries_map_at(self@, i as int);
                }
                true
            },
            Slot::Vacant(p) => {
                proof {
                    if has_key(self@, key@) {
                        let j = key_index(self@, key@);
                        lemma_bytes_lt_irreflexive(key@);
                        if j < p {
                            assert(bytes_lt(self@[j].0, key@));
                        } else {
                            assert(bytes_lt(key@, self@[j].0));
                        }
                    }
                }
                false
            },
        }
    }

    /// The value under `key`, if any.
    pub fn get(&self, key: &RawHash) -> (r: Option<&V>)
        ensures
            r matches Some(v) ==> self.as_map().dom().contains(key@) && *v == self.as_map()[key@],
            r is None ==> !self.as_map().dom().contains(key@),
    {
        proof {
            use_type_invariant(self);
            self.lemma_view();
        }
        match self.slot(key) {
            Slot::Found(i) => {
                proof {
                    lemma_entries_map_at(self@, i as int);
                }
                Some(&self.entries[i].1)
            },
            Slot::Vacant(p) => {
                proof {
                    if has_key(self@, key@) {
                        let j = key_index(self@, key@);
                        lemma_bytes_lt_irreflexive(key@);
                        if j < p {
                            assert(bytes_lt(self@[j].0, key@));
                        } else {
                            assert(bytes_lt(key@, self@[j].0));
                        }
                    }
                }
                None
            },
        }
    }
    /// Sets the value under `key`, adding the key when it is new.
    pub fn insert(&mut self, key: RawHash, value: V)
        ensures
            final(self).as_map() == old(self).as_map().insert(key@, value),
    {
        proof {
            use_type_invariant(&*self);
            self.lemma_view();
        }
        let slot = self.slot(&key);
        let ghost old_view = self@;
        let ghost k = key@;
        let mut entries: Vec<(RawHash, V)> = Vec::new();
        std::mem::swap(&mut entries, &mut self.entries);
        assert(old_view == view_entries(entries@));
        match slot {
            Slot::Found(i) => {
                entries.remove(i);
                entries.insert(i, (key, value));
                proof {
                    assert(view_entries(entries@) =~= old_view.update(i as int, (k, value)));
                    lemma_map_update_at(old_view, i as int, (k, value));
                }
            },
            Slot::Vacant(p) => {
                entries.insert(p, (key, value));
                proof {
                    let t = old_view.insert(p as int, (k, value));
                    assert(view_entries(entries@) =~= t);
                    assert forall|i: int, j: int| 0 <= i < j < t.len() implies #[trigger] bytes_lt(
                        t[i].0,
                        t[j].0,
                    ) by {
                        if j < p {
                            assert(t[i] == old_view[i] && t[j] == old_view[j]);
                        } else if j == p {
                            assert(t[i] == old_view[i]);
                        } else if i < p {
                            assert(t[i] == old_view[i] && t[j] == old_view[j - 1]);
                        } else if i == p {
                            assert(t[j] == old_view[j - 1]);
                        } else {
                            assert(t[i] == old_view[i - 1] && t[j] == old_view[j - 1]);
                        }
                    }
                    lemma_map_insert_at(old_view, p as int, (k, value));
                }
            },
        }
        self.entries = entries;
    }

    /// Takes the entry under `key` out, returning its value.
    pub fn remove(&mut self, key: &RawHash) -> (r: Option<V>)
        ensures
            final(self).as_map() == old(self).as_map().remove(key@),
            old(self).as_map().dom().contains(key@) ==> r == Some(old(self).as_map()[key@]),
            !old(self).as_map().dom().contains(key@) ==> r is None,
    {
        proof {
            use_type_invariant(&*self);
            self.lemma_view();
        }
        match self.slot(key) {
            Slot::Found(i) => {
                let ghost old_view = self@;
                        let mut entries: Vec<(RawHash, V)> = Vec::new();
                std::mem::swap(&mut entries, &mut self.entries);
                assert(old_view == view_entries(entries@));
                let (_k, v) = entries.remove(i);
                proof {
                    assert(view_entries(entries@) =~= old_view.remove(i as int));
                    lemma_map_remove_at(old_view, i as int);
                    lemma_entries_map_at(old_view, i as int);
                }
                self.entries = entries;
                Some(v)
            },
            Slot::Vacant(p) => {
                proof {
                    if has_key(self@, key@) {
                        let j = key_index(self@, key@);
                        lemma_bytes_lt_irreflexive(key@);
                        if j < p {
                            assert(bytes_lt(self@[j].0, key@));
                        } else {
                            assert(bytes_lt(key@, self@[j].0));
                        }
                    }
                    assert(self.as_map() =~= self.as_map().remove(key@));
                }
                None
            },
        }
    }

    /// Collects pairs into a map; where two pairs share a key, the later one's
    /// value stays.
    pub fn from_entries(pairs: Vec<(RawHash, V)>) -> (m: OrderedMap<V>)
        ensures
            m.as_map() == pairs_map(view_entries(pairs@)),
    {
        let ghost all = view_entries(pairs@);
        let mut m = OrderedMap::new();
        proof {
            assert(m.as_map() =~= Map::empty());
            assert(all.take(0) =~= Seq::<(Seq<u8>, V)>::empty());
        }
        for pair in it: pairs
            invariant
                all == view_entries(it.seq()),
                m.as_map() == pairs_map(all.take(it.index() as int)),
        {
            let ghost i = it.index();
            assert(pair == it.seq()[i as int]);
            assert(all[i as int] == (pair.0@, pair.1));
            let (k, v) = pair;
            m.insert(k, v);
            proof {
                assert(all.take(i + 1).drop_last() =~= all.take(i as int));
            }
        }
        proof {
            assert(all.take(all.len() as int) =~= all);
        }
        m
    }

    /// The values, in key order.
    pub fn into_values(self) -> (r: Vec<V>)
        ensures
            r@ == entry_values(self@),
            r@.len() == self@.len(),
            forall|i: int| 0 <= i < r@.len() ==> #[trigger] r@[i] == self@[i].1,
    {
        let ghost view = self@;
        let mut r: Vec<V> = Vec::new();
        for pair in it: self.entries
            invariant
                view == view_entries(it.seq()),
                r@ == entry_values(view).take(it.index() as int),
        {
            let (_k, v) = pair;
            r.push(v);
            assert(r@ =~= entry_values(view).take(it.index() + 1));
        }
        assert(r@ =~= entry_values(view));
        r
    }

    /// The entries, in key order.
    pub fn into_entries(self) -> (r: Vec<(RawHash, V)>)
        ensures
            view_entries(r@) == self@,
            r@.len() == self@.len(),
            forall|i: int| 0 <= i < r@.len() ==> (#[trigger] r@[i]).0@ == self@[i].0 && r@[i].1 == self@[i].1,
    {
        let r = self.entries;
        assert forall|i: int| 0 <= i < r@.len() implies (#[trigger] r@[i]).0@ == self@[i].0 && r@[i].1 == self@[i].1 by {
            assert(view_entries(r@)[i] == (r@[i].0@, r@[i].1));
        }
        r
    }
}

} // verus!
