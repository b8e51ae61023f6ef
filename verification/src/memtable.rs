use vstd::prelude::*;
use vstd::slice::*;
use crate::keys::{key_lt, strictly_increasing, compare_keys, KeyOrder, lemma_key_lt_irreflexive, lemma_key_lt_transitive};

verus! {

/// Bytes counted for each entry on top of its key and value.
pub const ENTRY_OVERHEAD_BYTES: usize = 48;

/// What the memtable holds for a key: a value, or a deletion marker.
#[derive(Clone, PartialEq, Debug)]
pub enum Entry {
    Value(Vec<u8>),
    Tombstone,
}

/// The mathematical value of an [`Entry`].
pub enum EntryView {
    Value(Seq<u8>),
    Tombstone,
}

impl View for Entry {
    type V = EntryView;

    open spec fn view(&self) -> EntryView {
        match self {
            Entry::Value(v) => EntryView::Value(v@),
            Entry::Tombstone => EntryView::Tombstone,
        }
    }
}

/// The answer of a memtable lookup.
#[derive(Clone, PartialEq, Debug)]
pub enum LookupResult {
    Found(Vec<u8>),
    Tombstone,
    NotInMemtable,
}

/// The size that one entry is accounted with.
pub open spec fn entry_size(key: Seq<u8>, e: EntryView) -> nat {
    key.len() + match e {
        EntryView::Value(v) => v.len(),
        EntryView::Tombstone => 0nat,
    } + ENTRY_OVERHEAD_BYTES as nat
}

/// The accounted size of a sequence of entries.
pub open spec fn total_size(s: Seq<(Seq<u8>, EntryView)>) -> nat
    decreases s.len(),
{
    if s.len() == 0 {
        0
    } else {
        entry_size(s[0].0, s[0].1) + total_size(s.drop_first())
    }
}

/// The keys of a sequence of entries, in order.
pub open spec fn keys_of(s: Seq<(Seq<u8>, EntryView)>) -> Seq<Seq<u8>> {
    s.map_values(|p: (Seq<u8>, EntryView)| p.0)
}

/// Whether some entry of `s` has key `k`.
pub open spec fn has_key(s: Seq<(Seq<u8>, EntryView)>, k: Seq<u8>) -> bool {
    exists|i: int| 0 <= i < s.len() && #[trigger] s[i].0 == k
}

/// An index at which `s` holds key `k`, when there is one.
pub open spec fn key_index(s: Seq<(Seq<u8>, EntryView)>, k: Seq<u8>) -> int {
    choose|i: int| 0 <= i < s.len() && #[trigger] s[i].0 == k
}

/// The entry that `s` holds for `k`, if any.
pub open spec fn lookup(s: Seq<(Seq<u8>, EntryView)>, k: Seq<u8>) -> Option<EntryView> {
    if has_key(s, k) {
        Some(s[key_index(s, k)].1)
    } else {
        None
    }
}

/// A sequence of entries read as a map from key to entry.
pub open spec fn entries_map(s: Seq<(Seq<u8>, EntryView)>) -> Map<Seq<u8>, EntryView> {
    Map::new(|k: Seq<u8>| has_key(s, k), |k: Seq<u8>| lookup(s, k).unwrap())
}

/// The accounted size of the entry that `m` holds for `k`, if any.
pub open spec fn replaced_size(m: Map<Seq<u8>, EntryView>, k: Seq<u8>) -> nat {
    if m.contains_key(k) {
        entry_size(k, m[k])
    } else {
        0
    }
}

/// In sorted entries the lookup of a key held at `j` is the entry at `j`.
pub proof fn lemma_lookup_at(s: Seq<(Seq<u8>, EntryView)>, j: int)
    requires
        strictly_increasing(keys_of(s)),
        0 <= j < s.len(),
    ensures
        has_key(s, s[j].0),
        lookup(s, s[j].0) == Some(s[j].1),
{
    let k = s[j].0;
    assert(has_key(s, k));
    let i = key_index(s, k);
    if i != j {
        let ks = keys_of(s);
        assert(ks[i] == s[i].0 && ks[j] == s[j].0);
        if i < j {
            assert(key_lt(ks[i], ks[j]));
        } else {
            assert(key_lt(ks[j], ks[i]));
        }
        lemma_key_lt_irreflexive(k);
    }
    assert(i == j);
    assert(lookup(s, k) == Some(s[i].1));
}

/// Inserting a new key at its sorted place keeps the keys sorted, adds the
/// key to the map, and adds its size to the total.
pub proof fn lemma_insert_sorted(s: Seq<(Seq<u8>, EntryView)>, p: int, key: Seq<u8>, e: EntryView)
    requires
        strictly_increasing(keys_of(s)),
        0 <= p <= s.len(),
        forall|i: int| 0 <= i < p ==> key_lt(#[trigger] s[i].0, key),
        forall|i: int| p <= i < s.len() ==> key_lt(key, #[trigger] s[i].0),
    ensures
        strictly_increasing(keys_of(s.insert(p, (key, e)))),
        entries_map(s.insert(p, (key, e))) == entries_map(s).insert(key, e),
        total_size(s.insert(p, (key, e))) == total_size(s) + entry_size(key, e),
{
    let t = s.insert(p, (key, e));
    let ks = keys_of(s);
    let kt = keys_of(t);
    assert forall|i: int, j: int| 0 <= i < j < kt.len() implies key_lt(
        #[trigger] kt[i],
        #[trigger] kt[j],
    ) by {
        if i < p && j > p {
            assert(key_lt(ks[i], key));
            assert(key_lt(key, ks[j - 1]));
            lemma_key_lt_transitive(ks[i], key, ks[j - 1]);
        } else if i < p && j == p {
        } else if i < p {
            assert(key_lt(ks[i], ks[j]));
        } else if i == p {
            assert(key_lt(key, s[j - 1].0));
        } else {
            assert(key_lt(ks[i - 1], ks[j - 1]));
        }
    }
    assert forall|k: Seq<u8>| #[trigger] entries_map(t).contains_key(k) == entries_map(s).insert(
        key,
        e,
    ).contains_key(k) && (entries_map(t).contains_key(k) ==> entries_map(t)[k] == entries_map(
        s,
    ).insert(key, e)[k]) by {
        if k == key {
            assert(t[p].0 == key);
            lemma_lookup_at(t, p);
        } else if has_key(s, k) {
            let i = choose|i: int| 0 <= i < s.len() && #[trigger] s[i].0 == k;
            lemma_lookup_at(s, i);
            let ti = if i < p { i } else { i + 1 };
            assert(t[ti] == s[i]);
            lemma_lookup_at(t, ti);
        } else {
            if has_key(t, k) {
                let i = choose|i: int| 0 <= i < t.len() && #[trigger] t[i].0 == k;
                if i < p {
                    assert(s[i].0 == k);
                } else if i > p {
                    assert(s[i - 1].0 == k);
                }
            }
        }
    }
    assert(entries_map(t) =~= entries_map(s).insert(key, e));
    lemma_total_size_insert(s, p, (key, e));
}

proof fn lemma_total_size_insert(s: Seq<(Seq<u8>, EntryView)>, p: int, x: (Seq<u8>, EntryView))
    requires
        0 <= p <= s.len(),
    ensures
        total_size(s.insert(p, x)) == total_size(s) + entry_size(x.0, x.1),
    decreases p,
{
    if p == 0 {
        assert(s.insert(0, x).drop_first() =~= s);
    } else {
        lemma_total_size_insert(s.drop_first(), p - 1, x);
        assert(s.insert(p, x).drop_first() =~= s.drop_first().insert(p - 1, x));
    }
}

proof fn lemma_entry_le_total(s: Seq<(Seq<u8>, EntryView)>, i: int)
    requires
        0 <= i < s.len(),
    ensures
        entry_size(s[i].0, s[i].1) <= total_size(s),
    decreases i,
{
    if i > 0 {
        lemma_entry_le_total(s.drop_first(), i - 1);
    }
}

proof fn lemma_total_size_update(s: Seq<(Seq<u8>, EntryView)>, i: int, x: (Seq<u8>, EntryView))
    requires
        0 <= i < s.len(),
    ensures
        total_size(s.update(i, x)) + entry_size(s[i].0, s[i].1) == total_size(s) + entry_size(
            x.0,
            x.1,
        ),
    decreases i,
{
    if i == 0 {
        assert(s.update(0, x).drop_first() =~= s.drop_first());
    } else {
        lemma_total_size_update(s.drop_first(), i - 1, x);
        assert(s.update(i, x).drop_first() =~= s.drop_first().update(i - 1, x));
    }
}

/// Replacing the entry of a key that is present keeps the keys sorted,
/// replaces the key's entry in the map, and swaps the sizes.
pub proof fn lemma_update_sorted(s: Seq<(Seq<u8>, EntryView)>, i: int, e: EntryView)
    requires
        strictly_increasing(keys_of(s)),
        0 <= i < s.len(),
    ensures
        strictly_increasing(keys_of(s.update(i, (s[i].0, e)))),
        entries_map(s.update(i, (s[i].0, e))) == entries_map(s).insert(s[i].0, e),
        total_size(s.update(i, (s[i].0, e))) + entry_size(s[i].0, s[i].1) == total_size(s)
            + entry_size(s[i].0, e),
{
    let key = s[i].0;
    let t = s.update(i, (key, e));
    assert(keys_of(t) =~= keys_of(s));
    assert forall|k: Seq<u8>| #[trigger] entries_map(t).contains_key(k) == entries_map(s).insert(
        key,
        e,
    ).contains_key(k) && (entries_map(t).contains_key(k) ==> entries_map(t)[k] == entries_map(
        s,
    ).insert(key, e)[k]) by {
        if k == key {
            lemma_lookup_at(t, i);
        } else if has_key(s, k) {
            let j = choose|j: int| 0 <= j < s.len() && #[trigger] s[j].0 == k;
            lemma_lookup_at(s, j);
            assert(t[j] == s[j]);
            lemma_lookup_at(t, j);
        } else {
            if has_key(t, k) {
                let j = choose|j: int| 0 <= j < t.len() && #[trigger] t[j].0 == k;
                assert(s[j].0 == k);
            }
        }
    }
    assert(entries_map(t) =~= entries_map(s).insert(key, e));
    lemma_total_size_update(s, i, (key, e));
}

/// The accounted size of one entry: its key, its value (none for a
/// tombstone) and a fixed overhead.
pub fn calc_entry_size(key: &[u8], entry: &Entry) -> (r: usize)
    requires
        entry_size(key@, entry@) <= usize::MAX,
    ensures
        r == entry_size(key@, entry@),
{
    let value_len = match entry {
        Entry::Value(bytes) => bytes.len(),
        Entry::Tombstone => 0,
    };
    key.len() + value_len + ENTRY_OVERHEAD_BYTES
}

/// The sorted in-memory table of the newest writes, with its accounted size.
#[derive(Debug)]
pub struct Memtable {
    data: Vec<(Vec<u8>, Entry)>,
    size_bytes: usize,
}

impl View for Memtable {
    type V = Map<Seq<u8>, EntryView>;

    open spec fn view(&self) -> Map<Seq<u8>, EntryView> {
        entries_map(self.entries())
    }
}

impl Memtable {
    /// The entries in key order.
    pub closed spec fn entries(&self) -> Seq<(Seq<u8>, EntryView)> {
        self.data@.map_values(|p: (Vec<u8>, Entry)| (p.0@, p.1@))
    }

    /// The accounted size that the memtable keeps.
    pub closed spec fn accounted_size(&self) -> nat {
        self.size_bytes as nat
    }

    /// Keys strictly increasing, and the kept size the sum of entry sizes.
    pub open spec fn wf(&self) -> bool {
        &&& strictly_increasing(keys_of(self.entries()))
        &&& self.accounted_size() == total_size(self.entries())
    }

    pub fn new() -> (r: Self)
        ensures
            r.wf(),
            r.entries() == Seq::<(Seq<u8>, EntryView)>::empty(),
            r@ == Map::<Seq<u8>, EntryView>::empty(),
    {
        let r = Self { data: Vec::new(), size_bytes: 0 };
        assert(r.entries() =~= Seq::<(Seq<u8>, EntryView)>::empty());
        assert(r@ =~= Map::<Seq<u8>, EntryView>::empty());
        r
    }

    /// Where `key` stands: its index when present, else the index it would
    /// be inserted at.
    fn find(&self, key: &[u8]) -> (r: (bool, usize))
        requires
            self.wf(),
        ensures
            r.1 <= self.entries().len(),
            r.0 ==> r.1 < self.entries().len() && self.entries()[r.1 as int].0 == key@,
            !r.0 ==> (forall|i: int| 0 <= i < r.1 ==> key_lt(#[trigger] self.entries()[i].0, key@)),
            !r.0 ==> (forall|i: int|
                r.1 <= i < self.entries().len() ==> key_lt(key@, #[trigger] self.entries()[i].0)),
    {
        let ghost es = self.entries();
        let ghost ks = keys_of(es);
        let mut lo: usize = 0;
        let mut hi: usize = self.data.len();
        while lo < hi
            invariant
                es == self.entries(),
                ks == keys_of(es),
                strictly_increasing(ks),
                es.len() == self.data.len(),
                lo <= hi <= self.data.len(),
                forall|i: int| 0 <= i < lo ==> key_lt(#[trigger] es[i].0, key@),
                forall|i: int| hi <= i < es.len() ==> key_lt(key@, #[trigger] es[i].0),
            decreases hi - lo,
        {
            let mid = lo + (hi - lo) / 2;
            let c = compare_keys(self.data[mid].0.as_slice(), key);
            assert(es[mid as int].0 == self.data@[mid as int].0@);
            match c {
                KeyOrder::Equal => {
                    return (true, mid);
                },
                KeyOrder::Less => {
                    proof {
                        assert forall|i: int| 0 <= i < mid + 1 implies key_lt(
                            #[trigger] es[i].0,
                            key@,
                        ) by {
                            if i < mid {
                                assert(key_lt(ks[i], ks[mid as int]));
                                lemma_key_lt_transitive(es[i].0, es[mid as int].0, key@);
                            }
                        }
                    }
                    lo = mid + 1;
                },
                KeyOrder::Greater => {
                    proof {
                        assert forall|i: int| mid <= i < es.len() implies key_lt(
                            key@,
                            #[trigger] es[i].0,
                        ) by {
                            if i > mid {
                                assert(key_lt(ks[mid as int], ks[i]));
                                lemma_key_lt_transitive(key@, es[mid as int].0, es[i].0);
                            }
                        }
                    }
                    hi = mid;
                },
            }
        }
        (false, lo)
    }

    fn upsert(&mut self, key: Vec<u8>, entry: Entry)
        requires
            old(self).wf(),
            old(self).accounted_size() + entry_size(key@, entry@) <= usize::MAX,
        ensures
            final(self).wf(),
            final(self)@ == old(self)@.insert(key@, entry@),
            final(self).accounted_size() == old(self).accounted_size() + entry_size(key@, entry@)
                - replaced_size(old(self)@, key@),
    {
        let new_size = calc_entry_size(key.as_slice(), &entry);
        let (found, pos) = self.find(key.as_slice());
        let ghost es = self.entries();
        if found {
            proof {
                lemma_lookup_at(es, pos as int);
                lemma_update_sorted(es, pos as int, entry@);
                lemma_entry_le_total(es, pos as int);
                assert(es[pos as int] == (self.data@[pos as int].0@, self.data@[pos as int].1@));
            }
            let old_size = calc_entry_size(self.data[pos].0.as_slice(), &self.data[pos].1);
            self.data.set(pos, (key, entry));
            self.size_bytes = self.size_bytes - old_size;
            self.size_bytes = self.size_bytes + new_size;
            proof {
                assert(self.entries() =~= es.update(pos as int, (es[pos as int].0, entry@)));
            }
        } else {
            proof {
                lemma_insert_sorted(es, pos as int, key@, entry@);
                if has_key(es, key@) {
                    let i = key_index(es, key@);
                    lemma_key_lt_irreflexive(key@);
                    if i < pos {
                        assert(key_lt(es[i].0, key@));
                    } else {
                        assert(key_lt(key@, es[i].0));
                    }
                }
            }
            let ghost kv = key@;
            self.data.insert(pos, (key, entry));
            self.size_bytes = self.size_bytes + new_size;
            proof {
                assert(self.entries() =~= es.insert(pos as int, (kv, entry@)));
            }
        }
    }

    /// Records `value` as the newest value of `key`. The accounted size
    /// gains the new entry's size and loses that of the entry it replaces.
    pub fn put(&mut self, key: Vec<u8>, value: Vec<u8>)
        requires
            old(self).wf(),
            old(self).accounted_size() + key@.len() + value@.len() + ENTRY_OVERHEAD_BYTES
                <= usize::MAX,
        ensures
            final(self).wf(),
            final(self)@ == old(self)@.insert(key@, EntryView::Value(value@)),
            final(self).accounted_size() == old(self).accounted_size() + entry_size(
                key@,
                EntryView::Value(value@),
            ) - replaced_size(old(self)@, key@),
    {
        self.upsert(key, Entry::Value(value));
    }

    /// Records a tombstone for `key`, accounted like `put`.
    pub fn delete(&mut self, key: Vec<u8>)
        requires
            old(self).wf(),
            old(self).accounted_size() + key@.len() + ENTRY_OVERHEAD_BYTES <= usize::MAX,
        ensures
            final(self).wf(),
            final(self)@ == old(self)@.insert(key@, EntryView::Tombstone),
            final(self).accounted_size() == old(self).accounted_size() + entry_size(
                key@,
                EntryView::Tombstone,
            ) - replaced_size(old(self)@, key@),
    {
        self.upsert(key, Entry::Tombstone);
    }

    /// The value, the tombstone, or the absence that the memtable holds for `key`.
    pub fn get(&self, key: &[u8]) -> (r: LookupResult)
        requires
            self.wf(),
        ensures
            match r {
                LookupResult::Found(v) => self@.contains_key(key@) && self@[key@] == EntryView::Value(
                    v@,
                ),
                LookupResult::Tombstone => self@.contains_key(key@) && self@[key@]
                    == EntryView::Tombstone,
                LookupResult::NotInMemtable => !self@.contains_key(key@),
            },
    {
        let (found, pos) = self.find(key);
        let ghost es = self.entries();
        if found {
            proof {
                lemma_lookup_at(es, pos as int);
            }
            match &self.data[pos].1 {
                Entry::Value(v) => LookupResult::Found(slice_to_vec(v.as_slice())),
                Entry::Tombstone => LookupResult::Tombstone,
            }
        } else {
            proof {
                if has_key(es, key@) {
                    let i = choose|i: int| 0 <= i < es.len() && #[trigger] es[i].0 == key@;
                    lemma_key_lt_irreflexive(key@);
                    if i < pos {
                        assert(key_lt(es[i].0, key@));
                    } else {
                        assert(key_lt(key@, es[i].0));
                    }
                }
            }
            LookupResult::NotInMemtable
        }
    }

    /// The entries in strictly increasing key order.
    pub fn iter(&self) -> (r: &[(Vec<u8>, Entry)])
        requires
            self.wf(),
        ensures
            r@.len() == self.entries().len(),
            forall|i: int| 0 <= i < r@.len() ==> (#[trigger] r@[i].0@, r@[i].1@) == self.entries()[i],
            strictly_increasing(keys_of(self.entries())),
    {
        self.data.as_slice()
    }

    /// The accounted size: the sum of `calc_entry_size` over the entries.
    pub fn size_bytes(&self) -> (r: usize)
        requires
            self.wf(),
        ensures
            r == total_size(self.entries()),
            r == self.accounted_size(),
    {
        self.size_bytes
    }

    /// The number of keys held.
    pub fn len(&self) -> (r: usize)
        ensures
            r == self.entries().len(),
    {
        self.data.len()
    }

    pub fn is_empty(&self) -> (r: bool)
        ensures
            r == (self.entries().len() == 0),
    {
        self.data.len() == 0
    }
}

impl Default for Memtable {
    fn default() -> (r: Self)
        ensures
            r.wf(),
            r@ == Map::<Seq<u8>, EntryView>::empty(),
    {
        Self::new()
    }
}

} // verus!
