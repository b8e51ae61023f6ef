use vstd::prelude::*;
use vstd::bytes::*;
use crate::bloom::{
    bloom_set, byte_count, inserted_all, law_bloom_bytes_round_trip, law_no_false_negatives,
    probe_set, spec_bloom_bytes, spec_read_bloom,
};
use crate::error::IoError;
use crate::keys::{
    key_lt, lemma_key_lt_irreflexive, lemma_key_lt_transitive, lemma_key_lt_trichotomy,
    strictly_increasing,
};
use crate::memtable::{has_key, keys_of, lemma_lookup_at, lookup, EntryView};
use crate::sstable::footer::{law_footer_round_trip, spec_footer_bytes, spec_read_footer, Footer};
use crate::sstable::reader::{
    first_with_offset, index_keys, spec_block_end, spec_block_index, spec_get, spec_open,
    spec_parse_index, spec_scan, spec_scan_at, ReaderModel,
};
use crate::sstable::writer::{
    model_add, model_flush, model_of, spec_block_record, spec_index_bytes, spec_index_entry_bytes,
    spec_records, spec_sstable_file, WriterModel, SSTABLE_VERSION, TARGET_BLOCK_SIZE,
};

verus! {

/// Entries whose key and value lengths fit the `u32` length fields.
pub open spec fn entries_fit(es: Seq<(Seq<u8>, EntryView)>) -> bool {
    forall|i: int|
        0 <= i < es.len() ==> (#[trigger] es[i]).0.len() <= u32::MAX && match es[i].1 {
            EntryView::Value(v) => v.len() <= u32::MAX,
            EntryView::Tombstone => true,
        }
}

/// How many entries the writer has written out in closed blocks.
pub open spec fn model_cut(es: Seq<(Seq<u8>, EntryView)>) -> int
    decreases es.len(),
{
    if es.len() == 0 {
        0
    } else {
        let p = es.drop_last();
        let m = model_of(p);
        if (m.block + spec_block_record(es.last().0, es.last().1)).len() >= TARGET_BLOCK_SIZE {
            es.len() as int
        } else {
            model_cut(p)
        }
    }
}

/// The entry positions at which the closed blocks start.
pub open spec fn model_starts(es: Seq<(Seq<u8>, EntryView)>) -> Seq<int>
    decreases es.len(),
{
    if es.len() == 0 {
        Seq::empty()
    } else {
        let p = es.drop_last();
        let m = model_of(p);
        if (m.block + spec_block_record(es.last().0, es.last().1)).len() >= TARGET_BLOCK_SIZE {
            model_starts(p).push(model_cut(p))
        } else {
            model_starts(p)
        }
    }
}

/// Where the records of the first `i` entries end.
pub open spec fn offset_of(es: Seq<(Seq<u8>, EntryView)>, i: int) -> int {
    spec_records(es.take(i)).len() as int
}

pub open spec fn starts_ok(es: Seq<(Seq<u8>, EntryView)>, starts: Seq<int>, index: Seq<(Seq<u8>, u64)>, cut: int) -> bool {
    &&& starts.len() == index.len()
    &&& forall|j: int| 0 <= j < starts.len() ==> 0 <= #[trigger] starts[j] < cut
    &&& forall|i: int, j: int| 0 <= i < j < starts.len() ==> #[trigger] starts[i] < #[trigger] starts[j]
    &&& starts.len() > 0 ==> starts[0] == 0
    &&& starts.len() == 0 ==> cut == 0
    &&& forall|j: int|
        0 <= j < starts.len() ==> #[trigger] index[j] == (
            es[starts[j]].0,
            offset_of(es, starts[j]) as u64,
        )
}

pub open spec fn model_inv(es: Seq<(Seq<u8>, EntryView)>) -> bool {
    let m = model_of(es);
    let cut = model_cut(es);
    &&& 0 <= cut <= es.len()
    &&& m.data == spec_records(es.take(cut))
    &&& m.block == spec_records(es.subrange(cut, es.len() as int))
    &&& cut < es.len() ==> m.first == Some(es[cut].0)
    &&& cut == es.len() ==> m.first is None
    &&& starts_ok(es, model_starts(es), m.index, cut)
}

pub proof fn lemma_record_len(key: Seq<u8>, e: EntryView)
    ensures
        spec_block_record(key, e).len() == 9 + key.len() + match e {
            EntryView::Value(v) => v.len(),
            EntryView::Tombstone => 0nat,
        },
{
    lemma_auto_spec_u32_to_from_le_bytes();
}

pub proof fn lemma_records_append(a: Seq<(Seq<u8>, EntryView)>, b: Seq<(Seq<u8>, EntryView)>)
    ensures
        spec_records(a + b) == spec_records(a) + spec_records(b),
    decreases b.len(),
{
    if b.len() == 0 {
        assert(a + b =~= a);
        assert(spec_records(a) + spec_records(b) =~= spec_records(a));
    } else {
        lemma_records_append(a, b.drop_last());
        assert((a + b).drop_last() =~= a + b.drop_last());
        assert((a + b).last() == b.last());
        assert(spec_records(a + b) =~= spec_records(a) + spec_records(b));
    }
}

pub proof fn lemma_records_nonempty(s: Seq<(Seq<u8>, EntryView)>)
    ensures
        s.len() > 0 ==> spec_records(s).len() >= 9,
        s.len() == 0 ==> spec_records(s).len() == 0,
    decreases s.len(),
{
    if s.len() > 0 {
        lemma_records_nonempty(s.drop_last());
        lemma_record_len(s.last().0, s.last().1);
    }
}

/// The records of entries `a..b` sit between the offsets of `a` and `b`.
pub proof fn lemma_records_split(es: Seq<(Seq<u8>, EntryView)>, a: int, b: int)
    requires
        0 <= a <= b <= es.len(),
    ensures
        spec_records(es.take(b)) == spec_records(es.take(a)) + spec_records(es.subrange(a, b)),
        offset_of(es, a) <= offset_of(es, b),
        a < b ==> offset_of(es, a) < offset_of(es, b),
        spec_records(es.take(b)).subrange(offset_of(es, a), offset_of(es, b)) == spec_records(
            es.subrange(a, b),
        ),
{
    assert(es.take(b) =~= es.take(a) + es.subrange(a, b));
    lemma_records_append(es.take(a), es.subrange(a, b));
    lemma_records_nonempty(es.subrange(a, b));
    assert(spec_records(es.take(b)).subrange(offset_of(es, a), offset_of(es, b)) =~= spec_records(
        es.subrange(a, b),
    ));
}

pub proof fn lemma_model_inv(es: Seq<(Seq<u8>, EntryView)>)
    ensures
        model_inv(es),
    decreases es.len(),
{
    if es.len() == 0 {
        assert(es.take(0) =~= Seq::<(Seq<u8>, EntryView)>::empty());
        assert(es.subrange(0, 0) =~= Seq::<(Seq<u8>, EntryView)>::empty());
    } else {
        let p = es.drop_last();
        let n = p.len() as int;
        let x = es.last();
        lemma_model_inv(p);
        let m = model_of(p);
        let cut = model_cut(p);
        let starts = model_starts(p);
        let rec = spec_block_record(x.0, x.1);
        let first = if m.first is None { Some(x.0) } else { m.first };
        assert(es =~= p.push(x));
        assert(es.subrange(cut, n + 1) =~= p.subrange(cut, n).push(x));
        lemma_records_append(p.subrange(cut, n), seq![x]);
        assert(p.subrange(cut, n) + seq![x] =~= es.subrange(cut, n + 1));
        assert(spec_records(seq![x]) == rec) by {
            assert(seq![x].drop_last() =~= Seq::<(Seq<u8>, EntryView)>::empty());
            assert(seq![x].last() == x);
            assert(spec_records(Seq::<(Seq<u8>, EntryView)>::empty()) + rec =~= rec);
        }
        let blk = m.block + rec;
        assert(blk == spec_records(es.subrange(cut, n + 1)));
        assert forall|j: int| 0 <= j < starts.len() implies es[starts[j]] == p[starts[j]]
            && es.take(starts[j]) == p.take(starts[j]) by {
            assert(es.take(starts[j]) =~= p.take(starts[j]));
        }
        assert(es.take(cut) =~= p.take(cut));
        if blk.len() >= TARGET_BLOCK_SIZE {
            lemma_records_split(es, cut, n + 1);
            assert(es.take(n + 1) =~= es);
            assert(es.subrange(n + 1, n + 1) =~= Seq::<(Seq<u8>, EntryView)>::empty());
            assert(cut < n + 1);
            assert(es[cut].0 == first.unwrap()) by {
                if cut < n {
                    assert(es[cut] == p[cut]);
                }
            }
            let idx2 = m.index.push((first.unwrap(), m.data.len() as u64));
            let st2 = starts.push(cut);
            assert(starts_ok(es, st2, idx2, n + 1)) by {
                assert forall|j: int| 0 <= j < st2.len() implies #[trigger] idx2[j] == (
                    es[st2[j]].0,
                    offset_of(es, st2[j]) as u64,
                ) by {
                    if j < starts.len() {
                        assert(idx2[j] == m.index[j]);
                        assert(m.index[j] == (p[starts[j]].0, offset_of(p, starts[j]) as u64));
                    } else {
                        assert(m.data == spec_records(es.take(cut)));
                    }
                }
                assert forall|i: int, j: int| 0 <= i < j < st2.len() implies #[trigger] st2[i]
                    < #[trigger] st2[j] by {
                    if j == starts.len() {
                        assert(st2[i] == starts[i]);
                    } else {
                        assert(st2[i] == starts[i] && st2[j] == starts[j]);
                    }
                }
                assert forall|j: int| 0 <= j < st2.len() implies 0 <= #[trigger] st2[j] < n + 1 by {
                    if j < starts.len() {
                        assert(st2[j] == starts[j]);
                    }
                }
            }
        } else {
            if cut == n {
                assert(es[cut] == x);
            } else {
                assert(es[cut] == p[cut]);
            }
            assert(starts_ok(es, starts, m.index, cut)) by {
                assert forall|j: int| 0 <= j < starts.len() implies #[trigger] m.index[j] == (
                    es[starts[j]].0,
                    offset_of(es, starts[j]) as u64,
                ) by {
                    assert(m.index[j] == (p[starts[j]].0, offset_of(p, starts[j]) as u64));
                }
            }
        }
    }
}

/// The block starts of the finished file: the closed blocks and, when the
/// last block was still open, that one too.
pub open spec fn final_starts(es: Seq<(Seq<u8>, EntryView)>) -> Seq<int> {
    if model_of(es).block.len() > 0 {
        model_starts(es).push(model_cut(es))
    } else {
        model_starts(es)
    }
}

pub proof fn lemma_final_model(es: Seq<(Seq<u8>, EntryView)>)
    requires
        es.len() > 0,
    ensures
        model_flush(model_of(es)).data == spec_records(es),
        starts_ok(es, final_starts(es), model_flush(model_of(es)).index, es.len() as int),
        model_flush(model_of(es)).index.len() > 0,
{
    lemma_model_inv(es);
    let m = model_of(es);
    let cut = model_cut(es);
    let n = es.len() as int;
    let starts = model_starts(es);
    lemma_records_nonempty(es.subrange(cut, n));
    assert(es.take(n) =~= es);
    if m.block.len() > 0 {
        lemma_records_split(es, cut, n);
        let mf = model_flush(m);
        let st2 = starts.push(cut);
        assert forall|j: int| 0 <= j < st2.len() implies #[trigger] mf.index[j] == (
            es[st2[j]].0,
            offset_of(es, st2[j]) as u64,
        ) by {
            if j < starts.len() {
                assert(mf.index[j] == m.index[j]);
            }
        }
        assert forall|i: int, j: int| 0 <= i < j < st2.len() implies #[trigger] st2[i]
            < #[trigger] st2[j] by {
            if j == starts.len() {
                assert(st2[i] == starts[i]);
            } else {
                assert(st2[i] == starts[i] && st2[j] == starts[j]);
            }
        }
        assert forall|j: int| 0 <= j < st2.len() implies 0 <= #[trigger] st2[j] < n by {
            if j < starts.len() {
                assert(st2[j] == starts[j]);
            }
        }
    } else {
        assert(cut == n);
    }
}

pub proof fn lemma_index_bytes_cons(x: (Seq<u8>, u64), rest: Seq<(Seq<u8>, u64)>)
    ensures
        spec_index_bytes(seq![x] + rest) == spec_index_entry_bytes(x.0, x.1) + spec_index_bytes(rest),
    decreases rest.len(),
{
    if rest.len() == 0 {
        assert(seq![x] + rest =~= seq![x]);
        assert(seq![x].drop_last() =~= Seq::<(Seq<u8>, u64)>::empty());
        assert(seq![x].last() == x);
        assert(spec_index_bytes(Seq::<(Seq<u8>, u64)>::empty()) + spec_index_entry_bytes(x.0, x.1)
            =~= spec_index_entry_bytes(x.0, x.1));
        assert(spec_index_bytes(seq![x]) =~= spec_index_entry_bytes(x.0, x.1));
        assert(spec_index_entry_bytes(x.0, x.1) + spec_index_bytes(rest) =~= spec_index_entry_bytes(
            x.0,
            x.1,
        ));
    } else {
        lemma_index_bytes_cons(x, rest.drop_last());
        assert((seq![x] + rest).drop_last() =~= seq![x] + rest.drop_last());
        assert((seq![x] + rest).last() == rest.last());
        assert(spec_index_bytes(seq![x] + rest) =~= spec_index_entry_bytes(x.0, x.1)
            + spec_index_bytes(rest));
    }
}

/// An index section reads back as the index that was written.
pub proof fn lemma_parse_index_round_trip(idx: Seq<(Seq<u8>, u64)>)
    requires
        forall|i: int| 0 <= i < idx.len() ==> (#[trigger] idx[i]).0.len() <= u32::MAX,
    ensures
        spec_parse_index(spec_index_bytes(idx)) == Ok::<Seq<(Seq<u8>, u64)>, IoError>(idx),
    decreases idx.len(),
{
    if idx.len() > 0 {
        lemma_auto_spec_u32_to_from_le_bytes();
        lemma_auto_spec_u64_to_from_le_bytes();
        let x = idx[0];
        let rest = idx.drop_first();
        assert(idx =~= seq![x] + rest);
        lemma_index_bytes_cons(x, rest);
        assert forall|i: int| 0 <= i < rest.len() implies (#[trigger] rest[i]).0.len() <= u32::MAX by {
            assert(rest[i] == idx[i + 1]);
        }
        lemma_parse_index_round_trip(rest);
        let b = spec_index_bytes(idx);
        let kl = x.0.len() as int;
        assert(b.subrange(0, 4) =~= spec_u32_to_le_bytes(x.0.len() as u32));
        assert(b.subrange(4, 4 + kl) =~= x.0);
        assert(b.subrange(4 + kl, 12 + kl) =~= spec_u64_to_le_bytes(x.1));
        assert(b.subrange(12 + kl, b.len() as int) =~= spec_index_bytes(rest));
        assert(b.len() >= 12 + kl);
        assert(spec_u32_from_le_bytes(b.subrange(0, 4)) as int == kl);
        assert(spec_u64_from_le_bytes(b.subrange(4 + kl, 12 + kl)) == x.1);
        assert(seq![(x.0, x.1)] + rest =~= idx);
    } else {
        assert(spec_index_bytes(idx) =~= Seq::<u8>::empty());
        assert(idx =~= Seq::<(Seq<u8>, u64)>::empty());
    }
}

/// Looking a key up after a first entry with a smaller key is looking it up
/// in the rest.
proof fn lemma_lookup_rest(ss: Seq<(Seq<u8>, EntryView)>, key: Seq<u8>)
    requires
        strictly_increasing(keys_of(ss)),
        ss.len() > 0,
        key_lt(ss[0].0, key),
    ensures
        strictly_increasing(keys_of(ss.drop_first())),
        lookup(ss, key) == lookup(ss.drop_first(), key),
{
    let rest = ss.drop_first();
    assert forall|i: int, j: int| 0 <= i < j < keys_of(rest).len() implies key_lt(
        #[trigger] keys_of(rest)[i],
        #[trigger] keys_of(rest)[j],
    ) by {
        assert(keys_of(rest)[i] == keys_of(ss)[i + 1]);
        assert(keys_of(rest)[j] == keys_of(ss)[j + 1]);
    }
    lemma_key_lt_trichotomy(ss[0].0, key);
    if has_key(ss, key) {
        let i = choose|i: int| 0 <= i < ss.len() && #[trigger] ss[i].0 == key;
        assert(i > 0);
        assert(rest[i - 1] == ss[i]);
        lemma_lookup_at(ss, i);
        lemma_lookup_at(rest, i - 1);
    } else {
        if has_key(rest, key) {
            let i = choose|i: int| 0 <= i < rest.len() && #[trigger] rest[i].0 == key;
            assert(ss[i + 1] == rest[i]);
        }
    }
}

/// A key below the first key of sorted entries is not among them.
proof fn lemma_below_first(ss: Seq<(Seq<u8>, EntryView)>, key: Seq<u8>)
    requires
        strictly_increasing(keys_of(ss)),
        ss.len() > 0,
        key_lt(key, ss[0].0),
    ensures
        !has_key(ss, key),
        lookup(ss, key) == None::<EntryView>,
{
    if has_key(ss, key) {
        let i = choose|i: int| 0 <= i < ss.len() && #[trigger] ss[i].0 == key;
        if i == 0 {
            lemma_key_lt_irreflexive(key);
        } else {
            assert(keys_of(ss)[0] == ss[0].0 && keys_of(ss)[i] == ss[i].0);
            assert(key_lt(ss[0].0, ss[i].0));
            lemma_key_lt_transitive(key, ss[0].0, key);
            lemma_key_lt_irreflexive(key);
        }
    }
}

/// Scanning the records of sorted entries finds exactly what they hold for
/// the key.
pub proof fn lemma_scan_records(ss: Seq<(Seq<u8>, EntryView)>, key: Seq<u8>)
    requires
        strictly_increasing(keys_of(ss)),
        entries_fit(ss),
    ensures
        spec_scan(spec_records(ss), key) == Ok::<Option<EntryView>, IoError>(lookup(ss, key)),
    decreases ss.len(),
{
    if ss.len() == 0 {
        assert(!has_key(ss, key));
    } else {
        lemma_auto_spec_u32_to_from_le_bytes();
        let x = ss[0];
        let rest = ss.drop_first();
        assert(ss =~= seq![x] + rest);
        lemma_records_append(seq![x], rest);
        assert(spec_records(seq![x]) == spec_block_record(x.0, x.1)) by {
            assert(seq![x].drop_last() =~= Seq::<(Seq<u8>, EntryView)>::empty());
            assert(spec_records(Seq::<(Seq<u8>, EntryView)>::empty()) + spec_block_record(x.0, x.1)
                =~= spec_block_record(x.0, x.1));
        }
        let r = spec_block_record(x.0, x.1);
        let b = r + spec_records(rest);
        let kl = x.0.len() as int;
        let vl: int = match x.1 {
            EntryView::Value(v) => v.len() as int,
            EntryView::Tombstone => 0,
        };
        assert(ss[0].0.len() <= u32::MAX);
        lemma_record_len(x.0, x.1);
        assert(b.subrange(0, 4) =~= spec_u32_to_le_bytes(kl as u32));
        match x.1 {
            EntryView::Value(v) => {
                assert(v.len() <= u32::MAX);
                assert(b.subrange(4, 8) =~= spec_u32_to_le_bytes(v.len() as u32));
                assert(b[8] == 0u8);
                assert(b.subrange(9 + kl, 9 + kl + vl) =~= v);
            },
            EntryView::Tombstone => {
                assert(b.subrange(4, 8) =~= spec_u32_to_le_bytes(0u32));
                assert(b[8] == 1u8);
            },
        }
        assert(b.subrange(9, 9 + kl) =~= x.0);
        assert(b.subrange(9 + kl + vl, b.len() as int) =~= spec_records(rest));
        lemma_key_lt_trichotomy(x.0, key);
        if key_lt(x.0, key) {
            lemma_lookup_rest(ss, key);
            assert(entries_fit(rest)) by {
                assert forall|i: int| 0 <= i < rest.len() implies (#[trigger] rest[i]).0.len()
                    <= u32::MAX && match rest[i].1 {
                    EntryView::Value(v) => v.len() <= u32::MAX,
                    EntryView::Tombstone => true,
                } by {
                    assert(rest[i] == ss[i + 1]);
                }
            }
            lemma_scan_records(rest, key);
        } else if x.0 == key {
            lemma_lookup_at(ss, 0);
        } else {
            lemma_below_first(ss, key);
        }
    }
}

/// Entries `a..b` of sorted entries are sorted, fit when the whole does, and
/// hold the same for a key that only they can hold.
proof fn lemma_lookup_subrange(es: Seq<(Seq<u8>, EntryView)>, a: int, b: int, key: Seq<u8>)
    requires
        strictly_increasing(keys_of(es)),
        entries_fit(es),
        0 <= a <= b <= es.len(),
        forall|p: int| 0 <= p < es.len() && #[trigger] es[p].0 == key ==> a <= p < b,
    ensures
        strictly_increasing(keys_of(es.subrange(a, b))),
        entries_fit(es.subrange(a, b)),
        lookup(es.subrange(a, b), key) == lookup(es, key),
{
    let sub = es.subrange(a, b);
    assert forall|i: int, j: int| 0 <= i < j < keys_of(sub).len() implies key_lt(
        #[trigger] keys_of(sub)[i],
        #[trigger] keys_of(sub)[j],
    ) by {
        assert(keys_of(sub)[i] == keys_of(es)[a + i]);
        assert(keys_of(sub)[j] == keys_of(es)[a + j]);
    }
    assert forall|i: int| 0 <= i < sub.len() implies (#[trigger] sub[i]).0.len() <= u32::MAX
        && match sub[i].1 {
        EntryView::Value(v) => v.len() <= u32::MAX,
        EntryView::Tombstone => true,
    } by {
        assert(sub[i] == es[a + i]);
    }
    if has_key(es, key) {
        let p = choose|p: int| 0 <= p < es.len() && #[trigger] es[p].0 == key;
        assert(sub[p - a] == es[p]);
        lemma_lookup_at(es, p);
        lemma_lookup_at(sub, p - a);
    } else if has_key(sub, key) {
        let i = choose|i: int| 0 <= i < sub.len() && #[trigger] sub[i].0 == key;
        assert(es[a + i] == sub[i]);
    }
}

/// The footer that the writer lays out after `data` and the index `idx`.
pub open spec fn written_footer(data: Seq<u8>, idx: Seq<(Seq<u8>, u64)>) -> Footer {
    Footer {
        index_offset: data.len() as u64,
        bloom_offset: (data.len() + spec_index_bytes(idx).len()) as u64,
        version: SSTABLE_VERSION,
    }
}

/// A written SSTable opens, giving back its footer, index and Bloom filter.
proof fn lemma_open_written(es: Seq<(Seq<u8>, EntryView)>, num_bits: usize, k: u32, bits: Seq<u8>)
    requires
        es.len() > 0,
        entries_fit(es),
        num_bits <= u32::MAX,
        k <= u8::MAX,
        bits.len() == byte_count(num_bits as nat),
        spec_sstable_file(
            model_flush(model_of(es)).data,
            model_flush(model_of(es)).index,
            spec_bloom_bytes(num_bits, k, bits),
        ).len() <= u64::MAX,
    ensures
        spec_open(
            spec_sstable_file(
                model_flush(model_of(es)).data,
                model_flush(model_of(es)).index,
                spec_bloom_bytes(num_bits, k, bits),
            ),
        ) == Ok::<ReaderModel, IoError>(
            ReaderModel {
                footer: written_footer(model_flush(model_of(es)).data, model_flush(model_of(es)).index),
                index: model_flush(model_of(es)).index,
                num_bits,
                k,
                bits,
            },
        ),
{
    let mf = model_flush(model_of(es));
    lemma_final_model(es);
    let st = final_starts(es);
    let idx = mf.index;
    let data = mf.data;
    let ib = spec_index_bytes(idx);
    let bb = spec_bloom_bytes(num_bits, k, bits);
    let f = written_footer(data, idx);
    let c = spec_sstable_file(data, idx, bb);
    law_footer_round_trip(f);
    assert(c == data + ib + bb + spec_footer_bytes(f));
    let end = c.len() - 32;
    assert(c.subrange(end, c.len() as int) =~= spec_footer_bytes(f));
    assert(c.subrange(data.len() as int, (data.len() + ib.len()) as int) =~= ib);
    assert forall|i: int| 0 <= i < idx.len() implies (#[trigger] idx[i]).0.len() <= u32::MAX by {
        assert(idx[i] == (es[st[i]].0, offset_of(es, st[i]) as u64));
        assert(es[st[i]].0.len() <= u32::MAX);
    }
    lemma_parse_index_round_trip(idx);
    law_bloom_bytes_round_trip(num_bits, k, bits, Seq::empty());
    assert(bb + Seq::<u8>::empty() =~= bb);
    assert(c.subrange((data.len() + ib.len()) as int, end) =~= bb);
}

/// The written index is sorted.
proof fn lemma_written_index_sorted(es: Seq<(Seq<u8>, EntryView)>)
    requires
        es.len() > 0,
        strictly_increasing(keys_of(es)),
    ensures
        strictly_increasing(index_keys(model_flush(model_of(es)).index)),
{
    lemma_final_model(es);
    let st = final_starts(es);
    let idx = model_flush(model_of(es)).index;
    assert forall|i: int, j: int| 0 <= i < j < index_keys(idx).len() implies key_lt(
        #[trigger] index_keys(idx)[i],
        #[trigger] index_keys(idx)[j],
    ) by {
        assert(idx[i] == (es[st[i]].0, offset_of(es, st[i]) as u64));
        assert(idx[j] == (es[st[j]].0, offset_of(es, st[j]) as u64));
        assert(st[i] < st[j]);
        assert(keys_of(es)[st[i]] == es[st[i]].0);
        assert(keys_of(es)[st[j]] == es[st[j]].0);
    }
}

/// Scanning the block that the index picks for `key` finds what the
/// entries hold for it.
#[verifier::rlimit(50)]
proof fn lemma_block_lookup(es: Seq<(Seq<u8>, EntryView)>, c: Seq<u8>, j: int, key: Seq<u8>)
    requires
        es.len() > 0,
        strictly_increasing(keys_of(es)),
        entries_fit(es),
        model_flush(model_of(es)).data.len() <= c.len() <= u64::MAX,
        c.subrange(0, model_flush(model_of(es)).data.len() as int) == model_flush(model_of(es)).data,
        0 <= j < model_flush(model_of(es)).index.len(),
        !key_lt(key, model_flush(model_of(es)).index[j].0),
        j + 1 == model_flush(model_of(es)).index.len() || key_lt(
            key,
            model_flush(model_of(es)).index[j + 1].0,
        ),
    ensures
        spec_scan_at(
            c,
            model_flush(model_of(es)).index,
            model_flush(model_of(es)).data.len() as u64,
            model_flush(model_of(es)).index[j].1,
            key,
        ) == Ok::<Option<EntryView>, IoError>(lookup(es, key)),
{
    let mf = model_flush(model_of(es));
    lemma_final_model(es);
    let st = final_starts(es);
    let idx = mf.index;
    let data = mf.data;
    let n = es.len() as int;
    assert(data == spec_records(es.take(n))) by {
        assert(es.take(n) =~= es);
    }
    let sj = st[j];
    assert(idx[j] == (es[sj].0, offset_of(es, sj) as u64));
    let e_j: int = if j + 1 < idx.len() { st[j + 1] } else { n };
    if j + 1 < idx.len() {
        assert(idx[j + 1] == (es[st[j + 1]].0, offset_of(es, st[j + 1]) as u64));
        assert(st[j] < st[j + 1]);
    }
    lemma_records_split(es, sj, e_j);
    lemma_records_split(es, e_j, n);
    assert(offset_of(es, n) == data.len());
    let off = offset_of(es, sj) as u64;
    assert(idx[j].1 == off);
    assert forall|q: int| 0 <= q < j implies #[trigger] idx[q].1 != off by {
        assert(idx[q] == (es[st[q]].0, offset_of(es, st[q]) as u64));
        assert(st[q] < st[j]);
        lemma_records_split(es, st[q], sj);
        lemma_records_split(es, sj, n);
    }
    let fw = first_with_offset(idx, off);
    if fw != j {
        if fw < j {
            assert(idx[fw].1 != off);
        } else {
            assert(idx[j].1 != off);
        }
    }
    let blk_end = spec_block_end(idx, data.len() as u64, off);
    assert(blk_end == offset_of(es, e_j));
    assert(offset_of(es, sj) <= offset_of(es, e_j) <= data.len());
    let rs = spec_records(es.take(e_j));
    assert(data == rs + spec_records(es.subrange(e_j, n)));
    assert(c.subrange(off as int, blk_end as int) =~= data.subrange(
        offset_of(es, sj),
        offset_of(es, e_j),
    ));
    assert(data.subrange(offset_of(es, sj), offset_of(es, e_j)) =~= rs.subrange(
        offset_of(es, sj),
        offset_of(es, e_j),
    ));
    assert(c.subrange(off as int, blk_end as int) == spec_records(es.subrange(sj, e_j)));
    assert forall|p: int| 0 <= p < es.len() && #[trigger] es[p].0 == key implies sj <= p < e_j by {
        if p < sj {
            assert(keys_of(es)[p] == es[p].0 && keys_of(es)[sj] == es[sj].0);
            assert(key_lt(es[p].0, es[sj].0));
        }
        if j + 1 < idx.len() && p >= e_j {
            assert(key_lt(key, idx[j + 1].0));
            if p == e_j {
                lemma_key_lt_irreflexive(key);
            } else {
                assert(keys_of(es)[p] == es[p].0 && keys_of(es)[e_j] == es[e_j].0);
                assert(key_lt(es[e_j].0, es[p].0));
                lemma_key_lt_transitive(key, es[e_j].0, key);
                lemma_key_lt_irreflexive(key);
            }
        }
    }
    lemma_lookup_subrange(es, sj, e_j, key);
    lemma_scan_records(es.subrange(sj, e_j), key);
}

/// Reading gives back what was written: an SSTable laid out from entries in
/// strictly increasing key order, with a Bloom filter holding their keys,
/// opens; its index is sorted; and looking any key up gives exactly what the
/// entries hold for it: the value, the tombstone, or nothing.
pub proof fn law_sstable_round_trip(
    es: Seq<(Seq<u8>, EntryView)>,
    num_bits: usize,
    k: u32,
    bits: Seq<u8>,
    key: Seq<u8>,
)
    requires
        es.len() > 0,
        strictly_increasing(keys_of(es)),
        entries_fit(es),
        num_bits <= u32::MAX,
        num_bits > 0 || k == 0,
        k <= u8::MAX,
        bits.len() == byte_count(num_bits as nat),
        bloom_set(num_bits, bits) == inserted_all(
            Set::empty(),
            keys_of(es),
            num_bits as nat,
            k as nat,
        ),
        spec_sstable_file(
            model_flush(model_of(es)).data,
            model_flush(model_of(es)).index,
            spec_bloom_bytes(num_bits, k, bits),
        ).len() <= u64::MAX,
    ensures
        ({
            let c = spec_sstable_file(
                model_flush(model_of(es)).data,
                model_flush(model_of(es)).index,
                spec_bloom_bytes(num_bits, k, bits),
            );
            match spec_open(c) {
                Ok(m) => {
                    &&& m.index == model_flush(model_of(es)).index
                    &&& strictly_increasing(index_keys(m.index))
                    &&& spec_get(c, m, key) == Ok::<Option<EntryView>, IoError>(lookup(es, key))
                },
                Err(_) => false,
            }
        }),
{
    let mf = model_flush(model_of(es));
    let idx = mf.index;
    let data = mf.data;
    let c = spec_sstable_file(data, idx, spec_bloom_bytes(num_bits, k, bits));
    lemma_open_written(es, num_bits, k, bits);
    lemma_written_index_sorted(es);
    let m = ReaderModel { footer: written_footer(data, idx), index: idx, num_bits, k, bits };
    assert(c.subrange(0, data.len() as int) =~= data);
    lemma_get_written(es, c, m, key);
}

/// When some block's first key is not above `key`, a last such block exists.
pub proof fn lemma_block_index_witness(idx: Seq<(Seq<u8>, u64)>, key: Seq<u8>, t: int)
    requires
        0 <= t < idx.len(),
        !key_lt(key, idx[t].0),
    ensures
        exists|i: int|
            0 <= i < idx.len() && !key_lt(key, #[trigger] idx[i].0) && (i + 1 == idx.len()
                || key_lt(key, idx[i + 1].0)),
    decreases idx.len() - t,
{
    if t + 1 < idx.len() && !key_lt(key, idx[t + 1].0) {
        lemma_block_index_witness(idx, key, t + 1);
    } else {
        assert(0 <= t < idx.len() && !key_lt(key, idx[t].0) && (t + 1 == idx.len() || key_lt(
            key,
            idx[t + 1].0,
        )));
    }
}

/// Looking a key up in a written SSTable gives what the entries hold for it.
proof fn lemma_get_written(es: Seq<(Seq<u8>, EntryView)>, c: Seq<u8>, m: ReaderModel, key: Seq<u8>)
    requires
        es.len() > 0,
        strictly_increasing(keys_of(es)),
        entries_fit(es),
        model_flush(model_of(es)).data.len() <= c.len() <= u64::MAX,
        c.subrange(0, model_flush(model_of(es)).data.len() as int) == model_flush(model_of(es)).data,
        m.index == model_flush(model_of(es)).index,
        m.footer.index_offset == model_flush(model_of(es)).data.len() as u64,
        m.num_bits > 0 || m.k == 0,
        bloom_set(m.num_bits, m.bits) == inserted_all(
            Set::empty(),
            keys_of(es),
            m.num_bits as nat,
            m.k as nat,
        ),
    ensures
        spec_get(c, m, key) == Ok::<Option<EntryView>, IoError>(lookup(es, key)),
{
    if !probe_set(key, m.num_bits as nat, m.k as nat).subset_of(bloom_set(m.num_bits, m.bits)) {
        lemma_bloom_miss(es, m, key);
    } else {
        lemma_index_pick(es, c, m, key);
    }
}

proof fn lemma_bloom_miss(es: Seq<(Seq<u8>, EntryView)>, m: ReaderModel, key: Seq<u8>)
    requires
        bloom_set(m.num_bits, m.bits) == inserted_all(
            Set::empty(),
            keys_of(es),
            m.num_bits as nat,
            m.k as nat,
        ),
        !probe_set(key, m.num_bits as nat, m.k as nat).subset_of(bloom_set(m.num_bits, m.bits)),
    ensures
        lookup(es, key) == None::<EntryView>,
{
    if has_key(es, key) {
        let p = choose|p: int| 0 <= p < es.len() && #[trigger] es[p].0 == key;
        law_no_false_negatives(Set::empty(), keys_of(es), m.num_bits as nat, m.k as nat);
        assert(keys_of(es)[p] == key);
    }
}

proof fn lemma_index_pick(es: Seq<(Seq<u8>, EntryView)>, c: Seq<u8>, m: ReaderModel, key: Seq<u8>)
    requires
        es.len() > 0,
        strictly_increasing(keys_of(es)),
        entries_fit(es),
        model_flush(model_of(es)).data.len() <= c.len() <= u64::MAX,
        c.subrange(0, model_flush(model_of(es)).data.len() as int) == model_flush(model_of(es)).data,
        m.index == model_flush(model_of(es)).index,
        m.footer.index_offset == model_flush(model_of(es)).data.len() as u64,
    ensures
        match spec_block_index(m.index, key) {
            None => Ok::<Option<EntryView>, IoError>(None),
            Some(i) => spec_scan_at(c, m.index, m.footer.index_offset, m.index[i].1, key),
        } == Ok::<Option<EntryView>, IoError>(lookup(es, key)),
{
    let idx = m.index;
    lemma_final_model(es);
    let st = final_starts(es);
    if exists|i: int| 0 <= i < idx.len() && !key_lt(key, #[trigger] idx[i].0) {
        let t = choose|i: int| 0 <= i < idx.len() && !key_lt(key, #[trigger] idx[i].0);
        lemma_block_index_witness(idx, key, t);
        let j = choose|i: int|
            0 <= i < idx.len() && !key_lt(key, #[trigger] idx[i].0) && (i + 1 == idx.len()
                || key_lt(key, idx[i + 1].0));
        lemma_block_lookup(es, c, j, key);
    } else {
        assert(idx[0] == (es[st[0]].0, offset_of(es, st[0]) as u64));
        assert(key_lt(key, idx[0].0));
        lemma_below_first(es, key);
    }
}

} // verus!
