use vstd::prelude::*;
use crate::error::{IoError, StorageError};
use crate::keys::strictly_increasing;
use crate::memtable::{
    entries_map, keys_of, lookup, EntryView, LookupResult, Memtable, ENTRY_OVERHEAD_BYTES,
};
use crate::sstable::reader::{index_keys, spec_get, ReaderModel, SstableLookup, SstableReader};
use crate::bloom::{inserted_all, spec_bloom_bytes};
use crate::memtable::{entry_size, replaced_size};
use crate::sstable::writer::{model_flush, model_of, spec_sstable_file, SstableMeta, SstableWriter};
use vstd::wrapping::u64_specs;
use crate::wal::format::{RecordType, WalRecordOwned, HEADER_SIZE};
use crate::wal::reader::{law_log_round_trip, records_fit, spec_encode_log, spec_read_all, WalReader};
use crate::bloom::{bloom_set, byte_count};
use crate::memtable::has_key;
use crate::sstable::reader::spec_open;
use crate::sstable::round_trip::{entries_fit, law_sstable_round_trip};
use vstd::slice::slice_to_vec;

verus! {

/// The memtable is flushed to an SSTable once its accounted size reaches this.
pub const FLUSH_THRESHOLD_BYTES: usize = 4 * 1024 * 1024;

/// What a layered read gives when the memtable does not decide: the SSTables
/// from newest (last) to oldest, the first that holds the key deciding.
pub open spec fn tables_get(tables: Seq<(Seq<u8>, ReaderModel)>, key: Seq<u8>) -> Result<Option<Seq<u8>>, IoError>
    decreases tables.len(),
{
    if tables.len() == 0 {
        Ok(None)
    } else {
        match spec_get(tables.last().0, tables.last().1, key) {
            Err(e) => Err(e),
            Ok(Some(EntryView::Value(v))) => Ok(Some(v)),
            Ok(Some(EntryView::Tombstone)) => Ok(None),
            Ok(None) => tables_get(tables.drop_last(), key),
        }
    }
}

/// What a read of `key` gives: the memtable first, then the SSTables newest
/// first; a tombstone anywhere on the way answers "absent".
pub open spec fn layered_get(
    mem: Map<Seq<u8>, EntryView>,
    tables: Seq<(Seq<u8>, ReaderModel)>,
    key: Seq<u8>,
) -> Result<Option<Seq<u8>>, IoError> {
    if mem.contains_key(key) {
        match mem[key] {
            EntryView::Value(v) => Ok(Some(v)),
            EntryView::Tombstone => Ok(None),
        }
    } else {
        tables_get(tables, key)
    }
}

/// The error part of a read's result.
pub open spec fn read_view(r: Result<Option<Vec<u8>>, StorageError>) -> Result<Option<Seq<u8>>, IoError> {
    match r {
        Ok(Some(v)) => Ok(Some(v@)),
        Ok(None) => Ok(None),
        Err(StorageError::Io(e)) => Err(e),
        Err(_) => Err(IoError::Os),
    }
}

/// Every SSTable's index is sorted, as the writer makes it.
pub open spec fn all_sorted(tables: Seq<(Seq<u8>, ReaderModel)>) -> bool {
    forall|i: int| 0 <= i < tables.len() ==> strictly_increasing(index_keys((#[trigger] tables[i]).1.index))
}

/// Applying replayed records to a map: a put stores the value, a delete a
/// tombstone.
pub open spec fn apply_records(m: Map<Seq<u8>, EntryView>, rs: Seq<(RecordType, Seq<u8>, Seq<u8>)>) -> Map<Seq<u8>, EntryView>
    decreases rs.len(),
{
    if rs.len() == 0 {
        m
    } else {
        let r = rs.last();
        let prev = apply_records(m, rs.drop_last());
        match r.0 {
            RecordType::Put => prev.insert(r.1, EntryView::Value(r.2)),
            RecordType::Delete => prev.insert(r.1, EntryView::Tombstone),
        }
    }
}

/// The records that replaying the logs in order reads.
pub open spec fn replay_records(logs: Seq<Seq<u8>>) -> Seq<(RecordType, Seq<u8>, Seq<u8>)>
    decreases logs.len(),
{
    if logs.len() == 0 {
        Seq::empty()
    } else {
        replay_records(logs.drop_last()) + spec_read_all(logs.last(), 0)
    }
}

/// The total length of the logs.
pub open spec fn total_len(logs: Seq<Seq<u8>>) -> nat
    decreases logs.len(),
{
    if logs.len() == 0 {
        0
    } else {
        total_len(logs.drop_last()) + logs.last().len()
    }
}

/// The encoded size of records.
pub open spec fn encoded_total(rs: Seq<(RecordType, Seq<u8>, Seq<u8>)>) -> nat
    decreases rs.len(),
{
    if rs.len() == 0 {
        0
    } else {
        encoded_total(rs.drop_last()) + HEADER_SIZE as nat + rs.last().1.len() + rs.last().2.len()
    }
}

pub proof fn lemma_encoded_total_append(a: Seq<(RecordType, Seq<u8>, Seq<u8>)>, b: Seq<(RecordType, Seq<u8>, Seq<u8>)>)
    ensures
        encoded_total(a + b) == encoded_total(a) + encoded_total(b),
    decreases b.len(),
{
    if b.len() == 0 {
        assert(a + b =~= a);
    } else {
        lemma_encoded_total_append(a, b.drop_last());
        assert((a + b).drop_last() =~= a + b.drop_last());
    }
}

/// The records read from `pos` on take no more room than is left.
pub proof fn lemma_read_all_size(d: Seq<u8>, pos: int)
    requires
        0 <= pos <= d.len(),
    ensures
        encoded_total(spec_read_all(d, pos)) <= d.len() - pos,
    decreases d.len() - pos,
{
    let (r, next) = crate::wal::reader::spec_read_at(d, pos);
    match r {
        None => {
            assert(spec_read_all(d, pos) =~= Seq::<(RecordType, Seq<u8>, Seq<u8>)>::empty());
            assert(encoded_total(Seq::<(RecordType, Seq<u8>, Seq<u8>)>::empty()) == 0);
        },
        Some(x) => {
            if pos < next <= d.len() {
                lemma_read_all_size(d, next);
                lemma_encoded_total_append(seq![x], spec_read_all(d, next));
                assert(seq![x].drop_last() =~= Seq::<(RecordType, Seq<u8>, Seq<u8>)>::empty());
                assert(encoded_total(Seq::<(RecordType, Seq<u8>, Seq<u8>)>::empty()) == 0);
                assert(encoded_total(seq![x]) == HEADER_SIZE + x.1.len() + x.2.len());
                assert(HEADER_SIZE + x.1.len() + x.2.len() == next - pos);
                assert(spec_read_all(d, pos) == seq![x] + spec_read_all(d, next));
            } else {
                assert(spec_read_all(d, pos) =~= Seq::<(RecordType, Seq<u8>, Seq<u8>)>::empty());
            }
        },
    }
}

pub proof fn lemma_replay_size(logs: Seq<Seq<u8>>)
    ensures
        encoded_total(replay_records(logs)) <= total_len(logs),
    decreases logs.len(),
{
    if logs.len() > 0 {
        lemma_replay_size(logs.drop_last());
        lemma_read_all_size(logs.last(), 0);
        lemma_encoded_total_append(replay_records(logs.drop_last()), spec_read_all(logs.last(), 0));
    }
}

/// The state of the storage engine that is not on disk: the memtable, the
/// opened SSTables oldest first, and the counters that name new files.
pub struct StorageEngine {
    memtable: Memtable,
    sstables: Vec<SstableReader>,
    next_sstable_seq: u64,
    next_wal_seq: u64,
}

impl StorageEngine {
    /// The memtable's contents.
    pub closed spec fn mem(&self) -> Map<Seq<u8>, EntryView> {
        self.memtable@
    }

    /// The memtable's entries in key order.
    pub closed spec fn mem_entries(&self) -> Seq<(Seq<u8>, EntryView)> {
        self.memtable.entries()
    }

    /// The memtable's accounted size.
    pub closed spec fn mem_size(&self) -> nat {
        self.memtable.accounted_size()
    }

    /// The SSTables, oldest first: each one's bytes and what was read from them.
    pub closed spec fn tables(&self) -> Seq<(Seq<u8>, ReaderModel)> {
        self.sstables@.map_values(|r: SstableReader| (r.contents(), r.model()))
    }

    pub closed spec fn sstable_seq(&self) -> u64 {
        self.next_sstable_seq
    }

    pub closed spec fn wal_seq(&self) -> u64 {
        self.next_wal_seq
    }

    pub closed spec fn wf(&self) -> bool {
        &&& self.memtable.wf()
        &&& forall|i: int| 0 <= i < self.sstables@.len() ==> (#[trigger] self.sstables@[i]).wf()
    }

    /// Rebuilds the engine's state on startup: the SSTables found on disk
    /// (oldest first), the counters for new file names, and the memtable
    /// replayed from the write-ahead logs in generation order.
    ///
    /// The logs' total length bounds the memtable's accounted size: a
    /// record's entry (key, value and `ENTRY_OVERHEAD_BYTES`) is at most four
    /// times its encoded size (key, value and a `HEADER_SIZE` header), so
    /// logs of at most a quarter of the address space replay without the
    /// size overflowing.
    pub fn open(
        sstables: Vec<SstableReader>,
        next_sstable_seq: u64,
        next_wal_seq: u64,
        wal_logs: Vec<Vec<u8>>,
    ) -> (r: Self)
        requires
            forall|i: int| 0 <= i < sstables@.len() ==> (#[trigger] sstables@[i]).wf(),
            4 * total_len(wal_logs@.map_values(|l: Vec<u8>| l@)) <= usize::MAX,
        ensures
            r.wf(),
            r.tables() == sstables@.map_values(|t: SstableReader| (t.contents(), t.model())),
            r.sstable_seq() == next_sstable_seq,
            r.wal_seq() == next_wal_seq,
            r.mem() == apply_records(
                Map::empty(),
                replay_records(wal_logs@.map_values(|l: Vec<u8>| l@)),
            ),
    {
        let mut engine = StorageEngine {
            memtable: Memtable::new(),
            sstables,
            next_sstable_seq,
            next_wal_seq,
        };
        let ghost logs = wal_logs@.map_values(|l: Vec<u8>| l@);
        proof {
            lemma_replay_size(logs);
        }
        let mut i: usize = 0;
        let mut wal_logs = wal_logs;
        let n = wal_logs.len();
        let ghost all = wal_logs@;
        let mut rest: Vec<Vec<u8>> = Vec::new();
        // Replay oldest generation first.
        while i < n
            invariant
                n == all.len(),
                logs == all.map_values(|l: Vec<u8>| l@),
                4 * total_len(logs) <= usize::MAX,
                i <= n,
                wal_logs@ == all.subrange(i as int, n as int),
                engine.wf(),
                engine.sstables == sstables,
                engine.next_sstable_seq == next_sstable_seq,
                engine.next_wal_seq == next_wal_seq,
                engine.memtable@ == apply_records(Map::empty(), replay_records(logs.take(i as int))),
                engine.memtable.accounted_size() <= 4 * encoded_total(replay_records(logs.take(i as int))),
                encoded_total(replay_records(logs)) <= total_len(logs),
            decreases n - i,
        {
            let log = wal_logs.remove(0);
            assert(log@ == logs[i as int]);
            let mut reader = WalReader::new(log);
            let records = reader.read_all();
            let ghost before = replay_records(logs.take(i as int));
            let ghost new_rs = spec_read_all(logs[i as int], 0);
            proof {
                assert(logs.take(i + 1).drop_last() =~= logs.take(i as int));
                assert(replay_records(logs.take(i + 1)) == before + new_rs);
                lemma_replay_prefix_size(logs, i + 1);
            }
            engine.replay_into(records, Ghost(before));
            i = i + 1;
        }
        proof {
            assert(logs.take(n as int) =~= logs);
        }
        engine
    }

    /// The memtable's accounted size.
    pub fn memtable_size_bytes(&self) -> (r: usize)
        requires
            self.wf(),
        ensures
            r == self.mem_size(),
    {
        self.memtable.size_bytes()
    }

    /// The number of keys in the memtable.
    pub fn memtable_len(&self) -> (r: usize)
        ensures
            r == self.mem_entries().len(),
    {
        self.memtable.len()
    }

    /// The number of SSTables.
    pub fn sstable_count(&self) -> (r: usize)
        ensures
            r == self.tables().len(),
    {
        self.sstables.len()
    }

    /// Takes the next SSTable sequence number.
    pub fn next_sstable_seq(&mut self) -> (r: u64)
        ensures
            r == old(self).sstable_seq(),
            final(self).sstable_seq() == u64_specs::wrapping_add(old(self).sstable_seq(), 1),
            final(self).wal_seq() == old(self).wal_seq(),
            final(self).mem() == old(self).mem(),
            final(self).mem_entries() == old(self).mem_entries(),
            final(self).mem_size() == old(self).mem_size(),
            final(self).tables() == old(self).tables(),
            final(self).wf() == old(self).wf(),
    {
        let r = self.next_sstable_seq;
        self.next_sstable_seq = self.next_sstable_seq.wrapping_add(1);
        r
    }

    /// Takes the next write-ahead-log generation number.
    pub fn next_wal_seq(&mut self) -> (r: u64)
        ensures
            r == old(self).wal_seq(),
            final(self).wal_seq() == u64_specs::wrapping_add(old(self).wal_seq(), 1),
            final(self).sstable_seq() == old(self).sstable_seq(),
            final(self).mem() == old(self).mem(),
            final(self).mem_entries() == old(self).mem_entries(),
            final(self).mem_size() == old(self).mem_size(),
            final(self).tables() == old(self).tables(),
            final(self).wf() == old(self).wf(),
    {
        let r = self.next_wal_seq;
        self.next_wal_seq = self.next_wal_seq.wrapping_add(1);
        r
    }

    /// Applies a put whose log record is durable. Returns whether the
    /// memtable has reached the flush threshold.
    pub fn put(&mut self, key: &[u8], value: &[u8]) -> (flush_due: bool)
        requires
            old(self).wf(),
            old(self).mem_size() + key@.len() + value@.len() + ENTRY_OVERHEAD_BYTES <= usize::MAX,
        ensures
            final(self).wf(),
            final(self).mem() == old(self).mem().insert(key@, EntryView::Value(value@)),
            final(self).mem_size() == old(self).mem_size() + entry_size(key@, EntryView::Value(value@))
                - replaced_size(old(self).mem(), key@),
            final(self).tables() == old(self).tables(),
            final(self).sstable_seq() == old(self).sstable_seq(),
            final(self).wal_seq() == old(self).wal_seq(),
            flush_due == (final(self).mem_size() >= FLUSH_THRESHOLD_BYTES),
            layered_get(final(self).mem(), final(self).tables(), key@) == Ok::<Option<Seq<u8>>, IoError>(
                Some(value@),
            ),
    {
        self.memtable.put(slice_to_vec(key), slice_to_vec(value));
        self.memtable.size_bytes() >= FLUSH_THRESHOLD_BYTES
    }

    /// Applies a delete whose log record is durable. Returns whether the
    /// memtable has reached the flush threshold.
    pub fn delete(&mut self, key: &[u8]) -> (flush_due: bool)
        requires
            old(self).wf(),
            old(self).mem_size() + key@.len() + ENTRY_OVERHEAD_BYTES <= usize::MAX,
        ensures
            final(self).wf(),
            final(self).mem() == old(self).mem().insert(key@, EntryView::Tombstone),
            final(self).mem_size() == old(self).mem_size() + entry_size(key@, EntryView::Tombstone)
                - replaced_size(old(self).mem(), key@),
            final(self).tables() == old(self).tables(),
            final(self).sstable_seq() == old(self).sstable_seq(),
            final(self).wal_seq() == old(self).wal_seq(),
            flush_due == (final(self).mem_size() >= FLUSH_THRESHOLD_BYTES),
            layered_get(final(self).mem(), final(self).tables(), key@) == Ok::<Option<Seq<u8>>, IoError>(
                None,
            ),
    {
        self.memtable.delete(slice_to_vec(key));
        self.memtable.size_bytes() >= FLUSH_THRESHOLD_BYTES
    }

    /// Reads `key`: the memtable first, then the SSTables newest first; a
    /// tombstone answers "absent". Exact when every index is sorted, as the
    /// writer makes it; whatever the SSTables hold, a key the memtable holds
    /// is answered from the memtable.
    pub fn get(&self, key: &[u8]) -> (r: Result<Option<Vec<u8>>, StorageError>)
        requires
            self.wf(),
        ensures
            all_sorted(self.tables()) ==> read_view(r) == layered_get(self.mem(), self.tables(), key@),
            self.mem().contains_key(key@) ==> read_view(r) == layered_get(
                self.mem(),
                self.tables(),
                key@,
            ),
            r matches Err(e) ==> e is Io,
    {
        match self.memtable.get(key) {
            LookupResult::Found(v) => return Ok(Some(v)),
            LookupResult::Tombstone => return Ok(None),
            LookupResult::NotInMemtable => {},
        }
        let ghost tables = self.tables();
        let mut i = self.sstables.len();
        proof {
            assert(tables.take(i as int) =~= tables);
        }
        while i > 0
            invariant
                tables == self.tables(),
                tables.len() == self.sstables@.len(),
                i <= tables.len(),
                self.wf(),
                !self.mem().contains_key(key@),
                all_sorted(tables) ==> tables_get(tables.take(i as int), key@) == tables_get(
                    tables,
                    key@,
                ),
            decreases i,
        {
            i = i - 1;
            let ghost t = tables.take(i + 1);
            proof {
                assert(t.drop_last() =~= tables.take(i as int));
                assert(t.last() == tables[i as int]);
                assert(tables[i as int] == (self.sstables@[i as int].contents(), self.sstables@[i as int].model()));
                assert(self.sstables@[i as int].wf());
                if all_sorted(tables) {
                    assert(strictly_increasing(index_keys(tables[i as int].1.index)));
                }
            }
            match self.sstables[i].get(key) {
                Err(e) => return Err(StorageError::Io(e)),
                Ok(Some(SstableLookup::Found(v))) => return Ok(Some(v)),
                Ok(Some(SstableLookup::Tombstone)) => return Ok(None),
                Ok(None) => {},
            }
        }
        proof {
            assert(tables.take(0) =~= Seq::<(Seq<u8>, ReaderModel)>::empty());
        }
        Ok(None)
    }

    /// Lays the memtable out as an SSTable whose Bloom filter has `num_bits`
    /// bits and `k` probes, taking the next SSTable sequence number for it.
    /// Nothing happens when the memtable is empty. The memtable stays as it
    /// is until the SSTable is installed.
    pub fn prepare_flush(&mut self, num_bits: usize, k: u32) -> (r: Option<(u64, SstableMeta)>)
        requires
            old(self).wf(),
            num_bits > 0 || k == 0,
            old(self).mem_entries().len() < u64::MAX,
        ensures
            final(self).wf(),
            final(self).mem() == old(self).mem(),
            final(self).mem_entries() == old(self).mem_entries(),
            final(self).mem_size() == old(self).mem_size(),
            final(self).tables() == old(self).tables(),
            final(self).wal_seq() == old(self).wal_seq(),
            match r {
                None => {
                    &&& old(self).mem_entries().len() == 0
                    &&& final(self).sstable_seq() == old(self).sstable_seq()
                },
                Some((seq, meta)) => {
                    let es = old(self).mem_entries();
                    &&& es.len() > 0
                    &&& seq == old(self).sstable_seq()
                    &&& final(self).sstable_seq() == u64_specs::wrapping_add(
                        old(self).sstable_seq(),
                        1,
                    )
                    &&& meta.contents@ == spec_sstable_file(
                        model_flush(model_of(es)).data,
                        model_flush(model_of(es)).index,
                        spec_bloom_bytes(meta.bloom.num_bits, meta.bloom.k, meta.bloom.bits@),
                    )
                    &&& meta.bloom.wf()
                    &&& meta.bloom.clean()
                    &&& meta.bloom.num_bits == num_bits
                    &&& meta.bloom.k == k
                    &&& meta.bloom@ == inserted_all(
                        Set::empty(),
                        keys_of(es),
                        num_bits as nat,
                        k as nat,
                    )
                    &&& meta.key_count == es.len()
                    &&& meta.min_key@ == es[0].0
                    &&& meta.max_key@ == es.last().0
                },
            },
    {
        if self.memtable.is_empty() {
            return None;
        }
        let seq = self.next_sstable_seq();
        let mut writer = SstableWriter::new(num_bits, k);
        let entries = self.memtable.iter();
        let ghost es = self.mem_entries();
        let mut i: usize = 0;
        while i < entries.len()
            invariant
                es == self.mem_entries(),
                entries@.len() == es.len(),
                forall|j: int| 0 <= j < entries@.len() ==> (#[trigger] entries@[j].0@, entries@[j].1@) == es[j],
                es.len() < u64::MAX,
                i <= entries@.len(),
                writer.wf(),
                writer.added() == es.take(i as int),
                writer.bloom_bits() == num_bits,
                writer.bloom_probes() == k,
                num_bits > 0 || k == 0,
            decreases entries@.len() - i,
        {
            writer.add(entries[i].0.as_slice(), &entries[i].1);
            proof {
                assert(es.take(i + 1) =~= es.take(i as int).push(es[i as int]));
            }
            i = i + 1;
        }
        proof {
            assert(es.take(i as int) =~= es);
        }
        let meta = writer.finish();
        Some((seq, meta))
    }

    /// Installs the SSTable that a flush wrote: it becomes the newest, and the
    /// memtable starts empty.
    pub fn install_flushed(&mut self, reader: SstableReader)
        requires
            old(self).wf(),
            reader.wf(),
        ensures
            final(self).wf(),
            final(self).mem() == Map::<Seq<u8>, EntryView>::empty(),
            final(self).mem_size() == 0,
            final(self).tables() == old(self).tables().push((reader.contents(), reader.model())),
            final(self).sstable_seq() == old(self).sstable_seq(),
            final(self).wal_seq() == old(self).wal_seq(),
    {
        self.memtable = Memtable::new();
        let ghost before = self.sstables@;
        self.sstables.push(reader);
        proof {
            assert(self.sstables@.map_values(|r: SstableReader| (r.contents(), r.model())) =~= before.map_values(
                |r: SstableReader| (r.contents(), r.model()),
            ).push((reader.contents(), reader.model())));
        }
    }

    fn replay_into(&mut self, records: Vec<WalRecordOwned>, Ghost(before): Ghost<Seq<(RecordType, Seq<u8>, Seq<u8>)>>)
        requires
            old(self).wf(),
            old(self).memtable@ == apply_records(Map::empty(), before),
            old(self).memtable.accounted_size() <= 4 * encoded_total(before),
            4 * encoded_total(before + records@.map_values(|x: WalRecordOwned| x@)) <= usize::MAX,
        ensures
            final(self).wf(),
            final(self).sstables == old(self).sstables,
            final(self).next_sstable_seq == old(self).next_sstable_seq,
            final(self).next_wal_seq == old(self).next_wal_seq,
            final(self).memtable@ == apply_records(
                Map::empty(),
                before + records@.map_values(|x: WalRecordOwned| x@),
            ),
            final(self).memtable.accounted_size() <= 4 * encoded_total(
                before + records@.map_values(|x: WalRecordOwned| x@),
            ),
    {
        let ghost rs = records@.map_values(|x: WalRecordOwned| x@);
        let mut records = records;
        let n = records.len();
        let mut j: usize = 0;
        let ghost all = records@;
        while j < n
            invariant
                n == all.len(),
                rs == all.map_values(|x: WalRecordOwned| x@),
                j <= n,
                records@ == all.subrange(j as int, n as int),
                self.wf(),
                self.sstables == old(self).sstables,
                self.next_sstable_seq == old(self).next_sstable_seq,
                self.next_wal_seq == old(self).next_wal_seq,
                self.memtable@ == apply_records(Map::empty(), before + rs.take(j as int)),
                self.memtable.accounted_size() <= 4 * encoded_total(before + rs.take(j as int)),
                4 * encoded_total(before + rs) <= usize::MAX,
            decreases n - j,
        {
            let rec = records.remove(0);
            assert(rec@ == rs[j as int]);
            let ghost done = before + rs.take(j as int);
            proof {
                assert((before + rs.take(j + 1)).drop_last() =~= done);
                assert((before + rs.take(j + 1)).last() == rs[j as int]);
                lemma_encoded_total_append(before + rs.take(j + 1), rs.skip(j + 1));
                assert(before + rs.take(j + 1) + rs.skip(j + 1) =~= before + rs);
            }
            match rec.record_type {
                RecordType::Put => self.memtable.put(rec.key, rec.value),
                RecordType::Delete => self.memtable.delete(rec.key),
            }
            j = j + 1;
        }
        proof {
            assert(rs.take(n as int) =~= rs);
        }
    }
}

proof fn lemma_replay_prefix_size(logs: Seq<Seq<u8>>, i: int)
    requires
        0 <= i <= logs.len(),
    ensures
        encoded_total(replay_records(logs.take(i))) <= encoded_total(replay_records(logs)),
    decreases logs.len(),
{
    if i < logs.len() {
        lemma_replay_prefix_size(logs.drop_last(), i);
        assert(logs.drop_last().take(i) =~= logs.take(i));
        lemma_encoded_total_append(replay_records(logs.drop_last()), spec_read_all(logs.last(), 0));
    } else {
        assert(logs.take(i) =~= logs);
    }
}

/// The SSTable `t` (its bytes and what opening them gives) was written from
/// the entries `es` with a Bloom filter of `num_bits` bits, `k` probes and bit
/// array `bits` holding their keys.
pub open spec fn written_with(
    t: (Seq<u8>, ReaderModel),
    es: Seq<(Seq<u8>, EntryView)>,
    num_bits: usize,
    k: u32,
    bits: Seq<u8>,
) -> bool {
    let c = spec_sstable_file(
        model_flush(model_of(es)).data,
        model_flush(model_of(es)).index,
        spec_bloom_bytes(num_bits, k, bits),
    );
    &&& es.len() > 0
    &&& strictly_increasing(keys_of(es))
    &&& entries_fit(es)
    &&& num_bits <= u32::MAX
    &&& num_bits > 0 || k == 0
    &&& k <= u8::MAX
    &&& bits.len() == byte_count(num_bits as nat)
    &&& bloom_set(num_bits, bits) == inserted_all(Set::empty(), keys_of(es), num_bits as nat, k as nat)
    &&& c.len() <= u64::MAX
    &&& t.0 == c
    &&& spec_open(c) == Ok::<ReaderModel, IoError>(t.1)
}

#[verifier::opaque]
pub open spec fn written_from(t: (Seq<u8>, ReaderModel), es: Seq<(Seq<u8>, EntryView)>) -> bool {
    exists|num_bits: usize, k: u32, bits: Seq<u8>| written_with(t, es, num_bits, k, bits)
}

/// What the layers of entries, newest last, hold for `key`: the newest layer
/// that holds it decides, a tombstone meaning absent.
pub open spec fn resolve(ess: Seq<Seq<(Seq<u8>, EntryView)>>, key: Seq<u8>) -> Option<Seq<u8>>
    decreases ess.len(),
{
    if ess.len() == 0 {
        None
    } else {
        match lookup(ess.last(), key) {
            Some(EntryView::Value(v)) => Some(v),
            Some(EntryView::Tombstone) => None,
            None => resolve(ess.drop_last(), key),
        }
    }
}

proof fn lemma_written_get(t: (Seq<u8>, ReaderModel), es: Seq<(Seq<u8>, EntryView)>, key: Seq<u8>)
    requires
        written_from(t, es),
    ensures
        spec_get(t.0, t.1, key) == Ok::<Option<EntryView>, IoError>(lookup(es, key)),
        strictly_increasing(index_keys(t.1.index)),
{
    reveal(written_from);
    let (nb, k, bits) = choose|nb: usize, k: u32, bits: Seq<u8>| written_with(t, es, nb, k, bits);
    law_sstable_round_trip(es, nb, k, bits, key);
}

#[verifier::rlimit(30)]
proof fn lemma_tables_resolve(
    tables: Seq<(Seq<u8>, ReaderModel)>,
    ess: Seq<Seq<(Seq<u8>, EntryView)>>,
    key: Seq<u8>,
)
    requires
        tables.len() == ess.len(),
        forall|i: int| 0 <= i < tables.len() ==> written_from(#[trigger] tables[i], ess[i]),
    ensures
        all_sorted(tables),
        tables_get(tables, key) == Ok::<Option<Seq<u8>>, IoError>(resolve(ess, key)),
    decreases tables.len(),
{
    if tables.len() > 0 {
        let n = tables.len() - 1;
        let t0 = tables.drop_last();
        let e0 = ess.drop_last();
        assert forall|i: int| 0 <= i < n implies written_from(#[trigger] t0[i], e0[i]) by {
            assert(t0[i] == tables[i]);
            assert(e0[i] == ess[i]);
        }
        lemma_tables_resolve(t0, e0, key);
        lemma_written_get(tables[n], ess[n], key);
        assert(tables.last() == tables[n]);
        assert(ess.last() == ess[n]);
        assert forall|i: int| 0 <= i < tables.len() implies strictly_increasing(
            index_keys((#[trigger] tables[i]).1.index),
        ) by {
            if i < n {
                assert(t0[i] == tables[i]);
            }
        }
    }
}

/// Newest wins: when every SSTable was written from sorted entries, a read
/// gives what the memtable holds, else what the newest SSTable holding the key
/// holds; a tombstone in a newer layer hides any value in an older one.
pub proof fn law_newest_layer_wins(
    mem: Map<Seq<u8>, EntryView>,
    tables: Seq<(Seq<u8>, ReaderModel)>,
    ess: Seq<Seq<(Seq<u8>, EntryView)>>,
    key: Seq<u8>,
)
    requires
        tables.len() == ess.len(),
        forall|i: int| 0 <= i < tables.len() ==> written_from(#[trigger] tables[i], ess[i]),
    ensures
        all_sorted(tables),
        layered_get(mem, tables, key) == Ok::<Option<Seq<u8>>, IoError>(
            if mem.contains_key(key) {
                match mem[key] {
                    EntryView::Value(v) => Some(v),
                    EntryView::Tombstone => None,
                }
            } else {
                resolve(ess, key)
            },
        ),
{
    lemma_tables_resolve(tables, ess, key);
}

/// Flushing keeps every read the same: the memtable's entries, written as the
/// newest SSTable over an empty memtable, answer every key as the memtable did.
pub proof fn law_flush_preserves_reads(
    es: Seq<(Seq<u8>, EntryView)>,
    tables: Seq<(Seq<u8>, ReaderModel)>,
    num_bits: usize,
    k: u32,
    bits: Seq<u8>,
    key: Seq<u8>,
)
    requires
        es.len() > 0,
        strictly_increasing(keys_of(es)),
        entries_fit(es),
        num_bits <= u32::MAX,
        num_bits > 0 || k == 0,
        k <= u8::MAX,
        bits.len() == byte_count(num_bits as nat),
        bloom_set(num_bits, bits) == inserted_all(Set::empty(), keys_of(es), num_bits as nat, k as nat),
        spec_sstable_file(
            model_flush(model_of(es)).data,
            model_flush(model_of(es)).index,
            spec_bloom_bytes(num_bits, k, bits),
        ).len() <= u64::MAX,
    ensures
        ({
            let c = spec_sstable_file(
                model_flush(model_of(es)).data,
                model_flush(model_of(es)).index,
                spec_bloom_bytes(num_bits, k, bits),
            );
            match spec_open(c) {
                Ok(m) => layered_get(Map::empty(), tables.push((c, m)), key) == layered_get(
                    entries_map(es),
                    tables,
                    key,
                ),
                Err(_) => false,
            }
        }),
{
    let c = spec_sstable_file(
        model_flush(model_of(es)).data,
        model_flush(model_of(es)).index,
        spec_bloom_bytes(num_bits, k, bits),
    );
    law_sstable_round_trip(es, num_bits, k, bits, key);
    match spec_open(c) {
        Ok(m) => {
            let t2 = tables.push((c, m));
            assert(t2.drop_last() =~= tables);
            assert(t2.last() == (c, m));
            assert(entries_map(es).contains_key(key) == has_key(es, key));
        },
        Err(_) => {},
    }
}

/// The records of several logs, one log after another.
pub open spec fn flatten_records(rss: Seq<Seq<(RecordType, Seq<u8>, Seq<u8>)>>) -> Seq<(RecordType, Seq<u8>, Seq<u8>)>
    decreases rss.len(),
{
    if rss.len() == 0 {
        Seq::empty()
    } else {
        flatten_records(rss.drop_last()) + rss.last()
    }
}

/// Recovery replays every record that was appended, log after log, in order:
/// reopening gives back the memtable that the acknowledged writes built.
pub proof fn law_recovery_replays_writes(rss: Seq<Seq<(RecordType, Seq<u8>, Seq<u8>)>>)
    requires
        forall|i: int| 0 <= i < rss.len() ==> records_fit(#[trigger] rss[i]),
    ensures
        replay_records(rss.map_values(|rs: Seq<(RecordType, Seq<u8>, Seq<u8>)>| spec_encode_log(rs)))
            == flatten_records(rss),
    decreases rss.len(),
{
    if rss.len() > 0 {
        let logs = rss.map_values(|rs: Seq<(RecordType, Seq<u8>, Seq<u8>)>| spec_encode_log(rs));
        assert forall|i: int| 0 <= i < rss.len() - 1 implies records_fit(
            #[trigger] rss.drop_last()[i],
        ) by {
            assert(rss.drop_last()[i] == rss[i]);
        }
        law_recovery_replays_writes(rss.drop_last());
        assert(logs.drop_last() =~= rss.drop_last().map_values(
            |rs: Seq<(RecordType, Seq<u8>, Seq<u8>)>| spec_encode_log(rs),
        ));
        assert(records_fit(rss[rss.len() - 1]));
        law_log_round_trip(Seq::empty(), rss.last());
        assert(Seq::<u8>::empty() + spec_encode_log(rss.last()) =~= spec_encode_log(rss.last()));
        assert(logs.last() == spec_encode_log(rss.last()));
    }
}

} // verus!
