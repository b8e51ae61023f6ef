use vstd::prelude::*;
use vstd::bytes::*;
use vstd::slice::*;
use crate::bloom::{inserted_all, spec_bloom_bytes, BloomFilter};
use crate::memtable::{keys_of, Entry, EntryView};
use crate::sstable::footer::{spec_footer_bytes, Footer};

pub use crate::sstable::footer::SSTABLE_MAGIC;

verus! {

/// The format version that the writer records in the footer.
pub const SSTABLE_VERSION: u8 = 1;

/// A data block is closed once it holds at least this many bytes.
pub const TARGET_BLOCK_SIZE: usize = 4096;

/// One entry of the sparse index: the first key of a data block and the
/// block's offset in the file.
#[derive(Debug, Clone)]
pub struct IndexEntry {
    pub first_key: Vec<u8>,
    pub block_offset: u64,
}

impl View for IndexEntry {
    type V = (Seq<u8>, u64);

    open spec fn view(&self) -> (Seq<u8>, u64) {
        (self.first_key@, self.block_offset)
    }
}

/// One record of a data block: key length, value length, a type byte
/// (0 for a value, 1 for a tombstone), the key, and the value.
pub open spec fn spec_block_record(key: Seq<u8>, e: EntryView) -> Seq<u8> {
    match e {
        EntryView::Value(v) => spec_u32_to_le_bytes(key.len() as u32) + spec_u32_to_le_bytes(
            v.len() as u32,
        ) + seq![0u8] + key + v,
        EntryView::Tombstone => spec_u32_to_le_bytes(key.len() as u32) + spec_u32_to_le_bytes(0u32)
            + seq![1u8] + key,
    }
}

/// The records of `es`, one after another.
pub open spec fn spec_records(es: Seq<(Seq<u8>, EntryView)>) -> Seq<u8>
    decreases es.len(),
{
    if es.len() == 0 {
        Seq::empty()
    } else {
        spec_records(es.drop_last()) + spec_block_record(es.last().0, es.last().1)
    }
}

/// One index entry on disk: key length, key, block offset.
pub open spec fn spec_index_entry_bytes(k: Seq<u8>, off: u64) -> Seq<u8> {
    spec_u32_to_le_bytes(k.len() as u32) + k + spec_u64_to_le_bytes(off)
}

/// The index section.
pub open spec fn spec_index_bytes(idx: Seq<(Seq<u8>, u64)>) -> Seq<u8>
    decreases idx.len(),
{
    if idx.len() == 0 {
        Seq::empty()
    } else {
        spec_index_bytes(idx.drop_last()) + spec_index_entry_bytes(idx.last().0, idx.last().1)
    }
}

/// The state of a writer: the blocks written so far, their index, the block
/// being filled and its first key.
pub struct WriterModel {
    pub data: Seq<u8>,
    pub index: Seq<(Seq<u8>, u64)>,
    pub block: Seq<u8>,
    pub first: Option<Seq<u8>>,
}

/// Closing the current block: it is written out and indexed by its first key.
pub open spec fn model_flush(m: WriterModel) -> WriterModel {
    if m.block.len() == 0 {
        m
    } else {
        WriterModel {
            data: m.data + m.block,
            index: m.index.push((m.first.unwrap(), m.data.len() as u64)),
            block: Seq::empty(),
            first: None,
        }
    }
}

/// Adding one entry: its record joins the current block, which is closed
/// once it reaches the target size.
pub open spec fn model_add(m: WriterModel, key: Seq<u8>, e: EntryView) -> WriterModel {
    let first = if m.first is None {
        Some(key)
    } else {
        m.first
    };
    let m2 = WriterModel { data: m.data, index: m.index, block: m.block + spec_block_record(key, e), first };
    if m2.block.len() >= TARGET_BLOCK_SIZE {
        model_flush(m2)
    } else {
        m2
    }
}

/// The writer state after adding `es` in order.
pub open spec fn model_of(es: Seq<(Seq<u8>, EntryView)>) -> WriterModel
    decreases es.len(),
{
    if es.len() == 0 {
        WriterModel { data: Seq::empty(), index: Seq::empty(), block: Seq::empty(), first: None }
    } else {
        model_add(model_of(es.drop_last()), es.last().0, es.last().1)
    }
}

/// A writer with a nonempty block knows that block's first key.
pub proof fn lemma_model_first(es: Seq<(Seq<u8>, EntryView)>)
    ensures
        model_of(es).block.len() > 0 ==> model_of(es).first.is_some(),
    decreases es.len(),
{
    if es.len() > 0 {
        lemma_model_first(es.drop_last());
    }
}

/// A whole SSTable file: data blocks, index, Bloom filter, footer.
pub open spec fn spec_sstable_file(data: Seq<u8>, index: Seq<(Seq<u8>, u64)>, bloom: Seq<u8>) -> Seq<u8> {
    let ib = spec_index_bytes(index);
    data + ib + bloom + spec_footer_bytes(
        Footer {
            index_offset: data.len() as u64,
            bloom_offset: (data.len() + ib.len()) as u64,
            version: SSTABLE_VERSION,
        },
    )
}

/// What a finished SSTable is: its file contents and what it holds.
pub struct SstableMeta {
    pub contents: Vec<u8>,
    pub key_count: u64,
    pub min_key: Vec<u8>,
    pub max_key: Vec<u8>,
    pub bloom: BloomFilter,
}

/// Builds an SSTable from entries added in key order.
pub struct SstableWriter {
    out: Vec<u8>,
    current_block: Vec<u8>,
    index_entries: Vec<IndexEntry>,
    bloom: BloomFilter,
    bytes_written: u64,
    first_key_in_block: Option<Vec<u8>>,
    key_count: u64,
    min_key: Option<Vec<u8>>,
    max_key: Option<Vec<u8>>,
    added: Ghost<Seq<(Seq<u8>, EntryView)>>,
    num_bits: Ghost<usize>,
    k: Ghost<u32>,
}

pub open spec fn opt_view(o: Option<Vec<u8>>) -> Option<Seq<u8>> {
    match o {
        Some(v) => Some(v@),
        None => None,
    }
}

fn append_slice(out: &mut Vec<u8>, s: &[u8])
    ensures
        final(out)@ == old(out)@ + s@,
{
    let mut i: usize = 0;
    let ghost start = out@;
    while i < s.len()
        invariant
            i <= s.len(),
            out@ == start + s@.take(i as int),
        decreases s.len() - i,
    {
        out.push(s[i]);
        proof {
            assert(s@.take(i + 1) =~= s@.take(i as int).push(s@[i as int]));
        }
        i = i + 1;
    }
    proof {
        assert(s@.take(i as int) =~= s@);
    }
}

/// Appends the block record of `key` and `entry` to `block`.
fn append_record(block: &mut Vec<u8>, key: &[u8], entry: &Entry)
    ensures
        final(block)@ == old(block)@ + spec_block_record(key@, entry@),
{
    let ghost start = block@;
    match entry {
        Entry::Value(bytes) => {
            let mut a = u32_to_le_bytes(#[verifier::truncate] (key.len() as u32));
            let mut b = u32_to_le_bytes(#[verifier::truncate] (bytes.len() as u32));
            block.append(&mut a);
            block.append(&mut b);
            block.push(0u8);
            append_slice(block, key);
            append_slice(block, bytes.as_slice());
        },
        Entry::Tombstone => {
            let mut a = u32_to_le_bytes(#[verifier::truncate] (key.len() as u32));
            let mut b = u32_to_le_bytes(0u32);
            block.append(&mut a);
            block.append(&mut b);
            block.push(1u8);
            append_slice(block, key);
        },
    }
    proof {
        assert(block@ =~= start + spec_block_record(key@, entry@));
    }
}

impl SstableWriter {
    /// The entries added so far.
    pub closed spec fn added(&self) -> Seq<(Seq<u8>, EntryView)> {
        self.added@
    }

    /// The Bloom filter's bit count.
    pub closed spec fn bloom_bits(&self) -> usize {
        self.num_bits@
    }

    /// The Bloom filter's probe count.
    pub closed spec fn bloom_probes(&self) -> u32 {
        self.k@
    }

    pub closed spec fn wf(&self) -> bool {
        let m = model_of(self.added@);
        &&& self.out@ == m.data
        &&& self.bytes_written == self.out@.len()
        &&& self.current_block@ == m.block
        &&& self.index_entries@.map_values(|e: IndexEntry| e@) == m.index
        &&& opt_view(self.first_key_in_block) == m.first
        &&& self.key_count == self.added@.len()
        &&& self.added@.len() == 0 ==> self.min_key is None
        &&& self.added@.len() > 0 ==> opt_view(self.min_key) == Some(self.added@[0].0)
        &&& self.added@.len() > 0 ==> opt_view(self.max_key) == Some(self.added@.last().0)
        &&& self.bloom.wf()
        &&& self.bloom.clean()
        &&& self.bloom.num_bits == self.num_bits@
        &&& self.bloom.k == self.k@
        &&& self.bloom@ == inserted_all(
            Set::empty(),
            keys_of(self.added@),
            self.num_bits@ as nat,
            self.k@ as nat,
        )
    }

    /// A writer with nothing added, whose Bloom filter has `num_bits` bits
    /// and `k` probes.
    pub fn new(num_bits: usize, k: u32) -> (r: Self)
        ensures
            r.wf(),
            r.added() == Seq::<(Seq<u8>, EntryView)>::empty(),
            r.bloom_bits() == num_bits,
            r.bloom_probes() == k,
    {
        let r = SstableWriter {
            out: Vec::new(),
            current_block: Vec::new(),
            index_entries: Vec::new(),
            bloom: BloomFilter::new(num_bits, k),
            bytes_written: 0,
            first_key_in_block: None,
            key_count: 0,
            min_key: None,
            max_key: None,
            added: Ghost(Seq::empty()),
            num_bits: Ghost(num_bits),
            k: Ghost(k),
        };
        proof {
            assert(r.index_entries@.map_values(|e: IndexEntry| e@) =~= Seq::<(Seq<u8>, u64)>::empty());
            assert(keys_of(r.added@) =~= Seq::<Seq<u8>>::empty());
        }
        r
    }

    fn flush_block(&mut self, Ghost(m): Ghost<WriterModel>)
        requires
            old(self).out@ == m.data,
            old(self).bytes_written == old(self).out@.len(),
            old(self).current_block@ == m.block,
            old(self).index_entries@.map_values(|e: IndexEntry| e@) == m.index,
            opt_view(old(self).first_key_in_block) == m.first,
            m.block.len() > 0 ==> m.first.is_some(),
        ensures
            final(self).out@ == model_flush(m).data,
            final(self).bytes_written == final(self).out@.len(),
            final(self).current_block@ == model_flush(m).block,
            final(self).index_entries@.map_values(|e: IndexEntry| e@) == model_flush(m).index,
            opt_view(final(self).first_key_in_block) == model_flush(m).first,
            final(self).bloom == old(self).bloom,
            final(self).key_count == old(self).key_count,
            final(self).min_key == old(self).min_key,
            final(self).max_key == old(self).max_key,
            final(self).added == old(self).added,
            final(self).num_bits == old(self).num_bits,
            final(self).k == old(self).k,
    {
        if self.current_block.len() == 0 {
            return;
        }
        let offset = self.bytes_written;
        let mut block = Vec::new();
        std::mem::swap(&mut block, &mut self.current_block);
        self.out.append(&mut block);
        let first_key = self.first_key_in_block.take().unwrap();
        let ghost idx_before = self.index_entries@;
        self.index_entries.push(IndexEntry { first_key, block_offset: offset });
        self.bytes_written = self.out.len() as u64;
        proof {
            assert(self.index_entries@.map_values(|e: IndexEntry| e@) =~= idx_before.map_values(
                |e: IndexEntry| e@,
            ).push((m.first.unwrap(), m.data.len() as u64)));
        }
    }


    /// Adds the next entry. Keys are meant to come in increasing order; the
    /// writer does not check it.
    #[verifier::rlimit(40)]
    pub fn add(&mut self, key: &[u8], entry: &Entry)
        requires
            old(self).wf(),
            old(self).bloom_bits() > 0 || old(self).bloom_probes() == 0,
            old(self).added().len() < u64::MAX,
        ensures
            final(self).wf(),
            final(self).added() == old(self).added().push((key@, entry@)),
            final(self).bloom_bits() == old(self).bloom_bits(),
            final(self).bloom_probes() == old(self).bloom_probes(),
    {
        let ghost es = self.added@;
        let ghost m0 = model_of(es);
        let ghost es2 = es.push((key@, entry@));
        let ghost first = if m0.first is None { Some(key@) } else { m0.first };
        let ghost m2 = WriterModel {
            data: m0.data,
            index: m0.index,
            block: m0.block + spec_block_record(key@, entry@),
            first,
        };
        proof {
            assert(es2.drop_last() =~= es);
            assert(model_of(es2) == model_add(m0, key@, entry@));
            assert(keys_of(es2).drop_last() =~= keys_of(es));
            assert(keys_of(es2).last() == key@);
        }
        if self.first_key_in_block.is_none() {
            self.first_key_in_block = Some(slice_to_vec(key));
        }
        self.key_count = self.key_count + 1;
        if self.min_key.is_none() {
            self.min_key = Some(slice_to_vec(key));
        }
        self.max_key = Some(slice_to_vec(key));
        self.bloom.insert(key);
        append_record(&mut self.current_block, key, entry);
        self.added = Ghost(es2);
        proof {
            if es.len() > 0 {
                assert(es2[0] == es[0]);
            }
            assert(spec_block_record(key@, entry@).len() > 0);
        }
        if self.current_block.len() >= TARGET_BLOCK_SIZE {
            self.flush_block(Ghost(m2));
        }
    }

    /// Closes the last block and lays out the whole file: data blocks, index,
    /// Bloom filter and footer.
    pub fn finish(self) -> (r: SstableMeta)
        requires
            self.wf(),
            self.added().len() > 0,
        ensures
            r.contents@ == spec_sstable_file(
                model_flush(model_of(self.added())).data,
                model_flush(model_of(self.added())).index,
                spec_bloom_bytes(r.bloom.num_bits, r.bloom.k, r.bloom.bits@),
            ),
            r.bloom.wf(),
            r.bloom.clean(),
            r.bloom.num_bits == self.bloom_bits(),
            r.bloom.k == self.bloom_probes(),
            r.bloom@ == inserted_all(
                Set::empty(),
                keys_of(self.added()),
                self.bloom_bits() as nat,
                self.bloom_probes() as nat,
            ),
            r.key_count == self.added().len(),
            r.min_key@ == self.added()[0].0,
            r.max_key@ == self.added().last().0,
    {
        let mut w = self;
        let ghost m = model_of(w.added@);
        proof {
            lemma_model_first(w.added@);
        }
        w.flush_block(Ghost(m));
        let ghost mf = model_flush(model_of(w.added@));
        let index_offset = w.bytes_written;
        let mut index: Vec<u8> = Vec::new();
        let mut i: usize = 0;
        while i < w.index_entries.len()
            invariant
                i <= w.index_entries@.len(),
                w.index_entries@.map_values(|e: IndexEntry| e@) == mf.index,
                index@ == spec_index_bytes(mf.index.take(i as int)),
            decreases w.index_entries@.len() - i,
        {
            let e = &w.index_entries[i];
            let mut a = u32_to_le_bytes(#[verifier::truncate] (e.first_key.len() as u32));
            let mut b = u64_to_le_bytes(e.block_offset);
            index.append(&mut a);
            append_slice(&mut index, e.first_key.as_slice());
            index.append(&mut b);
            proof {
                assert(mf.index.take(i + 1).drop_last() =~= mf.index.take(i as int));
                assert(mf.index[i as int] == e@);
            }
            i = i + 1;
        }
        proof {
            assert(mf.index.take(i as int) =~= mf.index);
        }
        w.out.append(&mut index);
        let bloom_offset = w.out.len() as u64;
        w.bloom.write_to(&mut w.out);
        let footer = Footer { index_offset, bloom_offset, version: SSTABLE_VERSION };
        footer.write_to(&mut w.out);
        proof {
            assert(w.out@ =~= spec_sstable_file(mf.data, mf.index, spec_bloom_bytes(
                w.bloom.num_bits,
                w.bloom.k,
                w.bloom.bits@,
            )));
        }
        let min_key = w.min_key.unwrap();
        let max_key = w.max_key.unwrap();
        SstableMeta {
            contents: w.out,
            key_count: w.key_count,
            min_key,
            max_key,
            bloom: w.bloom,
        }
    }
}

} // verus!
