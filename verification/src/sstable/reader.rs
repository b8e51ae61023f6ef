use vstd::prelude::*;
use vstd::bytes::*;
use vstd::slice::*;
use crate::bloom::{bloom_set, probe_set, spec_read_bloom, BloomFilter};
use crate::error::IoError;
use crate::keys::{
    compare_keys, key_lt, lemma_key_lt_transitive, strictly_increasing, KeyOrder,
};
use crate::memtable::EntryView;
use crate::sstable::footer::{spec_read_footer, Footer, FOOTER_SIZE};
use crate::sstable::writer::IndexEntry;

verus! {

/// What one SSTable says of a key: a value, or a tombstone.
#[derive(Debug, Clone, PartialEq)]
pub enum SstableLookup {
    Found(Vec<u8>),
    Tombstone,
}

impl View for SstableLookup {
    type V = EntryView;

    open spec fn view(&self) -> EntryView {
        match self {
            SstableLookup::Found(v) => EntryView::Value(v@),
            SstableLookup::Tombstone => EntryView::Tombstone,
        }
    }
}

/// The mathematical value of a lookup's result.
pub open spec fn lookup_view(r: Result<Option<SstableLookup>, IoError>) -> Result<Option<EntryView>, IoError> {
    match r {
        Ok(Some(l)) => Ok(Some(l@)),
        Ok(None) => Ok(None),
        Err(e) => Err(e),
    }
}

/// What parsing an index section gives.
pub open spec fn spec_parse_index(b: Seq<u8>) -> Result<Seq<(Seq<u8>, u64)>, IoError>
    decreases b.len(),
{
    if b.len() == 0 {
        Ok(Seq::empty())
    } else if b.len() < 4 {
        Err(IoError::UnexpectedEof)
    } else {
        let kl = spec_u32_from_le_bytes(b.subrange(0, 4)) as int;
        if b.len() < 12 + kl {
            Err(IoError::UnexpectedEof)
        } else {
            let k = b.subrange(4, 4 + kl);
            let off = spec_u64_from_le_bytes(b.subrange(4 + kl, 12 + kl));
            match spec_parse_index(b.subrange(12 + kl, b.len() as int)) {
                Ok(rest) => Ok(seq![(k, off)] + rest),
                Err(e) => Err(e),
            }
        }
    }
}

/// What an opened SSTable holds besides its bytes.
pub struct ReaderModel {
    pub footer: Footer,
    pub index: Seq<(Seq<u8>, u64)>,
    pub num_bits: usize,
    pub k: u32,
    pub bits: Seq<u8>,
}

/// What opening the SSTable whose bytes are `c` gives.
pub open spec fn spec_open(c: Seq<u8>) -> Result<ReaderModel, IoError> {
    if c.len() < FOOTER_SIZE {
        Err(IoError::TooSmall)
    } else {
        let end = c.len() - FOOTER_SIZE;
        match spec_read_footer(c.subrange(end, c.len() as int)) {
            Err(e) => Err(e),
            Ok(f) => {
                if f.index_offset > f.bloom_offset || f.bloom_offset > end {
                    Err(IoError::InvalidOffsets)
                } else {
                    match spec_parse_index(c.subrange(f.index_offset as int, f.bloom_offset as int)) {
                        Err(e) => Err(e),
                        Ok(idx) => match spec_read_bloom(c.subrange(f.bloom_offset as int, end)) {
                            Err(e) => Err(e),
                            Ok((nb, k, bits)) => Ok(
                                ReaderModel { footer: f, index: idx, num_bits: nb, k, bits },
                            ),
                        },
                    }
                }
            },
        }
    }
}

/// The keys of an index.
pub open spec fn index_keys(idx: Seq<(Seq<u8>, u64)>) -> Seq<Seq<u8>> {
    idx.map_values(|e: (Seq<u8>, u64)| e.0)
}

/// The block that may hold `key` in a sorted index: the last whose first key
/// is not above `key`; none when `key` is below every first key.
pub open spec fn spec_block_index(idx: Seq<(Seq<u8>, u64)>, key: Seq<u8>) -> Option<int> {
    if exists|i: int| 0 <= i < idx.len() && !key_lt(key, #[trigger] idx[i].0) {
        Some(
            choose|i: int|
                0 <= i < idx.len() && !key_lt(key, #[trigger] idx[i].0) && (i + 1 == idx.len()
                    || key_lt(key, idx[i + 1].0)),
        )
    } else {
        None
    }
}

/// The first index position whose block starts at `off`.
pub open spec fn first_with_offset(idx: Seq<(Seq<u8>, u64)>, off: u64) -> int {
    choose|p: int|
        0 <= p < idx.len() && idx[p].1 == off && forall|q: int| 0 <= q < p ==> #[trigger] idx[q].1 != off
}

/// Where the block starting at `off` ends: the next block's start, or the
/// start of the index for the last block.
pub open spec fn spec_block_end(idx: Seq<(Seq<u8>, u64)>, index_offset: u64, off: u64) -> u64 {
    let p = first_with_offset(idx, off);
    if p + 1 < idx.len() {
        idx[p + 1].1
    } else {
        index_offset
    }
}

/// What scanning the records of block `b` for `key` gives: the first record
/// with the key, none once a greater key or the end is reached, or
/// `UnexpectedEof` when a record is cut short.
pub open spec fn spec_scan(b: Seq<u8>, key: Seq<u8>) -> Result<Option<EntryView>, IoError>
    decreases b.len(),
{
    if b.len() == 0 {
        Ok(None)
    } else if b.len() < 9 {
        Err(IoError::UnexpectedEof)
    } else {
        let kl = spec_u32_from_le_bytes(b.subrange(0, 4)) as int;
        let vl = spec_u32_from_le_bytes(b.subrange(4, 8)) as int;
        if b.len() < 9 + kl {
            Err(IoError::UnexpectedEof)
        } else {
            let rk = b.subrange(9, 9 + kl);
            if key_lt(rk, key) {
                if b.len() < 9 + kl + vl {
                    Err(IoError::UnexpectedEof)
                } else {
                    spec_scan(b.subrange(9 + kl + vl, b.len() as int), key)
                }
            } else if rk == key {
                if b[8] == 1 {
                    Ok(Some(EntryView::Tombstone))
                } else if b.len() < 9 + kl + vl {
                    Err(IoError::UnexpectedEof)
                } else {
                    Ok(Some(EntryView::Value(b.subrange(9 + kl, 9 + kl + vl))))
                }
            } else {
                Ok(None)
            }
        }
    }
}

/// Scanning the block that starts at `off`.
pub open spec fn spec_scan_at(
    c: Seq<u8>,
    idx: Seq<(Seq<u8>, u64)>,
    index_offset: u64,
    off: u64,
    key: Seq<u8>,
) -> Result<Option<EntryView>, IoError> {
    let end = spec_block_end(idx, index_offset, off);
    if off > end || end > c.len() {
        Err(IoError::InvalidOffsets)
    } else {
        spec_scan(c.subrange(off as int, end as int), key)
    }
}

/// What a lookup in an SSTable with a sorted index gives; a filter of no
/// bits that asks for probes cannot be consulted.
pub open spec fn spec_get(c: Seq<u8>, m: ReaderModel, key: Seq<u8>) -> Result<Option<EntryView>, IoError> {
    if m.num_bits == 0 && m.k > 0 {
        Err(IoError::EmptyBloomFilter)
    } else if !probe_set(key, m.num_bits as nat, m.k as nat).subset_of(bloom_set(m.num_bits, m.bits)) {
        Ok(None)
    } else {
        match spec_block_index(m.index, key) {
            None => Ok(None),
            Some(i) => spec_scan_at(c, m.index, m.footer.index_offset, m.index[i].1, key),
        }
    }
}

/// An opened SSTable: its bytes, its index and its Bloom filter.
pub struct SstableReader {
    contents: Vec<u8>,
    index: Vec<IndexEntry>,
    bloom: BloomFilter,
    footer: Footer,
}

impl SstableReader {
    /// The file's bytes.
    pub closed spec fn contents(&self) -> Seq<u8> {
        self.contents@
    }

    /// What was read from the file when it was opened.
    pub closed spec fn model(&self) -> ReaderModel {
        ReaderModel {
            footer: self.footer,
            index: self.index@.map_values(|e: IndexEntry| e@),
            num_bits: self.bloom.num_bits,
            k: self.bloom.k,
            bits: self.bloom.bits@,
        }
    }

    /// The reader holds what opening its bytes gives.
    pub closed spec fn wf(&self) -> bool {
        &&& spec_open(self.contents@) == Ok::<ReaderModel, IoError>(self.model())
        &&& self.bloom.wf()
    }

    /// Opens an SSTable from its bytes: reads the footer, the index and the
    /// Bloom filter.
    pub fn open(contents: Vec<u8>) -> (r: Result<Self, IoError>)
        ensures
            match r {
                Ok(rd) => {
                    &&& rd.wf()
                    &&& rd.contents() == contents@
                    &&& spec_open(contents@) == Ok::<ReaderModel, IoError>(rd.model())
                },
                Err(e) => spec_open(contents@) == Err::<ReaderModel, IoError>(e),
            },
    {
        let len = contents.len();
        if len < FOOTER_SIZE {
            return Err(IoError::TooSmall);
        }
        let end = len - FOOTER_SIZE;
        let footer = match Footer::read_from(slice_subrange(contents.as_slice(), end, len)) {
            Ok(f) => f,
            Err(e) => return Err(e),
        };
        if footer.index_offset > footer.bloom_offset || footer.bloom_offset > end as u64 {
            return Err(IoError::InvalidOffsets);
        }
        let io = footer.index_offset as usize;
        let bo = footer.bloom_offset as usize;
        let index = match Self::read_index(slice_subrange(contents.as_slice(), io, bo)) {
            Ok(i) => i,
            Err(e) => return Err(e),
        };
        let bloom = match BloomFilter::read_from(slice_subrange(contents.as_slice(), bo, end)) {
            Ok(b) => b,
            Err(e) => return Err(e),
        };
        let r = SstableReader { contents, index, bloom, footer };
        proof {
            assert(r.model().index == r.index@.map_values(|e: IndexEntry| e@));
        }
        Ok(r)
    }

    /// Parses an index section.
    pub fn read_index(bytes: &[u8]) -> (r: Result<Vec<IndexEntry>, IoError>)
        ensures
            match r {
                Ok(v) => spec_parse_index(bytes@) == Ok::<Seq<(Seq<u8>, u64)>, IoError>(
                    v@.map_values(|e: IndexEntry| e@),
                ),
                Err(e) => spec_parse_index(bytes@) == Err::<Seq<(Seq<u8>, u64)>, IoError>(e),
            },
    {
        let mut entries: Vec<IndexEntry> = Vec::new();
        let mut pos: usize = 0;
        proof {
            assert(bytes@.subrange(0, bytes@.len() as int) =~= bytes@);
            match spec_parse_index(bytes@) {
                Ok(rest) => {
                    assert(entries@.map_values(|e: IndexEntry| e@) + rest =~= rest);
                },
                Err(e) => {},
            }
        }
        while pos < bytes.len()
            invariant
                pos <= bytes@.len(),
                match spec_parse_index(bytes@.subrange(pos as int, bytes@.len() as int)) {
                    Ok(rest) => spec_parse_index(bytes@) == Ok::<Seq<(Seq<u8>, u64)>, IoError>(
                        entries@.map_values(|e: IndexEntry| e@) + rest,
                    ),
                    Err(e) => spec_parse_index(bytes@) == Err::<Seq<(Seq<u8>, u64)>, IoError>(e),
                },
            decreases bytes@.len() - pos,
        {
            let ghost b = bytes@.subrange(pos as int, bytes@.len() as int);
            if bytes.len() - pos < 4 {
                return Err(IoError::UnexpectedEof);
            }
            let key_len = u32_from_le_bytes(slice_subrange(bytes, pos, pos + 4)) as usize;
            proof {
                assert(b.subrange(0, 4) =~= bytes@.subrange(pos as int, pos + 4));
            }
            if bytes.len() - pos - 4 < key_len || bytes.len() - pos - 4 - key_len < 8 {
                return Err(IoError::UnexpectedEof);
            }
            let key = slice_to_vec(slice_subrange(bytes, pos + 4, pos + 4 + key_len));
            let offset = u64_from_le_bytes(
                slice_subrange(bytes, pos + 4 + key_len, pos + 12 + key_len),
            );
            proof {
                assert(b.subrange(4, 4 + key_len) =~= key@);
                assert(b.subrange(4 + key_len, 12 + key_len) =~= bytes@.subrange(
                    pos + 4 + key_len,
                    pos + 12 + key_len,
                ));
                assert(b.subrange(12 + key_len, b.len() as int) =~= bytes@.subrange(
                    pos + 12 + key_len,
                    bytes@.len() as int,
                ));
            }
            let ghost before = entries@.map_values(|e: IndexEntry| e@);
            entries.push(IndexEntry { first_key: key, block_offset: offset });
            proof {
                assert(entries@.map_values(|e: IndexEntry| e@) =~= before.push(
                    (key@, offset),
                ));
                let nb = bytes@.subrange(pos + 12 + key_len, bytes@.len() as int);
                match spec_parse_index(nb) {
                    Ok(rest) => {
                        assert(before + (seq![(key@, offset)] + rest) =~= before.push(
                            (key@, offset),
                        ) + rest);
                    },
                    Err(e) => {},
                }
            }
            pos = pos + 12 + key_len;
        }
        proof {
            assert(bytes@.subrange(pos as int, bytes@.len() as int) =~= Seq::<u8>::empty());
            assert(entries@.map_values(|e: IndexEntry| e@) + Seq::<(Seq<u8>, u64)>::empty()
                =~= entries@.map_values(|e: IndexEntry| e@));
        }
        Ok(entries)
    }

    /// The position of the block that may hold `key`: exact when the index is
    /// sorted, as the writer makes it.
    fn find_block(&self, key: &[u8]) -> (r: Option<usize>)
        ensures
            r matches Some(i) ==> i < self.model().index.len(),
            strictly_increasing(index_keys(self.model().index)) ==> match r {
                Some(i) => spec_block_index(self.model().index, key@) == Some(i as int),
                None => spec_block_index(self.model().index, key@) == None::<int>,
            },
    {
        let ghost idx = self.model().index;
        let ghost sorted = strictly_increasing(index_keys(idx));
        let mut lo: usize = 0;
        let mut hi: usize = self.index.len();
        while lo < hi
            invariant
                idx == self.model().index,
                idx.len() == self.index@.len(),
                sorted == strictly_increasing(index_keys(idx)),
                lo <= hi <= idx.len(),
                sorted ==> forall|i: int| 0 <= i < lo ==> !key_lt(key@, #[trigger] idx[i].0),
                sorted ==> forall|i: int| hi <= i < idx.len() ==> key_lt(key@, #[trigger] idx[i].0),
            decreases hi - lo,
        {
            let mid = lo + (hi - lo) / 2;
            let c = compare_keys(key, self.index[mid].first_key.as_slice());
            assert(idx[mid as int].0 == self.index@[mid as int].first_key@);
            if c == KeyOrder::Less {
                proof {
                    if sorted {
                        assert forall|i: int| mid <= i < idx.len() implies key_lt(
                            key@,
                            #[trigger] idx[i].0,
                        ) by {
                            if i > mid {
                                assert(index_keys(idx)[mid as int] == idx[mid as int].0);
                                assert(index_keys(idx)[i] == idx[i].0);
                                lemma_key_lt_transitive(key@, idx[mid as int].0, idx[i].0);
                            }
                        }
                    }
                }
                hi = mid;
            } else {
                proof {
                    if sorted {
                        assert forall|i: int| 0 <= i < mid + 1 implies !key_lt(
                            key@,
                            #[trigger] idx[i].0,
                        ) by {
                            if i < mid && key_lt(key@, idx[i].0) {
                                assert(index_keys(idx)[mid as int] == idx[mid as int].0);
                                assert(index_keys(idx)[i] == idx[i].0);
                                lemma_key_lt_transitive(key@, idx[i].0, idx[mid as int].0);
                            }
                        }
                    }
                }
                lo = mid + 1;
            }
        }
        if lo == 0 {
            proof {
                if sorted {
                    assert(!exists|i: int| 0 <= i < idx.len() && !key_lt(key@, #[trigger] idx[i].0));
                }
            }
            None
        } else {
            proof {
                if sorted {
                    let j = lo - 1;
                    assert(0 <= j < idx.len() && !key_lt(key@, idx[j].0) && (j + 1 == idx.len()
                        || key_lt(key@, idx[j + 1].0)));
                    let c = choose|i: int|
                        0 <= i < idx.len() && !key_lt(key@, #[trigger] idx[i].0) && (i + 1
                            == idx.len() || key_lt(key@, idx[i + 1].0));
                    if c < j {
                        assert(!key_lt(key@, idx[c + 1].0));
                    }
                    assert(c == j);
                }
            }
            Some(lo - 1)
        }
    }

    /// The offset of the block that may hold `key`, if any.
    pub fn find_block_offset(&self, key: &[u8]) -> (r: Option<u64>)
        ensures
            r matches Some(off) ==> exists|i: int|
                0 <= i < self.model().index.len() && #[trigger] self.model().index[i].1 == off,
            strictly_increasing(index_keys(self.model().index)) ==> match r {
                Some(off) => spec_block_index(self.model().index, key@) matches Some(i) && off
                    == self.model().index[i].1,
                None => spec_block_index(self.model().index, key@) == None::<int>,
            },
    {
        match self.find_block(key) {
            Some(i) => {
                assert(self.model().index[i as int].1 == self.index@[i as int].block_offset);
                Some(self.index[i].block_offset)
            },
            None => None,
        }
    }

    /// Where the block starting at `block_offset` ends.
    fn block_end(&self, block_offset: u64) -> (r: u64)
        requires
            exists|i: int|
                0 <= i < self.model().index.len() && #[trigger] self.model().index[i].1
                    == block_offset,
        ensures
            r == spec_block_end(self.model().index, self.footer.index_offset, block_offset),
    {
        let ghost idx = self.model().index;
        let mut p: usize = 0;
        while p < self.index.len() && self.index[p].block_offset != block_offset
            invariant
                idx == self.model().index,
                idx.len() == self.index@.len(),
                p <= idx.len(),
                forall|q: int| 0 <= q < p ==> #[trigger] idx[q].1 != block_offset,
                exists|i: int| 0 <= i < idx.len() && #[trigger] idx[i].1 == block_offset,
            decreases idx.len() - p,
        {
            assert(idx[p as int].1 == self.index@[p as int].block_offset);
            p = p + 1;
        }
        proof {
            if p == idx.len() {
                let i = choose|i: int| 0 <= i < idx.len() && #[trigger] idx[i].1 == block_offset;
                assert(idx[i].1 != block_offset);
            }
            assert(idx[p as int].1 == self.index@[p as int].block_offset);
            let c = first_with_offset(idx, block_offset);
            assert(0 <= p < idx.len() && idx[p as int].1 == block_offset && forall|q: int|
                0 <= q < p ==> #[trigger] idx[q].1 != block_offset);
            if c < p {
                assert(idx[c].1 != block_offset);
            } else if c > p {
                assert(idx[p as int].1 != block_offset);
            }
        }
        if p + 1 < self.index.len() {
            assert(idx[p + 1].1 == self.index@[p + 1].block_offset);
            self.index[p + 1].block_offset
        } else {
            self.footer.index_offset
        }
    }

    /// Scans the block starting at `block_offset` for `key`.
    pub fn scan_block(&self, block_offset: u64, key: &[u8]) -> (r: Result<Option<SstableLookup>, IoError>)
        requires
            exists|i: int|
                0 <= i < self.model().index.len() && #[trigger] self.model().index[i].1
                    == block_offset,
        ensures
            lookup_view(r) == spec_scan_at(
                self.contents(),
                self.model().index,
                self.model().footer.index_offset,
                block_offset,
                key@,
            ),
    {
        let end = self.block_end(block_offset);
        if block_offset > end || end > self.contents.len() as u64 {
            return Err(IoError::InvalidOffsets);
        }
        let b = slice_subrange(self.contents.as_slice(), block_offset as usize, end as usize);
        let ghost whole = b@;
        let ghost target = spec_scan_at(
            self.contents(),
            self.model().index,
            self.model().footer.index_offset,
            block_offset,
            key@,
        );
        let mut pos: usize = 0;
        proof {
            assert(whole.subrange(0, whole.len() as int) =~= whole);
            assert(target == spec_scan(whole, key@));
        }
        while pos < b.len()
            invariant
                pos <= b@.len(),
                b@ == whole,
                target == spec_scan(whole, key@),
                target == spec_scan_at(
                    self.contents(),
                    self.model().index,
                    self.model().footer.index_offset,
                    block_offset,
                    key@,
                ),
                spec_scan(whole.subrange(pos as int, whole.len() as int), key@) == spec_scan(
                    whole,
                    key@,
                ),
            decreases b@.len() - pos,
        {
            let ghost s = whole.subrange(pos as int, whole.len() as int);
            let rem = b.len() - pos;
            assert(s.len() == rem);
            if rem < 9 {
                return Err(IoError::UnexpectedEof);
            }
            let key_len = u32_from_le_bytes(slice_subrange(b, pos, pos + 4)) as usize;
            let value_len = u32_from_le_bytes(slice_subrange(b, pos + 4, pos + 8)) as usize;
            let record_type = b[pos + 8];
            proof {
                assert(s.subrange(0, 4) =~= b@.subrange(pos as int, pos + 4));
                assert(s.subrange(4, 8) =~= b@.subrange(pos + 4, pos + 8));
                assert(s[8] == b@[pos + 8]);
            }
            if rem - 9 < key_len {
                return Err(IoError::UnexpectedEof);
            }
            let record_key = slice_subrange(b, pos + 9, pos + 9 + key_len);
            proof {
                assert(s.subrange(9, 9 + key_len) =~= record_key@);
            }
            match compare_keys(record_key, key) {
                KeyOrder::Less => {
                    if rem - 9 - key_len < value_len {
                        return Err(IoError::UnexpectedEof);
                    }
                    proof {
                        assert(s.subrange(9 + key_len + value_len, s.len() as int) =~= whole.subrange(
                            pos + 9 + key_len + value_len,
                            whole.len() as int,
                        ));
                    }
                    pos = pos + 9 + key_len + value_len;
                },
                KeyOrder::Equal => {
                    if record_type == 1 {
                        return Ok(Some(SstableLookup::Tombstone));
                    }
                    if rem - 9 - key_len < value_len {
                        return Err(IoError::UnexpectedEof);
                    }
                    let value = slice_to_vec(
                        slice_subrange(b, pos + 9 + key_len, pos + 9 + key_len + value_len),
                    );
                    proof {
                        assert(s.subrange(9 + key_len, 9 + key_len + value_len) =~= value@);
                    }
                    return Ok(Some(SstableLookup::Found(value)));
                },
                KeyOrder::Greater => {
                    return Ok(None);
                },
            }
        }
        proof {
            assert(whole.subrange(pos as int, whole.len() as int) =~= Seq::<u8>::empty());
        }
        Ok(None)
    }

    /// Looks `key` up: the Bloom filter first, then the index, then the
    /// block. Exact for a sorted index; with any index the answer is absence
    /// or what scanning one of its blocks gives. A filter of no bits that
    /// asks for probes cannot answer, and the lookup fails with
    /// `EmptyBloomFilter`.
    pub fn get(&self, key: &[u8]) -> (r: Result<Option<SstableLookup>, IoError>)
        requires
            self.wf(),
        ensures
            strictly_increasing(index_keys(self.model().index)) ==> lookup_view(r) == spec_get(
                self.contents(),
                self.model(),
                key@,
            ),
            self.model().num_bits == 0 && self.model().k > 0 ==> r == Err::<
                Option<SstableLookup>,
                IoError,
            >(IoError::EmptyBloomFilter),
            (self.model().num_bits > 0 || self.model().k == 0) && !probe_set(
                key@,
                self.model().num_bits as nat,
                self.model().k as nat,
            ).subset_of(bloom_set(self.model().num_bits, self.model().bits)) ==> r == Ok::<
                Option<SstableLookup>,
                IoError,
            >(None),
            r == Err::<Option<SstableLookup>, IoError>(IoError::EmptyBloomFilter) || lookup_view(r)
                == Ok::<Option<EntryView>, IoError>(None) || exists|i: int|
                0 <= i < self.model().index.len() && lookup_view(r) == spec_scan_at(
                    self.contents(),
                    self.model().index,
                    self.model().footer.index_offset,
                    #[trigger] self.model().index[i].1,
                    key@,
                ),
    {
        if self.bloom.num_bits == 0 && self.bloom.k > 0 {
            return Err(IoError::EmptyBloomFilter);
        }
        if !self.bloom.may_contain(key) {
            return Ok(None);
        }
        match self.find_block_offset(key) {
            None => Ok(None),
            Some(block_offset) => self.scan_block(block_offset, key),
        }
    }
}

} // verus!
