use vstd::prelude::*;
use vstd::bytes::*;
use vstd::slice::*;
use crate::wal::format::{
    crc32, crc32_of, record_type_of, record_type_byte, spec_encode_record, spec_record_body,
    RecordType, WalRecordOwned, HEADER_SIZE,
};

verus! {

/// What reading one record at `pos` of the log `d` gives, and where reading
/// goes on from. A record comes back only when its header, key and value are
/// all there, its type byte is known and its checksum matches; otherwise
/// nothing comes back.
pub open spec fn spec_read_at(d: Seq<u8>, pos: int) -> (Option<(RecordType, Seq<u8>, Seq<u8>)>, int) {
    if pos < 0 || pos + HEADER_SIZE > d.len() {
        (None, d.len() as int)
    } else {
        let stored = spec_u32_from_le_bytes(d.subrange(pos, pos + 4));
        let kl = spec_u32_from_le_bytes(d.subrange(pos + 4, pos + 8)) as int;
        let vl = spec_u32_from_le_bytes(d.subrange(pos + 8, pos + 12)) as int;
        match record_type_of(d[pos + 12]) {
            None => (None, pos + HEADER_SIZE),
            Some(t) => {
                let end = pos + HEADER_SIZE + kl + vl;
                if end > d.len() {
                    (None, d.len() as int)
                } else if crc32_of(d.subrange(pos + 4, end)) != stored {
                    (None, end)
                } else {
                    (
                        Some(
                            (
                                t,
                                d.subrange(pos + HEADER_SIZE, pos + HEADER_SIZE + kl),
                                d.subrange(pos + HEADER_SIZE + kl, end),
                            ),
                        ),
                        end,
                    )
                }
            },
        }
    }
}

/// The records that reading from `pos` yields before the first failure.
pub open spec fn spec_read_all(d: Seq<u8>, pos: int) -> Seq<(RecordType, Seq<u8>, Seq<u8>)>
    decreases d.len() - pos,
{
    let (r, next) = spec_read_at(d, pos);
    match r {
        None => Seq::empty(),
        Some(x) => {
            if pos < next <= d.len() {
                seq![x] + spec_read_all(d, next)
            } else {
                Seq::empty()
            }
        },
    }
}

/// The log that appending `rs` in order writes.
pub open spec fn spec_encode_log(rs: Seq<(RecordType, Seq<u8>, Seq<u8>)>) -> Seq<u8>
    decreases rs.len(),
{
    if rs.len() == 0 {
        Seq::empty()
    } else {
        spec_encode_record(rs[0].0, rs[0].1, rs[0].2) + spec_encode_log(rs.drop_first())
    }
}

/// Records whose key and value lengths fit the header's `u32` fields.
pub open spec fn records_fit(rs: Seq<(RecordType, Seq<u8>, Seq<u8>)>) -> bool {
    forall|i: int| 0 <= i < rs.len() ==> (#[trigger] rs[i]).1.len() <= u32::MAX && rs[i].2.len() <= u32::MAX
}

/// The fields of an encoded record, read back at its offset in a larger buffer.
proof fn lemma_record_fields(
    pre: Seq<u8>,
    t: RecordType,
    k: Seq<u8>,
    v: Seq<u8>,
    rest: Seq<u8>,
)
    requires
        k.len() <= u32::MAX,
        v.len() <= u32::MAX,
    ensures
        ({
            let e = spec_encode_record(t, k, v);
            let d = pre + e + rest;
            let p = pre.len() as int;
            let end = p + HEADER_SIZE + k.len() + v.len();
            &&& e.len() == HEADER_SIZE + k.len() + v.len()
            &&& spec_u32_from_le_bytes(d.subrange(p, p + 4)) == crc32_of(spec_record_body(t, k, v))
            &&& spec_u32_from_le_bytes(d.subrange(p + 4, p + 8)) == k.len()
            &&& spec_u32_from_le_bytes(d.subrange(p + 8, p + 12)) == v.len()
            &&& d[p + 12] == record_type_byte(t)
            &&& d.subrange(p + 4, end) == spec_record_body(t, k, v)
            &&& d.subrange(p + HEADER_SIZE, p + HEADER_SIZE + k.len()) == k
            &&& d.subrange(p + HEADER_SIZE + k.len(), end) == v
        }),
{
    lemma_auto_spec_u32_to_from_le_bytes();
    let body = spec_record_body(t, k, v);
    let e = spec_encode_record(t, k, v);
    let d = pre + e + rest;
    let p = pre.len() as int;
    let end = p + HEADER_SIZE + k.len() + v.len();
    let c = crc32_of(body);
    assert(d.subrange(p, p + 4) =~= spec_u32_to_le_bytes(c));
    assert(d.subrange(p + 4, p + 8) =~= spec_u32_to_le_bytes(k.len() as u32));
    assert(d.subrange(p + 8, p + 12) =~= spec_u32_to_le_bytes(v.len() as u32));
    assert(d.subrange(p + 4, end) =~= body);
    assert(d.subrange(p + HEADER_SIZE, p + HEADER_SIZE + k.len()) =~= k);
    assert(d.subrange(p + HEADER_SIZE + k.len(), end) =~= v);
}

/// A record written at any offset of a log reads back as itself, and reading
/// goes on right after it.
pub proof fn law_record_round_trip(
    pre: Seq<u8>,
    t: RecordType,
    k: Seq<u8>,
    v: Seq<u8>,
    rest: Seq<u8>,
)
    requires
        k.len() <= u32::MAX,
        v.len() <= u32::MAX,
    ensures
        spec_read_at(pre + spec_encode_record(t, k, v) + rest, pre.len() as int) == (
            Some((t, k, v)),
            (pre.len() + spec_encode_record(t, k, v).len()) as int,
        ),
{
    lemma_record_fields(pre, t, k, v, rest);
}

/// Replaying a log gives back every record appended to it, in order.
pub proof fn law_log_round_trip(pre: Seq<u8>, rs: Seq<(RecordType, Seq<u8>, Seq<u8>)>)
    requires
        records_fit(rs),
    ensures
        spec_read_all(pre + spec_encode_log(rs), pre.len() as int) == rs,
    decreases rs.len(),
{
    let d = pre + spec_encode_log(rs);
    if rs.len() == 0 {
        assert(d =~= pre);
    } else {
        let e = spec_encode_record(rs[0].0, rs[0].1, rs[0].2);
        let tail = rs.drop_first();
        assert(records_fit(tail)) by {
            assert forall|i: int| 0 <= i < tail.len() implies (#[trigger] tail[i]).1.len() <= u32::MAX
                && tail[i].2.len() <= u32::MAX by {
                assert(tail[i] == rs[i + 1]);
            }
        }
        assert(rs[0].1.len() <= u32::MAX && rs[0].2.len() <= u32::MAX);
        law_record_round_trip(pre, rs[0].0, rs[0].1, rs[0].2, spec_encode_log(tail));
        assert(d =~= pre + e + spec_encode_log(tail));
        law_log_round_trip(pre + e, tail);
        assert((pre + e) + spec_encode_log(tail) =~= d);
        assert(rs =~= seq![rs[0]] + tail);
    }
}

/// How many leading records of `rs` are written whole within `room` bytes.
pub open spec fn whole_records(rs: Seq<(RecordType, Seq<u8>, Seq<u8>)>, room: int) -> int
    decreases rs.len(),
{
    if rs.len() == 0 {
        0
    } else if spec_encode_record(rs[0].0, rs[0].1, rs[0].2).len() <= room {
        1 + whole_records(
            rs.drop_first(),
            room - spec_encode_record(rs[0].0, rs[0].1, rs[0].2).len(),
        )
    } else {
        0
    }
}

/// A log cut short anywhere (a crash in the middle of an append) replays
/// exactly the records that were written whole before the cut, in order, and
/// nothing of the one that was cut or of any after it.
pub proof fn law_truncated_log_replays_prefix(
    pre: Seq<u8>,
    rs: Seq<(RecordType, Seq<u8>, Seq<u8>)>,
    n: int,
)
    requires
        records_fit(rs),
        pre.len() <= n <= pre.len() + spec_encode_log(rs).len(),
    ensures
        0 <= whole_records(rs, n - pre.len()) <= rs.len(),
        spec_read_all((pre + spec_encode_log(rs)).take(n), pre.len() as int) == rs.take(
            whole_records(rs, n - pre.len()),
        ),
    decreases rs.len(),
{
    let full = pre + spec_encode_log(rs);
    let d = full.take(n);
    let p = pre.len() as int;
    if rs.len() == 0 {
        assert(rs.take(0) =~= rs);
        assert(whole_records(rs, n - p) == 0);
        assert(spec_read_all(d, p) == rs.take(0));
    } else {
        let e = spec_encode_record(rs[0].0, rs[0].1, rs[0].2);
        let tail = rs.drop_first();
        assert(records_fit(tail)) by {
            assert forall|i: int| 0 <= i < tail.len() implies (#[trigger] tail[i]).1.len() <= u32::MAX
                && tail[i].2.len() <= u32::MAX by {
                assert(tail[i] == rs[i + 1]);
            }
        }
        assert(rs[0].1.len() <= u32::MAX && rs[0].2.len() <= u32::MAX);
        assert(full =~= pre + e + spec_encode_log(tail));
        lemma_record_fields(pre, rs[0].0, rs[0].1, rs[0].2, spec_encode_log(tail));
        if n >= p + e.len() {
            let pre2 = pre + e;
            assert(pre2 + spec_encode_log(tail) =~= full);
            law_truncated_log_replays_prefix(pre2, tail, n);
            let m = whole_records(tail, n - pre2.len());
            assert(whole_records(rs, n - p) == 1 + m);
            let end = p + e.len();
            assert(d.subrange(p, p + 4) =~= full.subrange(p, p + 4));
            assert(d.subrange(p + 4, p + 8) =~= full.subrange(p + 4, p + 8));
            assert(d.subrange(p + 8, p + 12) =~= full.subrange(p + 8, p + 12));
            assert(d.subrange(p + 4, end) =~= full.subrange(p + 4, end));
            assert(d.subrange(p + HEADER_SIZE, p + HEADER_SIZE + rs[0].1.len()) =~= full.subrange(
                p + HEADER_SIZE,
                p + HEADER_SIZE + rs[0].1.len(),
            ));
            assert(d.subrange(p + HEADER_SIZE + rs[0].1.len(), end) =~= full.subrange(
                p + HEADER_SIZE + rs[0].1.len(),
                end,
            ));
            assert(spec_read_at(d, p) == (Some(rs[0]), end));
            assert(spec_read_all(d, p) == seq![rs[0]] + tail.take(m));
            assert(seq![rs[0]] + tail.take(m) =~= rs.take(m + 1));
        } else {
            if p + HEADER_SIZE <= n {
                assert(d.subrange(p, p + 4) =~= full.subrange(p, p + 4));
                assert(d.subrange(p + 4, p + 8) =~= full.subrange(p + 4, p + 8));
                assert(d.subrange(p + 8, p + 12) =~= full.subrange(p + 8, p + 12));
                assert(d[p + 12] == full[p + 12]);
            }
            assert(spec_read_at(d, p).0.is_none());
            assert(whole_records(rs, n - p) == 0);
            assert(spec_read_all(d, p) =~= rs.take(0));
        }
    }
}

/// Reads the records of a write-ahead log held in memory, in order.
pub struct WalReader {
    data: Vec<u8>,
    pos: usize,
}

impl WalReader {
    #[verifier::type_invariant]
    spec fn inv(&self) -> bool {
        self.pos <= self.data@.len()
    }

    /// The log's bytes.
    pub closed spec fn bytes(&self) -> Seq<u8> {
        self.data@
    }

    /// Where the next read starts.
    pub closed spec fn position(&self) -> int {
        self.pos as int
    }

    /// A reader at the start of `data`.
    pub fn new(data: Vec<u8>) -> (r: Self)
        ensures
            r.bytes() == data@,
            r.position() == 0,
            0 <= r.position() <= r.bytes().len(),
    {
        Self { data, pos: 0 }
    }

    /// The next record, or `None` once the log ends in a truncated, unknown
    /// or corrupt record.
    pub fn read_one(&mut self) -> (r: Option<WalRecordOwned>)
        ensures
            final(self).bytes() == old(self).bytes(),
            0 <= final(self).position() <= final(self).bytes().len(),
            ({
                let (x, next) = spec_read_at(old(self).bytes(), old(self).position());
                &&& final(self).position() == next
                &&& match r {
                    Some(rec) => x == Some(rec@),
                    None => x.is_none(),
                }
            }),
    {
        proof {
            use_type_invariant(&*self);
        }
        let len = self.data.len();
        if len - self.pos < HEADER_SIZE {
            self.pos = len;
            return None;
        }
        let p = self.pos;
        let d = self.data.as_slice();
        let stored_crc = u32_from_le_bytes(slice_subrange(d, p, p + 4));
        let key_len = u32_from_le_bytes(slice_subrange(d, p + 4, p + 8)) as usize;
        let value_len = u32_from_le_bytes(slice_subrange(d, p + 8, p + 12)) as usize;
        let record_type = match RecordType::from_byte(d[p + 12]) {
            Some(t) => t,
            None => {
                self.pos = p + HEADER_SIZE;
                return None;
            },
        };
        let remaining = len - p - HEADER_SIZE;
        if key_len > remaining || value_len > remaining - key_len {
            self.pos = len;
            return None;
        }
        let end = p + HEADER_SIZE + key_len + value_len;
        let computed_crc = crc32(slice_subrange(d, p + 4, end));
        if computed_crc != stored_crc {
            self.pos = end;
            return None;
        }
        let key = slice_to_vec(slice_subrange(d, p + HEADER_SIZE, p + HEADER_SIZE + key_len));
        let value = slice_to_vec(slice_subrange(d, p + HEADER_SIZE + key_len, end));
        self.pos = end;
        Some(WalRecordOwned { record_type, key, value })
    }

    /// Every record up to the first that cannot be read.
    pub fn read_all(&mut self) -> (r: Vec<WalRecordOwned>)
        ensures
            final(self).bytes() == old(self).bytes(),
            0 <= final(self).position() <= final(self).bytes().len(),
            r@.map_values(|x: WalRecordOwned| x@) == spec_read_all(
                old(self).bytes(),
                old(self).position(),
            ),
    {
        let mut out: Vec<WalRecordOwned> = Vec::new();
        let ghost d = self.bytes();
        let ghost start = self.position();
        loop
            invariant
                self.bytes() == d,
                d == old(self).bytes(),
                start == old(self).position(),
                out@.map_values(|x: WalRecordOwned| x@) + spec_read_all(d, self.position())
                    == spec_read_all(d, start),
            decreases d.len() - self.position(),
        {
            proof {
                use_type_invariant(&*self);
            }
            let ghost before = self.position();
            match self.read_one() {
                Some(rec) => {
                    proof {
                        use_type_invariant(&*self);
                        let ghost next = self.position();
                        assert(before < next <= d.len());
                        assert(spec_read_all(d, before) == seq![rec@] + spec_read_all(d, next));
                        assert(out@.push(rec).map_values(|x: WalRecordOwned| x@) =~= out@.map_values(
                            |x: WalRecordOwned| x@,
                        ).push(rec@));
                    }
                    out.push(rec);
                },
                None => {
                    proof {
                        assert(spec_read_all(d, before) == Seq::<(RecordType, Seq<u8>, Seq<u8>)>::empty());
                        assert(out@.map_values(|x: WalRecordOwned| x@) + Seq::<
                            (RecordType, Seq<u8>, Seq<u8>),
                        >::empty() =~= out@.map_values(|x: WalRecordOwned| x@));
                    }
                    return out;
                },
            }
        }
    }
}

} // verus!
