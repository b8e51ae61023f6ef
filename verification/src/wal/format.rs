use vstd::prelude::*;
use vstd::bytes::*;

verus! {

pub const CRC32_SIZE: usize = 4;

pub const LEN_SIZE: usize = 4;

pub const RECORD_TYPE_SIZE: usize = 1;

/// CRC, key length, value length and record type.
pub const HEADER_SIZE: usize = 13;

/// What a record asks for: store a value, or delete the key.
#[derive(Debug, Clone, Copy, PartialEq, Eq, Structural)]
pub enum RecordType {
    Put,
    Delete,
}

/// The byte that stands for a record type on disk.
pub open spec fn record_type_byte(t: RecordType) -> u8 {
    match t {
        RecordType::Put => 0u8,
        RecordType::Delete => 1u8,
    }
}

/// The record type that a byte stands for, if any.
pub open spec fn record_type_of(b: u8) -> Option<RecordType> {
    if b == 0 {
        Some(RecordType::Put)
    } else if b == 1 {
        Some(RecordType::Delete)
    } else {
        None
    }
}

impl RecordType {
    pub fn to_byte(self) -> (r: u8)
        ensures
            r == record_type_byte(self),
    {
        match self {
            RecordType::Put => 0,
            RecordType::Delete => 1,
        }
    }

    pub fn from_byte(b: u8) -> (r: Option<RecordType>)
        ensures
            r == record_type_of(b),
    {
        if b == 0 {
            Some(RecordType::Put)
        } else if b == 1 {
            Some(RecordType::Delete)
        } else {
            None
        }
    }
}

/// A record to append, borrowing its key and value.
pub struct WalRecord<'a> {
    pub record_type: RecordType,
    pub key: &'a [u8],
    pub value: &'a [u8],
}

/// A record read back from a log.
#[derive(Debug, Clone, PartialEq)]
pub struct WalRecordOwned {
    pub record_type: RecordType,
    pub key: Vec<u8>,
    pub value: Vec<u8>,
}

impl View for WalRecordOwned {
    type V = (RecordType, Seq<u8>, Seq<u8>);

    open spec fn view(&self) -> (RecordType, Seq<u8>, Seq<u8>) {
        (self.record_type, self.key@, self.value@)
    }
}

/// One bit step of the reflected CRC-32 (IEEE) register, polynomial
/// `0xEDB88320`.
pub open spec fn crc32_shift(c: u32) -> u32 {
    if c & 1u32 == 1u32 {
        (c >> 1u32) ^ 0xEDB8_8320u32
    } else {
        c >> 1u32
    }
}

/// `n` bit steps of the register.
pub open spec fn crc32_shift_n(c: u32, n: nat) -> u32
    decreases n,
{
    if n == 0 {
        c
    } else {
        crc32_shift_n(crc32_shift(c), (n - 1) as nat)
    }
}

/// The register after the bytes `data`, starting from all ones.
pub open spec fn crc32_register(data: Seq<u8>) -> u32
    decreases data.len(),
{
    if data.len() == 0 {
        0xFFFF_FFFFu32
    } else {
        crc32_shift_n(crc32_register(data.drop_last()) ^ (data.last() as u32), 8)
    }
}

/// The CRC-32 (IEEE) checksum of `data`: the final register, inverted.
pub open spec fn crc32_of(data: Seq<u8>) -> u32 {
    crc32_register(data) ^ 0xFFFF_FFFFu32
}

/// Calls `crc32fast::hash`. Claimed: the result is the CRC-32 (IEEE) of the
/// bytes handed to it, as `crc32_of` defines it bit by bit; the crate's table
/// and SIMD paths compute that same value.
#[verifier::external_body]
pub(crate) fn crc32(data: &[u8]) -> (r: u32)
    ensures
        r == crc32_of(data@),
{
    crc32fast::hash(data)
}

/// The bytes that the checksum covers: key length, value length, record
/// type, key and value.
pub open spec fn spec_record_body(t: RecordType, key: Seq<u8>, value: Seq<u8>) -> Seq<u8> {
    spec_u32_to_le_bytes(key.len() as u32) + spec_u32_to_le_bytes(value.len() as u32) + seq![
        record_type_byte(t),
    ] + key + value
}

/// A whole record on disk: the checksum of the body, then the body.
pub open spec fn spec_encode_record(t: RecordType, key: Seq<u8>, value: Seq<u8>) -> Seq<u8> {
    let body = spec_record_body(t, key, value);
    spec_u32_to_le_bytes(crc32_of(body)) + body
}

/// The length of the encoded record of `key` and `value`.
pub fn encoded_len(key: &[u8], value: &[u8]) -> (r: usize)
    requires
        key@.len() < u32::MAX,
        value@.len() < u32::MAX,
        HEADER_SIZE + key@.len() + value@.len() <= usize::MAX,
    ensures
        r == HEADER_SIZE + key@.len() + value@.len(),
        r == spec_encode_record(RecordType::Put, key@, value@).len(),
{
    proof {
        lemma_auto_spec_u32_to_from_le_bytes();
    }
    HEADER_SIZE + key.len() + value.len()
}

fn append_slice(out: &mut Vec<u8>, s: &[u8])
    ensures
        final(out)@ == old(out)@ + s@,
{
    let mut i: usize = 0;
    let ghost start = out@;
    while i < s.len()
        invariant
            i <= s.len(),
            out@ == start + s@.take(i as int),
        decreases s.len() - i,
    {
        out.push(s[i]);
        proof {
            assert(s@.take(i + 1) =~= s@.take(i as int).push(s@[i as int]));
        }
        i = i + 1;
    }
    proof {
        assert(s@.take(i as int) =~= s@);
    }
}

/// Appends the encoded record to `buf`.
pub fn serialize(record: &WalRecord, buf: &mut Vec<u8>)
    requires
        record.key@.len() <= u32::MAX,
        record.value@.len() <= u32::MAX,
    ensures
        final(buf)@ == old(buf)@ + spec_encode_record(
            record.record_type,
            record.key@,
            record.value@,
        ),
{
    let mut body = u32_to_le_bytes(record.key.len() as u32);
    let mut vlen = u32_to_le_bytes(record.value.len() as u32);
    body.append(&mut vlen);
    body.push(record.record_type.to_byte());
    append_slice(&mut body, record.key);
    append_slice(&mut body, record.value);
    let crc = crc32(body.as_slice());
    let mut crc_bytes = u32_to_le_bytes(crc);
    proof {
        assert(body@ =~= spec_record_body(record.record_type, record.key@, record.value@));
    }
    let ghost start = buf@;
    buf.append(&mut crc_bytes);
    buf.append(&mut body);
    proof {
        assert(buf@ =~= start + spec_encode_record(record.record_type, record.key@, record.value@));
    }
}

} // verus!
