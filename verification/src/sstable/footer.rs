use vstd::prelude::*;
use vstd::bytes::*;
use vstd::slice::*;
use crate::error::IoError;

verus! {

/// The magic number that ends every SSTable.
pub const SSTABLE_MAGIC: u64 = 0x53535441424C4B31;

/// The footer's size in bytes.
pub const FOOTER_SIZE: usize = 32;

/// The trailer of an SSTable: where its index and Bloom filter start.
#[derive(Debug, Clone, Copy, PartialEq, Eq, Structural)]
pub struct Footer {
    pub index_offset: u64,
    pub bloom_offset: u64,
    pub version: u8,
}

/// The footer's 32 bytes: both offsets, the version, seven zero bytes and
/// the magic number, integers little-endian.
pub open spec fn spec_footer_bytes(f: Footer) -> Seq<u8> {
    spec_u64_to_le_bytes(f.index_offset) + spec_u64_to_le_bytes(f.bloom_offset) + seq![f.version]
        + Seq::new(7, |i: int| 0u8) + spec_u64_to_le_bytes(SSTABLE_MAGIC)
}

/// What reading a footer from `b` gives.
pub open spec fn spec_read_footer(b: Seq<u8>) -> Result<Footer, IoError> {
    if b.len() != FOOTER_SIZE {
        Err(IoError::InvalidFooterSize)
    } else if spec_u64_from_le_bytes(b.subrange(24, 32)) != SSTABLE_MAGIC {
        Err(IoError::InvalidMagic)
    } else {
        Ok(
            Footer {
                index_offset: spec_u64_from_le_bytes(b.subrange(0, 8)),
                bloom_offset: spec_u64_from_le_bytes(b.subrange(8, 16)),
                version: b[16],
            },
        )
    }
}

/// A footer reads back as the footer that was written.
pub proof fn law_footer_round_trip(f: Footer)
    ensures
        spec_footer_bytes(f).len() == FOOTER_SIZE,
        spec_read_footer(spec_footer_bytes(f)) == Ok::<Footer, IoError>(f),
{
    lemma_auto_spec_u64_to_from_le_bytes();
    let b = spec_footer_bytes(f);
    assert(b.subrange(0, 8) =~= spec_u64_to_le_bytes(f.index_offset));
    assert(b.subrange(8, 16) =~= spec_u64_to_le_bytes(f.bloom_offset));
    assert(b.subrange(24, 32) =~= spec_u64_to_le_bytes(SSTABLE_MAGIC));
}

impl Footer {
    /// Appends the footer's bytes to `out`.
    pub fn write_to(&self, out: &mut Vec<u8>)
        ensures
            final(out)@ == old(out)@ + spec_footer_bytes(*self),
    {
        let ghost start = out@;
        let mut a = u64_to_le_bytes(self.index_offset);
        let mut b = u64_to_le_bytes(self.bloom_offset);
        let mut m = u64_to_le_bytes(SSTABLE_MAGIC);
        out.append(&mut a);
        out.append(&mut b);
        out.push(self.version);
        let mut i: usize = 0;
        while i < 7
            invariant
                i <= 7,
                out@ == start + spec_u64_to_le_bytes(self.index_offset) + spec_u64_to_le_bytes(
                    self.bloom_offset,
                ) + seq![self.version] + Seq::new(i as nat, |j: int| 0u8),
            decreases 7 - i,
        {
            out.push(0);
            proof {
                assert(Seq::new((i + 1) as nat, |j: int| 0u8) =~= Seq::new(i as nat, |j: int| 0u8).push(
                    0u8,
                ));
            }
            i = i + 1;
        }
        out.append(&mut m);
        proof {
            assert(out@ =~= start + spec_footer_bytes(*self));
        }
    }

    /// Reads a footer; fails unless `bytes` is exactly 32 bytes long and
    /// ends with the magic number.
    pub fn read_from(bytes: &[u8]) -> (r: Result<Footer, IoError>)
        ensures
            r == spec_read_footer(bytes@),
    {
        if bytes.len() != FOOTER_SIZE {
            return Err(IoError::InvalidFooterSize);
        }
        let index_offset = u64_from_le_bytes(slice_subrange(bytes, 0, 8));
        let bloom_offset = u64_from_le_bytes(slice_subrange(bytes, 8, 16));
        let version = bytes[16];
        let magic = u64_from_le_bytes(slice_subrange(bytes, 24, 32));
        if magic != SSTABLE_MAGIC {
            return Err(IoError::InvalidMagic);
        }
        Ok(Footer { index_offset, bloom_offset, version })
    }
}

} // verus!
