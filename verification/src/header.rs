//! The fixed header of an index file: a magic value, the format
//! version, the object counts, and the byte offsets of the block table
//! and the path table.

use vstd::bytes::{spec_u32_to_le_bytes, spec_u64_to_le_bytes, u32_from_le_bytes, u32_to_le_bytes,
    u64_from_le_bytes, u64_to_le_bytes, lemma_auto_spec_u32_to_from_le_bytes,
    lemma_auto_spec_u64_to_from_le_bytes};
use vstd::prelude::*;
use vstd::slice::slice_subrange;

use crate::FormatError;

verus! {

/// Number of bytes in the raw encoding of a header.
pub const HEADER_BYTES: usize = 36;

/// The four magic bytes an index file starts with: "EFU" and a zero.
pub const MAGIC_0: u8 = 0x45;

pub const MAGIC_1: u8 = 0x46;

pub const MAGIC_2: u8 = 0x55;

pub const MAGIC_3: u8 = 0x00;

/// The format version this library writes.
pub const FORMAT_VERSION: u32 = 1;

/// The fixed header of an index file.
#[derive(Clone, Copy)]
pub struct IndexHeader {
    pub version: u32,
    pub block_count: u32,
    pub entry_count: u64,
    pub path_table_offset: u64,
    pub block_table_offset: u64,
}

impl IndexHeader {
    /// The raw 36-byte encoding: the magic bytes, then each field
    /// little-endian, in order.
    pub open spec fn spec_ser(self) -> Seq<u8> {
        seq![MAGIC_0, MAGIC_1, MAGIC_2, MAGIC_3] + spec_u32_to_le_bytes(self.version)
            + spec_u32_to_le_bytes(self.block_count) + spec_u64_to_le_bytes(self.entry_count)
            + spec_u64_to_le_bytes(self.path_table_offset) + spec_u64_to_le_bytes(
            self.block_table_offset,
        )
    }

    /// A fresh header: current version, no blocks, no entries, offsets
    /// not yet assigned.
    pub fn new() -> (r: Self)
        ensures
            r.version == FORMAT_VERSION,
            r.block_count == 0,
            r.entry_count == 0,
            r.path_table_offset == 0,
            r.block_table_offset == 0,
    {
        IndexHeader {
            version: FORMAT_VERSION,
            block_count: 0,
            entry_count: 0,
            path_table_offset: 0,
            block_table_offset: 0,
        }
    }

    /// Appends the raw 36-byte encoding to `out`.
    pub fn write_to(&self, out: &mut Vec<u8>)
        ensures
            final(out)@ == old(out)@ + self.spec_ser(),
    {
        out.push(MAGIC_0);
        out.push(MAGIC_1);
        out.push(MAGIC_2);
        out.push(MAGIC_3);
        let mut piece = u32_to_le_bytes(self.version);
        out.append(&mut piece);
        let mut piece = u32_to_le_bytes(self.block_count);
        out.append(&mut piece);
        let mut piece = u64_to_le_bytes(self.entry_count);
        out.append(&mut piece);
        let mut piece = u64_to_le_bytes(self.path_table_offset);
        out.append(&mut piece);
        let mut piece = u64_to_le_bytes(self.block_table_offset);
        out.append(&mut piece);
        proof {
            lemma_auto_spec_u32_to_from_le_bytes();
            lemma_auto_spec_u64_to_from_le_bytes();
            assert(out@ =~= old(out)@ + self.spec_ser());
        }
    }

    /// Whether the first four bytes at `pos` are the expected magic
    /// value.
    pub open spec fn spec_magic_ok(data: Seq<u8>, pos: int) -> bool {
        &&& data[pos] == MAGIC_0
        &&& data[pos + 1] == MAGIC_1
        &&& data[pos + 2] == MAGIC_2
        &&& data[pos + 3] == MAGIC_3
    }

    /// Reads a header from the start of `data`. Fails with `Truncated`
    /// when fewer than 36 bytes are present, and with `BadMagic` when
    /// the stream does not start with the magic value.
    pub fn read_from(data: &[u8]) -> (r: Result<Self, FormatError>)
        ensures
            match r {
                Ok(h) => {
                    &&& HEADER_BYTES <= data@.len()
                    &&& Self::spec_magic_ok(data@, 0)
                    &&& h.spec_ser() == data@.subrange(0, HEADER_BYTES as int)
                },
                Err(e) => {
                    &&& (e == FormatError::Truncated || e == FormatError::BadMagic)
                    &&& (e == FormatError::Truncated <==> data@.len() < HEADER_BYTES)
                    &&& data@.len() >= HEADER_BYTES ==> !Self::spec_magic_ok(data@, 0)
                },
            },
    {
        if data.len() < HEADER_BYTES {
            return Err(FormatError::Truncated);
        }
        if data[0] != MAGIC_0 || data[1] != MAGIC_1 || data[2] != MAGIC_2 || data[3] != MAGIC_3 {
            return Err(FormatError::BadMagic);
        }
        let version = u32_from_le_bytes(slice_subrange(data, 4, 8));
        let block_count = u32_from_le_bytes(slice_subrange(data, 8, 12));
        let entry_count = u64_from_le_bytes(slice_subrange(data, 12, 20));
        let path_table_offset = u64_from_le_bytes(slice_subrange(data, 20, 28));
        let block_table_offset = u64_from_le_bytes(slice_subrange(data, 28, 36));
        let h = IndexHeader {
            version,
            block_count,
            entry_count,
            path_table_offset,
            block_table_offset,
        };
        proof {
            lemma_auto_spec_u32_to_from_le_bytes();
            lemma_auto_spec_u64_to_from_le_bytes();
            assert(h.spec_ser() =~= data@.subrange(0, HEADER_BYTES as int));
        }
        Ok(h)
    }

    /// Headers with equal encodings are equal.
    pub proof fn lemma_ser_injective(a: IndexHeader, b: IndexHeader)
        requires
            a.spec_ser() == b.spec_ser(),
        ensures
            a == b,
    {
        lemma_auto_spec_u32_to_from_le_bytes();
        lemma_auto_spec_u64_to_from_le_bytes();
        assert(a.spec_ser().subrange(4, 8) =~= spec_u32_to_le_bytes(a.version));
        assert(b.spec_ser().subrange(4, 8) =~= spec_u32_to_le_bytes(b.version));
        assert(a.spec_ser().subrange(8, 12) =~= spec_u32_to_le_bytes(a.block_count));
        assert(b.spec_ser().subrange(8, 12) =~= spec_u32_to_le_bytes(b.block_count));
        assert(a.spec_ser().subrange(12, 20) =~= spec_u64_to_le_bytes(a.entry_count));
        assert(b.spec_ser().subrange(12, 20) =~= spec_u64_to_le_bytes(b.entry_count));
        assert(a.spec_ser().subrange(20, 28) =~= spec_u64_to_le_bytes(a.path_table_offset));
        assert(b.spec_ser().subrange(20, 28) =~= spec_u64_to_le_bytes(b.path_table_offset));
        assert(a.spec_ser().subrange(28, 36) =~= spec_u64_to_le_bytes(a.block_table_offset));
        assert(b.spec_ser().subrange(28, 36) =~= spec_u64_to_le_bytes(b.block_table_offset));
    }
}

} // verus!
