//! Search blocks: bounded groups of entry records and their paths,
//! carrying two aggregate byte-presence bitmaps over the lower-cased
//! file names for coarse query rejection.

use vstd::bytes::{spec_u32_from_le_bytes, spec_u32_to_le_bytes, u32_from_le_bytes,
    u32_to_le_bytes, lemma_auto_spec_u32_to_from_le_bytes};
use vstd::prelude::*;
use vstd::slice::slice_subrange;

use crate::ascii::{contains_bytes, has_substring, lower_bytes, to_lower};
use crate::bitmap::CharBitmap;
use crate::entry::{FileEntry, ENTRY_BYTES, SIZE_CODE_LIMIT};
use crate::path_codec::{spec_path_file_name, FilePath};
use crate::FormatError;

verus! {

/// Soft capacity of one block, in entries. Enforced by the build
/// pipeline, not by the block itself.
pub const BLOCK_CAPACITY: usize = 10000;

/// Number of bytes a block's encoding occupies before its entries: the
/// two bitmaps and the entry count.
pub const BLOCK_PREFIX_BYTES: usize = 68;

/// A bounded group of entry records plus their paths, with two
/// aggregate bitmaps: every byte seen in a contained (lower-cased) file
/// name, and every first byte of one.
pub struct SearchBlock {
    pub char_bitmap: CharBitmap,
    pub name_starts: CharBitmap,
    pub entries: Vec<FileEntry>,
    pub paths: Vec<FilePath>,
}

impl SearchBlock {
    /// The stored paths, as component lists.
    pub open spec fn spec_paths(self) -> Seq<Seq<Seq<u8>>> {
        Seq::new(self.paths@.len(), |i: int| self.paths@[i]@)
    }

    /// The lower-cased file name of the stored path at `i`.
    pub open spec fn spec_name(self, i: int) -> Seq<u8> {
        lower_bytes(spec_path_file_name(self.spec_paths()[i]))
    }

    /// Every stored entry is safe to decompress.
    pub open spec fn wf_entries(self) -> bool {
        forall|i: int| 0 <= i < self.entries@.len() ==> (#[trigger] self.entries@[i]).wf()
    }

    /// Well-formed: one path per entry, a count that fits its field,
    /// every entry safe to decompress.
    pub open spec fn wf(self) -> bool {
        &&& self.entries@.len() == self.paths@.len()
        &&& self.entries@.len() <= 0xFFFF_FFFF
        &&& forall|i: int| 0 <= i < self.entries@.len() ==> (#[trigger] self.entries@[i]).wf()
    }

    /// The bitmaps cover the contents: every byte of every stored
    /// lower-cased file name is present in `char_bitmap`, and every
    /// first byte in `name_starts`. The bitmaps may over-approximate
    /// (they are never cleared), so they can refute membership but
    /// never confirm it.
    pub open spec fn covers(self) -> bool {
        &&& forall|i: int, k: int|
            0 <= i < self.paths@.len() && 0 <= k < self.spec_name(i).len()
                ==> self.char_bitmap.spec_test(#[trigger] self.spec_name(i)[k])
        &&& forall|i: int|
            0 <= i < self.paths@.len() && #[trigger] self.spec_name(i).len() > 0
                ==> self.name_starts.spec_test(self.spec_name(i)[0])
    }

    /// A fresh, empty block with clear bitmaps.
    pub fn new() -> (r: Self)
        ensures
            r.wf(),
            r.covers(),
            r.entries@.len() == 0,
            r.paths@.len() == 0,
            forall|b: u8| !r.char_bitmap.spec_test(b),
            forall|b: u8| !r.name_starts.spec_test(b),
    {
        SearchBlock {
            char_bitmap: CharBitmap::new(),
            name_starts: CharBitmap::new(),
            entries: Vec::new(),
            paths: Vec::new(),
        }
    }

    /// Adds one entry and its path, folding the lower-cased file name
    /// into both bitmaps. Always accepts: capacity is advisory here and
    /// enforced by the build pipeline. Bits already set stay set.
    pub fn add_entry(&mut self, entry: FileEntry, path: &FilePath) -> (r: bool)
        requires
            old(self).wf(),
            entry.wf(),
            old(self).entries@.len() < 0xFFFF_FFFF,
        ensures
            r == true,
            final(self).wf(),
            final(self).entries@ == old(self).entries@.push(entry),
            final(self).spec_paths() =~= old(self).spec_paths().push(path@),
            forall|b: u8|
                final(self).char_bitmap.spec_test(b) == (old(self).char_bitmap.spec_test(b)
                    || lower_bytes(path.spec_file_name()).contains(b)),
            forall|b: u8|
                final(self).name_starts.spec_test(b) == (old(self).name_starts.spec_test(b) || (
                lower_bytes(path.spec_file_name()).len() > 0 && lower_bytes(
                    path.spec_file_name(),
                )[0] == b)),
            old(self).covers() ==> final(self).covers(),
    {
        let name = path.file_name();
        let lowered = to_lower(name.as_slice());
        self.char_bitmap.set_bytes(lowered.as_slice());
        if lowered.len() > 0 {
            self.name_starts.set(lowered[0]);
        }
        self.entries.push(entry);
        self.paths.push(path.duplicate());
        proof {
            let new_name = lower_bytes(path.spec_file_name());
            assert(final(self).spec_paths() =~= old(self).spec_paths().push(path@));
            assert(self.spec_name(self.paths@.len() - 1) == new_name);
            assert forall|i: int| 0 <= i < old(self).paths@.len() implies self.spec_name(i)
                == old(self).spec_name(i) by {
                assert(self.spec_paths()[i] == old(self).spec_paths()[i]);
            }
            if old(self).covers() {
                assert forall|i: int, k: int|
                    0 <= i < self.paths@.len() && 0 <= k < self.spec_name(i).len()
                        implies self.char_bitmap.spec_test(#[trigger] self.spec_name(i)[k]) by {
                    if i < self.paths@.len() - 1 {
                        assert(old(self).char_bitmap.spec_test(old(self).spec_name(i)[k]));
                    } else {
                        assert(new_name.contains(new_name[k]));
                    }
                }
                assert forall|i: int|
                    0 <= i < self.paths@.len() && #[trigger] self.spec_name(i).len() > 0
                        implies self.name_starts.spec_test(self.spec_name(i)[0]) by {
                    if i < self.paths@.len() - 1 {
                        assert(old(self).name_starts.spec_test(old(self).spec_name(i)[0]));
                    }
                }
            }
        }
        true
    }

    /// Whether the query can match this block: false for the empty
    /// query and when no stored name starts with the query's first
    /// (lower-cased) byte; otherwise a linear scan for the query as a
    /// substring of some stored lower-cased file name. The first-byte
    /// test is the only bitmap pruning applied; it can reject queries
    /// whose match does not start a name, by design.
    pub fn matches(&self, query: &[u8]) -> (r: bool)
        requires
            self.wf(),
        ensures
            r == (query@.len() > 0 && lower_bytes(query@)[0] < 128 && self.name_starts.spec_test(
                lower_bytes(query@)[0],
            ) && exists|i: int|
                0 <= i < self.paths@.len() && has_substring(
                    #[trigger] self.spec_name(i),
                    lower_bytes(query@),
                )),
    {
        let lowered = to_lower(query);
        if lowered.len() == 0 {
            return false;
        }
        if !self.name_starts.get(lowered[0]) {
            return false;
        }
        let n = self.paths.len();
        let mut i: usize = 0;
        while i < n
            invariant
                n == self.paths@.len(),
                i <= n,
                lowered@ == lower_bytes(query@),
                lowered@.len() > 0,
                lowered@[0] < 128,
                self.name_starts.spec_test(lowered@[0]),
                forall|k: int|
                    0 <= k < i ==> !has_substring(#[trigger] self.spec_name(k), lowered@),
            decreases n - i,
        {
            let name = self.paths[i].file_name();
            let lname = to_lower(name.as_slice());
            if contains_bytes(lname.as_slice(), lowered.as_slice()) {
                proof {
                    assert(self.spec_name(i as int) == lname@);
                    assert(exists|k: int|
                        0 <= k < self.paths@.len() && has_substring(
                            #[trigger] self.spec_name(k),
                            lower_bytes(query@),
                        ));
                }
                return true;
            }
            proof {
                assert(self.spec_name(i as int) == lname@);
            }
            i = i + 1;
        }
        false
    }

    /// The encoding of a list of entry records, in order.
    pub open spec fn spec_entries_ser(es: Seq<FileEntry>) -> Seq<u8>
        decreases es.len(),
    {
        if es.len() == 0 {
            Seq::empty()
        } else {
            es[0].spec_ser() + Self::spec_entries_ser(es.subrange(1, es.len() as int))
        }
    }

    /// The raw encoding of a block: both bitmaps, the entry count as a
    /// four-byte little-endian word, then the fixed-size entry records.
    /// Paths are not serialized: they are reconstructed from the shared
    /// path table at load time through each entry's path identifier.
    pub open spec fn spec_ser(self) -> Seq<u8> {
        self.char_bitmap.spec_ser() + self.name_starts.spec_ser() + spec_u32_to_le_bytes(
            self.entries@.len() as u32,
        ) + Self::spec_entries_ser(self.entries@)
    }

    /// The number of bytes the block occupies on disk.
    pub fn size_in_bytes(&self) -> (r: usize)
        requires
            self.wf(),
            BLOCK_PREFIX_BYTES + self.entries@.len() * ENTRY_BYTES <= usize::MAX,
        ensures
            r == self.spec_ser().len(),
    {
        proof {
            self.char_bitmap.lemma_ser_len();
            self.name_starts.lemma_ser_len();
            lemma_auto_spec_u32_to_from_le_bytes();
            Self::lemma_entries_ser_len(self.entries@);
        }
        BLOCK_PREFIX_BYTES + self.entries.len() * ENTRY_BYTES
    }

    /// The encoding of a list of entries is 21 bytes per entry.
    pub proof fn lemma_entries_ser_len(es: Seq<FileEntry>)
        ensures
            Self::spec_entries_ser(es).len() == es.len() * ENTRY_BYTES,
        decreases es.len(),
    {
        if es.len() == 0 {
        } else {
            let tail = es.subrange(1, es.len() as int);
            Self::lemma_entries_ser_len(tail);
            vstd::bytes::lemma_auto_spec_u32_to_from_le_bytes();
            vstd::bytes::lemma_auto_spec_u64_to_from_le_bytes();
            assert(es[0].spec_ser().len() == 21);
            assert(es.len() * 21 == 21 + tail.len() * 21) by (nonlinear_arith)
                requires
                    tail.len() == es.len() - 1,
            ;
        }
    }

    /// Appends the raw encoding to `out`.
    pub fn write_to(&self, out: &mut Vec<u8>)
        requires
            self.wf(),
        ensures
            final(out)@ == old(out)@ + self.spec_ser(),
    {
        self.char_bitmap.write_to(out);
        self.name_starts.write_to(out);
        let mut count_bytes = u32_to_le_bytes(self.entries.len() as u32);
        out.append(&mut count_bytes);
        let ghost prefix = out@;
        let n = self.entries.len();
        let mut i: usize = 0;
        proof {
            assert(self.entries@.subrange(0, n as int) =~= self.entries@);
        }
        while i < n
            invariant
                n == self.entries@.len(),
                i <= n,
                out@ == prefix + Self::spec_entries_ser(self.entries@.subrange(0, i as int)),
                Self::spec_entries_ser(self.entries@) == Self::spec_entries_ser(
                    self.entries@.subrange(0, i as int),
                ) + Self::spec_entries_ser(self.entries@.subrange(i as int, n as int)),
            decreases n - i,
        {
            self.entries[i].write_to(out);
            i = i + 1;
            proof {
                let tail_prev = self.entries@.subrange(i - 1, n as int);
                assert(tail_prev[0] == self.entries@[i - 1]);
                assert(tail_prev.subrange(1, tail_prev.len() as int) =~= self.entries@.subrange(
                    i as int,
                    n as int,
                ));
                assert(Self::spec_entries_ser(tail_prev) == self.entries@[i - 1].spec_ser()
                    + Self::spec_entries_ser(self.entries@.subrange(i as int, n as int)));
                lemma_entries_ser_snoc(self.entries@, i as int);
                assert(out@ =~= prefix + Self::spec_entries_ser(
                    self.entries@.subrange(0, i as int),
                ));
                assert(Self::spec_entries_ser(self.entries@) =~= Self::spec_entries_ser(
                    self.entries@.subrange(0, i as int),
                ) + Self::spec_entries_ser(self.entries@.subrange(i as int, n as int)));
            }
        }
        proof {
            assert(Self::spec_entries_ser(self.entries@.subrange(n as int, n as int)).len()
                == 0);
            assert(out@ =~= old(out)@ + self.spec_ser());
        }
    }

    /// The entry count field of a block encoding starting at `pos`.
    pub open spec fn spec_count_field(data: Seq<u8>, pos: int) -> int {
        spec_u32_from_le_bytes(data.subrange(pos + 64, pos + 68)) as int
    }

    /// Where a block encoding starting at `pos` ends.
    pub open spec fn spec_block_end(data: Seq<u8>, pos: int) -> int {
        pos + BLOCK_PREFIX_BYTES + Self::spec_count_field(data, pos) * ENTRY_BYTES
    }

    /// Whether a block encoding starting at `pos` parses: the prefix
    /// and all declared entries lie within the data, and every entry's
    /// compressed-size field is in the decodable range.
    pub open spec fn spec_block_ok(data: Seq<u8>, pos: int) -> bool {
        &&& pos + BLOCK_PREFIX_BYTES <= data.len()
        &&& Self::spec_block_end(data, pos) <= data.len()
        &&& forall|i: int|
            0 <= i < Self::spec_count_field(data, pos) ==> #[trigger] FileEntry::spec_size_field(
                data,
                pos + BLOCK_PREFIX_BYTES + i * ENTRY_BYTES,
            ) < SIZE_CODE_LIMIT
    }

    /// Whether `b` is the block that the encoding at `pos` describes:
    /// the bitmaps and each entry re-serialize to the corresponding
    /// bytes, and the paths are empty (they are reconstructed from the
    /// path table afterwards).
    pub open spec fn spec_block_matches(data: Seq<u8>, pos: int, b: SearchBlock) -> bool {
        &&& b.char_bitmap.spec_ser() == data.subrange(pos, pos + 32)
        &&& b.name_starts.spec_ser() == data.subrange(pos + 32, pos + 64)
        &&& b.entries@.len() == Self::spec_count_field(data, pos)
        &&& forall|i: int|
            0 <= i < b.entries@.len() ==> (#[trigger] b.entries@[i]).spec_ser() == data.subrange(
                pos + BLOCK_PREFIX_BYTES + i * ENTRY_BYTES,
                pos + BLOCK_PREFIX_BYTES + (i + 1) * ENTRY_BYTES,
            )
        &&& b.paths@.len() == 0
    }

    /// Reads one block from position `pos` of `data`: the two bitmaps,
    /// the entry count, then that many fixed-size entry records. The
    /// paths are left empty, to be reconstructed through the path
    /// table. Fails when the declared structure runs past the end of
    /// the data or an entry's compressed-size field is out of range.
    pub fn read_from(data: &[u8], pos: usize) -> (r: Result<(Self, usize), FormatError>)
        ensures
            match r {
                Ok((b, end)) => {
                    &&& Self::spec_block_ok(data@, pos as int)
                    &&& Self::spec_block_matches(data@, pos as int, b)
                    &&& end == Self::spec_block_end(data@, pos as int)
                    &&& b.wf_entries()
                    &&& b.entries@.len() <= 0xFFFF_FFFF
                },
                Err(e) => {
                    &&& e == FormatError::Truncated
                    &&& !Self::spec_block_ok(data@, pos as int)
                },
            },
    {
        let n = data.len();
        if n < BLOCK_PREFIX_BYTES || pos > n - BLOCK_PREFIX_BYTES {
            return Err(FormatError::Truncated);
        }
        let (char_bitmap, p1) = match CharBitmap::read_from(data, pos) {
            Ok(v) => v,
            Err(e) => {
                return Err(FormatError::Truncated);
            },
        };
        let (name_starts, p2) = match CharBitmap::read_from(data, p1) {
            Ok(v) => v,
            Err(e) => {
                return Err(FormatError::Truncated);
            },
        };
        let count = u32_from_le_bytes(slice_subrange(data, p2, p2 + 4)) as usize;
        proof {
            assert(data@.subrange(p2 as int, p2 + 4) =~= data@.subrange(
                pos + 64,
                pos as int + 68,
            ));
        }
        let room = (n - pos - BLOCK_PREFIX_BYTES) / ENTRY_BYTES;
        if count > room {
            proof {
                lemma_count_over_room(count as int, (n - pos - BLOCK_PREFIX_BYTES) as int);
            }
            return Err(FormatError::Truncated);
        }
        proof {
            lemma_count_within_room(count as int, (n - pos - BLOCK_PREFIX_BYTES) as int);
        }
        let base = pos + BLOCK_PREFIX_BYTES;
        let mut entries: Vec<FileEntry> = Vec::new();
        let mut i: usize = 0;
        while i < count
            invariant
                n == data@.len(),
                base == pos + BLOCK_PREFIX_BYTES,
                base + count * ENTRY_BYTES <= n,
                i <= count,
                count == Self::spec_count_field(data@, pos as int),
                entries@.len() == i,
                forall|k: int|
                    0 <= k < i ==> (#[trigger] entries@[k]).wf() && entries@[k].spec_ser()
                        == data@.subrange(
                        pos + BLOCK_PREFIX_BYTES + k * ENTRY_BYTES,
                        pos + BLOCK_PREFIX_BYTES + (k + 1) * ENTRY_BYTES,
                    ),
                forall|k: int|
                    0 <= k < i ==> #[trigger] FileEntry::spec_size_field(
                        data@,
                        pos + BLOCK_PREFIX_BYTES + k * ENTRY_BYTES,
                    ) < SIZE_CODE_LIMIT,
            decreases count - i,
        {
            proof {
                assert(i * ENTRY_BYTES + ENTRY_BYTES <= count * ENTRY_BYTES) by (nonlinear_arith)
                    requires
                        i < count,
                ;
                assert(i * ENTRY_BYTES >= 0) by (nonlinear_arith)
                    requires
                        i >= 0,
                ;
            }
            let e = match FileEntry::read_from(data, base + i * ENTRY_BYTES) {
                Ok((e, _)) => e,
                Err(_) => {
                    proof {
                        assert(!Self::spec_block_ok(data@, pos as int));
                    }
                    return Err(FormatError::Truncated);
                },
            };
            entries.push(e);
            i = i + 1;
        }
        let b = SearchBlock { char_bitmap, name_starts, entries, paths: Vec::new() };
        proof {
            assert(Self::spec_block_ok(data@, pos as int));
            assert(Self::spec_block_matches(data@, pos as int, b));
        }
        Ok((b, base + count * ENTRY_BYTES))
    }

    /// Whether `count` consecutive block encodings parse, starting at
    /// `pos`.
    pub open spec fn spec_blocks_ok(data: Seq<u8>, pos: int, k: nat) -> bool
        decreases k,
    {
        k == 0 || (Self::spec_block_ok(data, pos) && Self::spec_blocks_ok(
            data,
            Self::spec_block_end(data, pos),
            (k - 1) as nat,
        ))
    }

    /// Where `k` consecutive block encodings end, starting at `pos`.
    pub open spec fn spec_blocks_end(data: Seq<u8>, pos: int, k: nat) -> int
        decreases k,
    {
        if k == 0 {
            pos
        } else {
            Self::spec_blocks_end(data, Self::spec_block_end(data, pos), (k - 1) as nat)
        }
    }

    /// Whether `blocks` are the blocks that the consecutive encodings
    /// starting at `pos` describe, in order.
    pub open spec fn spec_blocks_match(data: Seq<u8>, pos: int, blocks: Seq<SearchBlock>) -> bool
        decreases blocks.len(),
    {
        if blocks.len() == 0 {
            true
        } else {
            Self::spec_block_matches(data, pos, blocks[0]) && Self::spec_blocks_match(
                data,
                Self::spec_block_end(data, pos),
                blocks.subrange(1, blocks.len() as int),
            )
        }
    }

    /// Reads `count` consecutive block encodings from position `pos`;
    /// fails exactly when one of them does not parse.
    pub fn read_multiple(data: &[u8], pos: usize, count: u32) -> (r: Result<
        (Vec<Self>, usize),
        FormatError,
    >)
        ensures
            match r {
                Ok((blocks, end)) => {
                    &&& Self::spec_blocks_ok(data@, pos as int, count as nat)
                    &&& blocks@.len() == count
                    &&& Self::spec_blocks_match(data@, pos as int, blocks@)
                    &&& end == Self::spec_blocks_end(data@, pos as int, count as nat)
                    &&& forall|i: int|
                        0 <= i < count ==> (#[trigger] blocks@[i]).wf_entries() && blocks@[i].entries@.len()
                            <= 0xFFFF_FFFF
                },
                Err(e) => {
                    &&& e == FormatError::Truncated
                    &&& !Self::spec_blocks_ok(data@, pos as int, count as nat)
                },
            },
    {
        let mut blocks: Vec<SearchBlock> = Vec::new();
        let mut cursor: usize = pos;
        let mut k: u32 = 0;
        while k < count
            invariant
                k <= count,
                blocks@.len() == k,
                forall|i: int|
                    0 <= i < k ==> (#[trigger] blocks@[i]).wf_entries() && blocks@[i].entries@.len()
                        <= 0xFFFF_FFFF,
                Self::spec_blocks_ok(data@, pos as int, count as nat) == Self::spec_blocks_ok(
                    data@,
                    cursor as int,
                    (count - k) as nat,
                ),
                Self::spec_blocks_ok(data@, cursor as int, (count - k) as nat)
                    ==> Self::spec_blocks_end(data@, pos as int, count as nat)
                    == Self::spec_blocks_end(data@, cursor as int, (count - k) as nat),
                forall|rest: Seq<SearchBlock>|
                    #[trigger] Self::spec_blocks_match(data@, cursor as int, rest)
                        ==> Self::spec_blocks_match(data@, pos as int, blocks@ + rest),
            decreases count - k,
        {
            let ghost left = (count - k) as nat;
            let ghost cursor_prev = cursor as int;
            let (b, next) = match SearchBlock::read_from(data, cursor) {
                Ok(v) => v,
                Err(_) => {
                    proof {
                        assert(!Self::spec_blocks_ok(data@, cursor as int, left));
                    }
                    return Err(FormatError::Truncated);
                },
            };
            let ghost blocks_prev = blocks@;
            blocks.push(b);
            cursor = next;
            k = k + 1;
            proof {
                assert(blocks@ =~= blocks_prev.push(b));
                assert(Self::spec_blocks_ok(data@, cursor_prev, left) == Self::spec_blocks_ok(
                    data@,
                    cursor as int,
                    (count - k) as nat,
                ));
                assert forall|rest: Seq<SearchBlock>|
                    #[trigger] Self::spec_blocks_match(data@, cursor as int, rest)
                        implies Self::spec_blocks_match(data@, pos as int, blocks@ + rest) by {
                    let with_b = seq![b] + rest;
                    assert(with_b[0] == b);
                    assert(with_b.subrange(1, with_b.len() as int) =~= rest);
                    assert(Self::spec_blocks_match(data@, cursor_prev, with_b));
                    assert(blocks_prev + with_b =~= blocks@ + rest);
                }
            }
        }
        proof {
            assert(Self::spec_blocks_ok(data@, cursor as int, 0));
            assert(Self::spec_blocks_match(data@, cursor as int, Seq::<SearchBlock>::empty()));
            assert(blocks@ + Seq::<SearchBlock>::empty() =~= blocks@);
        }
        Ok((blocks, cursor))
    }
}

/// When the declared entry count exceeds the room left in the data, the
/// declared structure runs past the end.
proof fn lemma_count_over_room(count: int, room_bytes: int)
    requires
        room_bytes >= 0,
        count > room_bytes / 21,
    ensures
        count * 21 > room_bytes,
{
    vstd::arithmetic::div_mod::lemma_fundamental_div_mod(room_bytes, 21);
    assert(count * 21 >= (room_bytes / 21) * 21 + 21) by (nonlinear_arith)
        requires
            count >= room_bytes / 21 + 1,
    ;
    assert(21 * (room_bytes / 21) == (room_bytes / 21) * 21) by (nonlinear_arith);
}

/// When the declared entry count fits the room left in the data, the
/// declared structure lies within it.
proof fn lemma_count_within_room(count: int, room_bytes: int)
    requires
        room_bytes >= 0,
        0 <= count <= room_bytes / 21,
    ensures
        count * 21 <= room_bytes,
{
    vstd::arithmetic::div_mod::lemma_fundamental_div_mod(room_bytes, 21);
    assert(count * 21 <= (room_bytes / 21) * 21) by (nonlinear_arith)
        requires
            count <= room_bytes / 21,
    ;
    assert(21 * (room_bytes / 21) == (room_bytes / 21) * 21) by (nonlinear_arith);
}

/// The 21-byte segment at index `j` of an entry-list encoding is the
/// encoding of the `j`-th entry.
proof fn lemma_entries_ser_segment(es: Seq<FileEntry>, j: int)
    requires
        0 <= j < es.len(),
    ensures
        forall|t: int|
            0 <= t < ENTRY_BYTES ==> SearchBlock::spec_entries_ser(es)[j * ENTRY_BYTES + t]
                == es[j].spec_ser()[t],
    decreases j,
{
    lemma_auto_spec_u32_to_from_le_bytes();
    vstd::bytes::lemma_auto_spec_u64_to_from_le_bytes();
    let tail = es.subrange(1, es.len() as int);
    assert(es[0].spec_ser().len() == ENTRY_BYTES);
    if j == 0 {
        assert forall|t: int|
            0 <= t < ENTRY_BYTES implies SearchBlock::spec_entries_ser(es)[0 * ENTRY_BYTES + t]
            == es[0].spec_ser()[t] by {
            assert(SearchBlock::spec_entries_ser(es)[t] == es[0].spec_ser()[t]);
        }
    } else {
        lemma_entries_ser_segment(tail, j - 1);
        assert forall|t: int|
            0 <= t < ENTRY_BYTES implies SearchBlock::spec_entries_ser(es)[j * ENTRY_BYTES + t]
            == es[j].spec_ser()[t] by {
            SearchBlock::lemma_entries_ser_len(tail);
            assert((j - 1) * ENTRY_BYTES + t < tail.len() * ENTRY_BYTES) by (nonlinear_arith)
                requires
                    0 <= t < ENTRY_BYTES,
                    j - 1 < tail.len(),
            ;
            assert(SearchBlock::spec_entries_ser(es)[j * ENTRY_BYTES + t]
                == SearchBlock::spec_entries_ser(tail)[(j - 1) * ENTRY_BYTES + t]);
            assert(SearchBlock::spec_entries_ser(tail)[(j - 1) * ENTRY_BYTES + t] == tail[j
                - 1].spec_ser()[t]);
            assert(tail[j - 1] == es[j]);
        }
    }
}

impl SearchBlock {
    /// Whether the encoding at `pos` carries exactly this block's
    /// bitmaps, entry count and entry records (whatever paths either
    /// side holds).
    pub open spec fn spec_block_content_matches(data: Seq<u8>, pos: int, b: SearchBlock) -> bool {
        &&& b.char_bitmap.spec_ser() == data.subrange(pos, pos + 32)
        &&& b.name_starts.spec_ser() == data.subrange(pos + 32, pos + 64)
        &&& b.entries@.len() == Self::spec_count_field(data, pos)
        &&& forall|i: int|
            0 <= i < b.entries@.len() ==> (#[trigger] b.entries@[i]).spec_ser() == data.subrange(
                pos + BLOCK_PREFIX_BYTES + i * ENTRY_BYTES,
                pos + BLOCK_PREFIX_BYTES + (i + 1) * ENTRY_BYTES,
            )
    }

    /// A written block encoding parses, ends where the encoding ends,
    /// and describes the block it was written from.
    pub proof fn lemma_ser_parses(b: SearchBlock, data: Seq<u8>, pos: int)
        requires
            b.wf(),
            0 <= pos,
            pos + b.spec_ser().len() <= data.len(),
            data.subrange(pos, pos + b.spec_ser().len()) == b.spec_ser(),
        ensures
            Self::spec_block_ok(data, pos),
            Self::spec_block_end(data, pos) == pos + b.spec_ser().len(),
            Self::spec_block_content_matches(data, pos, b),
    {
        lemma_auto_spec_u32_to_from_le_bytes();
        vstd::bytes::lemma_auto_spec_u64_to_from_le_bytes();
        let ser = b.spec_ser();
        let es = b.entries@;
        let n = es.len() as int;
        b.char_bitmap.lemma_ser_len();
        b.name_starts.lemma_ser_len();
        Self::lemma_entries_ser_len(es);
        assert(ser.len() == BLOCK_PREFIX_BYTES + n * ENTRY_BYTES);
        assert forall|x: int| 0 <= x < ser.len() implies data[pos + x] == ser[x] by {
            assert(data.subrange(pos, pos + ser.len())[x] == data[pos + x]);
        }
        assert forall|t: int| 0 <= t < 32 implies data.subrange(pos, pos + 32)[t]
            == b.char_bitmap.spec_ser()[t] by {
            assert(data[pos + t] == ser[t]);
        }
        assert(data.subrange(pos, pos + 32) =~= b.char_bitmap.spec_ser());
        assert forall|t: int| 0 <= t < 32 implies data.subrange(pos + 32, pos + 64)[t]
            == b.name_starts.spec_ser()[t] by {
            assert(data[pos + 32 + t] == ser[32 + t]);
        }
        assert(data.subrange(pos + 32, pos + 64) =~= b.name_starts.spec_ser());
        assert forall|t: int| 0 <= t < 4 implies #[trigger] data.subrange(pos + 64, pos + 68)[t]
            == spec_u32_to_le_bytes(n as u32)[t] by {
            assert(data[pos + 64 + t] == ser[64 + t]);
        }
        assert(data.subrange(pos + 64, pos + 68) =~= spec_u32_to_le_bytes(n as u32));
        assert(Self::spec_count_field(data, pos) == n);
        assert forall|j: int|
            0 <= j < n implies (#[trigger] es[j]).spec_ser() == data.subrange(
            pos + BLOCK_PREFIX_BYTES + j * ENTRY_BYTES,
            pos + BLOCK_PREFIX_BYTES + (j + 1) * ENTRY_BYTES,
        ) by {
            lemma_entries_ser_segment(es, j);
            assert(j * ENTRY_BYTES >= 0) by (nonlinear_arith)
                requires
                    j >= 0,
            ;
            assert((j + 1) * ENTRY_BYTES <= n * ENTRY_BYTES) by (nonlinear_arith)
                requires
                    j + 1 <= n,
            ;
            assert(es[j].spec_ser().len() == ENTRY_BYTES);
            assert forall|t: int|
                0 <= t < ENTRY_BYTES implies data.subrange(
                pos + BLOCK_PREFIX_BYTES + j * ENTRY_BYTES,
                pos + BLOCK_PREFIX_BYTES + (j + 1) * ENTRY_BYTES,
            )[t] == es[j].spec_ser()[t] by {
                assert(data[pos + BLOCK_PREFIX_BYTES + j * ENTRY_BYTES + t] == ser[
                    BLOCK_PREFIX_BYTES + j * ENTRY_BYTES + t]);
                assert(ser[BLOCK_PREFIX_BYTES + j * ENTRY_BYTES + t]
                    == SearchBlock::spec_entries_ser(es)[j * ENTRY_BYTES + t]);
            }
            assert(data.subrange(
                pos + BLOCK_PREFIX_BYTES + j * ENTRY_BYTES,
                pos + BLOCK_PREFIX_BYTES + (j + 1) * ENTRY_BYTES,
            ) =~= es[j].spec_ser());
        }
        assert forall|j: int|
            0 <= j < Self::spec_count_field(data, pos) implies #[trigger] FileEntry::spec_size_field(
            data,
            pos + BLOCK_PREFIX_BYTES + j * ENTRY_BYTES,
        ) < SIZE_CODE_LIMIT by {
            let base = pos + BLOCK_PREFIX_BYTES + j * ENTRY_BYTES;
            assert(es[j].spec_ser() == data.subrange(base, base + ENTRY_BYTES));
            assert forall|t: int| 0 <= t < 4 implies data.subrange(base + 13, base + 17)[t]
                == spec_u32_to_le_bytes(es[j].size)[t] by {
                assert(data.subrange(base, base + ENTRY_BYTES)[13 + t] == data[base + 13 + t]);
                assert(es[j].spec_ser()[13 + t] == spec_u32_to_le_bytes(es[j].size)[t]);
            }
            assert(data.subrange(base + 13, base + 17) =~= spec_u32_to_le_bytes(es[j].size));
            assert(FileEntry::spec_size_field(data, base) == es[j].size);
            assert(es[j].wf());
        }
        assert(Self::spec_block_end(data, pos) == pos + ser.len());
        assert(Self::spec_block_ok(data, pos));
    }

    /// Any block that an encoding describes carries the bitmaps and
    /// entries of the block the encoding was written from.
    pub proof fn lemma_match_unique(data: Seq<u8>, pos: int, raw: SearchBlock, b: SearchBlock)
        requires
            Self::spec_block_matches(data, pos, raw),
            Self::spec_block_content_matches(data, pos, b),
        ensures
            raw.char_bitmap == b.char_bitmap,
            raw.name_starts == b.name_starts,
            raw.entries@ == b.entries@,
    {
        CharBitmap::lemma_ser_injective(raw.char_bitmap, b.char_bitmap);
        CharBitmap::lemma_ser_injective(raw.name_starts, b.name_starts);
        assert forall|j: int| 0 <= j < raw.entries@.len() implies raw.entries@[j]
            == b.entries@[j] by {
            assert(raw.entries@[j].spec_ser() == b.entries@[j].spec_ser());
            FileEntry::lemma_ser_injective(raw.entries@[j], b.entries@[j]);
        }
        assert(raw.entries@ =~= b.entries@);
    }

    /// Whether consecutive encodings at `pos` carry exactly the
    /// bitmaps, counts and entries of `blocks`, in order.
    pub open spec fn spec_blocks_content_match(
        data: Seq<u8>,
        pos: int,
        blocks: Seq<SearchBlock>,
    ) -> bool
        decreases blocks.len(),
    {
        blocks.len() == 0 || (Self::spec_block_content_matches(data, pos, blocks[0])
            && Self::spec_blocks_content_match(
            data,
            Self::spec_block_end(data, pos),
            blocks.subrange(1, blocks.len() as int),
        ))
    }

    /// Any block list that consecutive encodings describe carries the
    /// bitmaps and entries of the blocks the encodings were written
    /// from.
    pub proof fn lemma_blocks_match_unique(
        data: Seq<u8>,
        pos: int,
        raw: Seq<SearchBlock>,
        blocks: Seq<SearchBlock>,
    )
        requires
            Self::spec_blocks_match(data, pos, raw),
            Self::spec_blocks_content_match(data, pos, blocks),
            raw.len() == blocks.len(),
        ensures
            forall|i: int|
                0 <= i < raw.len() ==> (#[trigger] raw[i]).char_bitmap == blocks[i].char_bitmap
                    && raw[i].name_starts == blocks[i].name_starts && raw[i].entries@
                    == blocks[i].entries@,
        decreases raw.len(),
    {
        if raw.len() > 0 {
            Self::lemma_match_unique(data, pos, raw[0], blocks[0]);
            Self::lemma_blocks_match_unique(
                data,
                Self::spec_block_end(data, pos),
                raw.subrange(1, raw.len() as int),
                blocks.subrange(1, blocks.len() as int),
            );
            assert forall|i: int|
                0 <= i < raw.len() implies (#[trigger] raw[i]).char_bitmap
                == blocks[i].char_bitmap && raw[i].name_starts == blocks[i].name_starts
                && raw[i].entries@ == blocks[i].entries@ by {
                if i > 0 {
                    assert(raw.subrange(1, raw.len() as int)[i - 1] == raw[i]);
                    assert(blocks.subrange(1, blocks.len() as int)[i - 1] == blocks[i]);
                }
            }
        }
    }
}

/// Appending one entry to a prefix moves one record of the encoding
/// from the tail to the prefix.
proof fn lemma_entries_ser_snoc(es: Seq<FileEntry>, i: int)
    requires
        1 <= i <= es.len(),
    ensures
        SearchBlock::spec_entries_ser(es.subrange(0, i)) == SearchBlock::spec_entries_ser(
            es.subrange(0, i - 1),
        ) + es[i - 1].spec_ser(),
    decreases i,
{
    if i == 1 {
        let one = es.subrange(0, 1);
        assert(one[0] == es[0]);
        assert(one.subrange(1, 1).len() == 0);
        assert(SearchBlock::spec_entries_ser(one.subrange(1, 1)) == Seq::<u8>::empty());
        assert(SearchBlock::spec_entries_ser(es.subrange(0, 0)) == Seq::<u8>::empty());
        assert(SearchBlock::spec_entries_ser(one) =~= SearchBlock::spec_entries_ser(
            es.subrange(0, 0),
        ) + es[0].spec_ser());
    } else {
        let pre = es.subrange(0, i);
        let pre1 = es.subrange(0, i - 1);
        assert(pre[0] == es[0] && pre1[0] == es[0]);
        let t = es.subrange(1, es.len() as int);
        assert(pre.subrange(1, pre.len() as int) =~= t.subrange(0, i - 1));
        assert(pre1.subrange(1, pre1.len() as int) =~= t.subrange(0, i - 2));
        assert(SearchBlock::spec_entries_ser(pre) == es[0].spec_ser()
            + SearchBlock::spec_entries_ser(t.subrange(0, i - 1)));
        assert(SearchBlock::spec_entries_ser(pre1) == es[0].spec_ser()
            + SearchBlock::spec_entries_ser(t.subrange(0, i - 2)));
        lemma_entries_ser_snoc(t, i - 1);
        assert(t[i - 2] == es[i - 1]);
        assert(SearchBlock::spec_entries_ser(pre) =~= SearchBlock::spec_entries_ser(pre1) + es[i
            - 1].spec_ser());
    }
}

} // verus!
