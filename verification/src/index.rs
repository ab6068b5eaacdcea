//! The index container: a header, an ordered list of search blocks and
//! the shared path table. Owns the binary file format. In memory the
//! header's counts and offsets stay zero; they are computed when the
//! index is serialized and taken from the file when one is loaded.

use vstd::bytes::{spec_u32_from_le_bytes, spec_u32_to_le_bytes, spec_u64_from_le_bytes,
    spec_u64_to_le_bytes};
use vstd::prelude::*;
use vstd::utf8::valid_utf8;

use crate::block::SearchBlock;
use crate::entry::FileEntry;
use crate::header::{IndexHeader, FORMAT_VERSION, HEADER_BYTES};
use crate::path_codec::{spec_compress_path, FilePath, MAX_COMPONENT_BYTES};
use crate::path_table::{spec_add, spec_add_id, PathTable};
use crate::FormatError;

verus! {

/// The table that a run of get-or-inserts leaves behind: the first `k`
/// of `paths`, inserted in order into `s`.
pub open spec fn spec_table_after(
    s: Seq<Seq<Seq<u8>>>,
    paths: Seq<Seq<Seq<u8>>>,
    k: int,
) -> Seq<Seq<Seq<u8>>>
    decreases k,
{
    if k <= 0 {
        s
    } else {
        spec_add(spec_table_after(s, paths, k - 1), paths[k - 1])
    }
}

/// The identifier that the `k`-th of `paths` receives when they are
/// inserted in order into `s`.
pub open spec fn spec_id_at(s: Seq<Seq<Seq<u8>>>, paths: Seq<Seq<Seq<u8>>>, k: int) -> int {
    spec_add_id(spec_table_after(s, paths, k), paths[k])
}

/// Whether an entry of a loaded block resolves in a table of `n` paths.
pub open spec fn spec_resolvable(n: int) -> spec_fn(FileEntry) -> bool {
    |e: FileEntry| e.path_id < n
}

/// The aggregate of the index: header, blocks, shared path table.
pub struct EverythingIndex {
    pub header: IndexHeader,
    pub blocks: Vec<SearchBlock>,
    pub path_table: PathTable,
}

impl EverythingIndex {
    /// Well-formed: the table holds no duplicates, every block is well
    /// formed, and every entry's path identifier resolves in the table
    /// to the path stored beside the entry.
    pub open spec fn wf(self) -> bool {
        &&& self.path_table.wf()
        &&& self.blocks@.len() <= 0xFFFF_FFFF
        &&& forall|i: int| 0 <= i < self.blocks@.len() ==> (#[trigger] self.blocks@[i]).wf()
        &&& forall|i: int, j: int|
            0 <= i < self.blocks@.len() && 0 <= j < self.blocks@[i].entries@.len() ==> {
                &&& (#[trigger] self.blocks@[i].entries@[j]).path_id < self.path_table@.len()
                &&& self.blocks@[i].spec_paths()[j] == self.path_table@[self.blocks@[i].entries@[j].path_id as int]
            }
    }

    /// A fresh, empty index.
    pub fn new() -> (r: Self)
        ensures
            r.wf(),
            r.blocks@.len() == 0,
            r.path_table@.len() == 0,
            r.header.version == FORMAT_VERSION,
    {
        EverythingIndex {
            header: IndexHeader::new(),
            blocks: Vec::new(),
            path_table: PathTable::new(),
        }
    }

    /// Total number of entries over all blocks.
    pub open spec fn spec_entry_count(blocks: Seq<SearchBlock>) -> int
        decreases blocks.len(),
    {
        if blocks.len() == 0 {
            0
        } else {
            Self::spec_entry_count(blocks.drop_last()) + blocks.last().entries@.len()
        }
    }

    /// Total number of entries over all blocks.
    pub fn entry_count(&self) -> (r: u64)
        requires
            self.wf(),
        ensures
            r == Self::spec_entry_count(self.blocks@),
    {
        let n = self.blocks.len();
        let mut total: u64 = 0;
        let mut i: usize = 0;
        proof {
            assert(self.blocks@.subrange(0, 0).len() == 0);
        }
        while i < n
            invariant
                n == self.blocks@.len() <= 0xFFFF_FFFF,
                i <= n,
                forall|k: int| 0 <= k < n ==> (#[trigger] self.blocks@[k]).wf(),
                total == Self::spec_entry_count(self.blocks@.subrange(0, i as int)),
                total <= i * 0xFFFF_FFFF,
            decreases n - i,
        {
            proof {
                assert(i * 0xFFFF_FFFF + 0xFFFF_FFFF <= n * 0xFFFF_FFFF) by (nonlinear_arith)
                    requires
                        i < n,
                ;
                assert(n * 0xFFFF_FFFF <= 0xFFFF_FFFF * 0xFFFF_FFFF) by (nonlinear_arith)
                    requires
                        n <= 0xFFFF_FFFF,
                ;
            }
            total = total + self.blocks[i].entries.len() as u64;
            i = i + 1;
            proof {
                let cur = self.blocks@.subrange(0, i as int);
                assert(cur.drop_last() =~= self.blocks@.subrange(0, i - 1));
                assert(cur.last() == self.blocks@[i - 1]);
                assert(i * 0xFFFF_FFFF == (i - 1) * 0xFFFF_FFFF + 0xFFFF_FFFF) by (nonlinear_arith);
            }
        }
        proof {
            assert(self.blocks@.subrange(0, n as int) =~= self.blocks@);
        }
        total
    }

    /// Registers a path in the table and stamps the identifier on a
    /// copy of the record. Nothing else is stored: entries reach the
    /// blocks through the batch and commit paths.
    pub fn add_entry(&mut self, entry: FileEntry, path: &FilePath)
        requires
            old(self).wf(),
            old(self).path_table@.len() < 0xFFFF_FFFF,
        ensures
            final(self).wf(),
            final(self).path_table@ == spec_add(old(self).path_table@, path@),
            final(self).blocks@ == old(self).blocks@,
            final(self).header == old(self).header,
    {
        let id = self.path_table.add_path(path);
        let mut stamped = entry;
        stamped.set_path_id(id);
        let _ = stamped;
        proof {
            assert forall|i: int, j: int|
                0 <= i < self.blocks@.len() && 0 <= j < self.blocks@[i].entries@.len() implies {
                &&& (#[trigger] self.blocks@[i].entries@[j]).path_id < self.path_table@.len()
                &&& self.blocks@[i].spec_paths()[j] == self.path_table@[self.blocks@[i].entries@[j].path_id as int]
            } by {
                assert(old(self).blocks@[i].entries@[j].path_id < old(self).path_table@.len());
            }
        }
    }

    /// The commit stage: resolves a path-table identifier for every
    /// path in the sealed block, stamps it on the matching entry, and
    /// appends the block. Identifiers of paths already in the table are
    /// reused; the table never shrinks and existing identifiers keep
    /// their paths.
    pub fn commit_block(&mut self, block: SearchBlock)
        requires
            old(self).wf(),
            block.wf(),
            old(self).path_table@.len() + block.entries@.len() <= 0xFFFF_FFFF,
            old(self).blocks@.len() < 0xFFFF_FFFF,
        ensures
            final(self).wf(),
            final(self).header == old(self).header,
            final(self).path_table@ == spec_table_after(
                old(self).path_table@,
                block.spec_paths(),
                block.entries@.len() as int,
            ),
            final(self).blocks@.len() == old(self).blocks@.len() + 1,
            forall|i: int|
                0 <= i < old(self).blocks@.len() ==> #[trigger] final(self).blocks@[i] == old(
                    self,
                ).blocks@[i],
            final(self).blocks@.last().char_bitmap == block.char_bitmap,
            final(self).blocks@.last().name_starts == block.name_starts,
            final(self).blocks@.last().spec_paths() == block.spec_paths(),
            final(self).blocks@.last().entries@.len() == block.entries@.len(),
            forall|j: int|
                0 <= j < block.entries@.len() ==> #[trigger] final(self).blocks@.last().entries@[j]
                    == (FileEntry {
                    path_id: spec_id_at(old(self).path_table@, block.spec_paths(), j) as u32,
                    ..block.entries@[j]
                }),
    {
        let mut block = block;
        let ghost orig = block;
        let ghost t0 = old(self).path_table@;
        let n = block.entries.len();
        let mut j: usize = 0;
        while j < n
            invariant
                old(self).wf(),
                t0 == old(self).path_table@,
                t0.len() + n <= 0xFFFF_FFFF,
                n == block.entries@.len(),
                n == orig.entries@.len(),
                j <= n,
                orig.wf(),
                self.blocks@ == old(self).blocks@,
                self.header == old(self).header,
                block.paths@ == orig.paths@,
                block.char_bitmap == orig.char_bitmap,
                block.name_starts == orig.name_starts,
                self.path_table.wf(),
                self.path_table@ == spec_table_after(t0, orig.spec_paths(), j as int),
                t0.len() <= self.path_table@.len() <= t0.len() + j,
                forall|idx: int|
                    0 <= idx < t0.len() ==> #[trigger] self.path_table@[idx] == t0[idx],
                forall|l: int|
                    j <= l < n ==> #[trigger] block.entries@[l] == orig.entries@[l],
                forall|l: int|
                    0 <= l < j ==> #[trigger] block.entries@[l] == (FileEntry {
                        path_id: spec_id_at(t0, orig.spec_paths(), l) as u32,
                        ..orig.entries@[l]
                    }),
                forall|l: int|
                    0 <= l < j ==> (#[trigger] block.entries@[l]).path_id
                        < self.path_table@.len() && self.path_table@[block.entries@[l].path_id as int]
                        == orig.spec_paths()[l],
            decreases n - j,
        {
            let ghost table_prev = self.path_table@;
            let id = self.path_table.add_path(&block.paths[j]);
            proof {
                assert(orig.spec_paths()[j as int] == block.paths@[j as int]@);
                assert(self.path_table@ == spec_table_after(
                    t0,
                    orig.spec_paths(),
                    j + 1,
                ));
                assert(id == spec_id_at(t0, orig.spec_paths(), j as int));
            }
            let mut e = block.entries[j];
            e.set_path_id(id);
            let ghost entries_prev = block.entries@;
            block.entries[j] = e;
            proof {
                assert(block.entries@ =~= entries_prev.update(j as int, e));
            }
            j = j + 1;
        }
        let ghost fb = block;
        self.blocks.push(block);
        proof {
            assert(self.blocks@.last() == fb);
            assert(fb.spec_paths() =~= orig.spec_paths());
            assert forall|i: int, jj: int|
                0 <= i < self.blocks@.len() && 0 <= jj < self.blocks@[i].entries@.len() implies {
                &&& (#[trigger] self.blocks@[i].entries@[jj]).path_id < self.path_table@.len()
                &&& self.blocks@[i].spec_paths()[jj] == self.path_table@[self.blocks@[i].entries@[jj].path_id as int]
            } by {
                if i < self.blocks@.len() - 1 {
                    assert(self.blocks@[i] == old(self).blocks@[i]);
                    assert(old(self).blocks@[i].entries@[jj].path_id < t0.len());
                } else {
                    assert(self.blocks@[i] == fb);
                    assert(fb.entries@[jj].path_id < self.path_table@.len());
                    assert(self.path_table@[fb.entries@[jj].path_id as int] == orig.spec_paths()[jj]);
                }
            }
        }
    }

    /// The per-batch grouping step: turns one batch of scanned pairs
    /// into a single block (ids resolved through the shared table) and
    /// appends it. An empty batch changes nothing.
    pub fn process_batch(&mut self, batch: &Vec<(FileEntry, FilePath)>)
        requires
            old(self).wf(),
            forall|k: int| 0 <= k < batch@.len() ==> (#[trigger] batch@[k]).0.wf(),
            batch@.len() <= 0xFFFF_FFFF,
            old(self).path_table@.len() + batch@.len() <= 0xFFFF_FFFF,
            old(self).blocks@.len() < 0xFFFF_FFFF,
        ensures
            final(self).wf(),
            final(self).header == old(self).header,
            final(self).path_table@ == spec_table_after(
                old(self).path_table@,
                Seq::new(batch@.len(), |k: int| batch@[k].1@),
                batch@.len() as int,
            ),
            batch@.len() == 0 ==> final(self).blocks@ == old(self).blocks@,
            batch@.len() > 0 ==> {
                let paths = Seq::new(batch@.len(), |k: int| batch@[k].1@);
                &&& final(self).blocks@.len() == old(self).blocks@.len() + 1
                &&& (forall|i: int|
                    0 <= i < old(self).blocks@.len() ==> #[trigger] final(self).blocks@[i] == old(
                        self,
                    ).blocks@[i])
                &&& final(self).blocks@.last().spec_paths() == paths
                &&& final(self).blocks@.last().entries@.len() == batch@.len()
                &&& (forall|jj: int|
                    0 <= jj < batch@.len() ==> #[trigger] final(self).blocks@.last().entries@[jj]
                        == (FileEntry {
                        path_id: spec_id_at(old(self).path_table@, paths, jj) as u32,
                        ..batch@[jj].0
                    }))
            },
    {
        let ghost paths = Seq::new(batch@.len(), |k: int| batch@[k].1@);
        if batch.len() == 0 {
            proof {
                assert(spec_table_after(old(self).path_table@, paths, 0) == old(
                    self,
                ).path_table@);
            }
            return ;
        }
        let mut blk = SearchBlock::new();
        let n = batch.len();
        let mut i: usize = 0;
        while i < n
            invariant
                n == batch@.len() <= 0xFFFF_FFFF,
                i <= n,
                forall|k: int| 0 <= k < n ==> (#[trigger] batch@[k]).0.wf(),
                blk.wf(),
                blk.entries@.len() == i,
                blk.entries@ =~= Seq::new(i as nat, |k: int| batch@[k].0),
                blk.spec_paths() =~= Seq::new(i as nat, |k: int| batch@[k].1@),
            decreases n - i,
        {
            blk.add_entry(batch[i].0, &batch[i].1);
            i = i + 1;
            proof {
                assert(blk.entries@ =~= Seq::new(i as nat, |k: int| batch@[k].0));
                assert(blk.spec_paths() =~= Seq::new(i as nat, |k: int| batch@[k].1@));
            }
        }
        proof {
            assert(blk.spec_paths() =~= paths);
        }
        self.commit_block(blk);
    }

    /// The concatenated encodings of the blocks, in order.
    pub open spec fn spec_blocks_ser(blocks: Seq<SearchBlock>) -> Seq<u8>
        decreases blocks.len(),
    {
        if blocks.len() == 0 {
            Seq::empty()
        } else {
            blocks[0].spec_ser() + Self::spec_blocks_ser(blocks.subrange(1, blocks.len() as int))
        }
    }

    /// The header that `save` writes: the current format version, the
    /// real counts, the block table right after the header and the
    /// path table right after the blocks.
    pub open spec fn spec_save_header(self) -> IndexHeader {
        IndexHeader {
            version: FORMAT_VERSION,
            block_count: self.blocks@.len() as u32,
            entry_count: Self::spec_entry_count(self.blocks@) as u64,
            path_table_offset: (HEADER_BYTES + Self::spec_blocks_ser(self.blocks@).len()) as u64,
            block_table_offset: HEADER_BYTES as u64,
        }
    }

    /// The full encoding of the index: header, blocks, path table.
    pub open spec fn spec_save(self) -> Seq<u8> {
        self.spec_save_header().spec_ser() + Self::spec_blocks_ser(self.blocks@)
            + PathTable::spec_ser(self.path_table@)
    }

    /// Serializes the index: the header (with computed counts and
    /// offsets), every block in order, then the path table. The stored
    /// paths must fit the format's length fields, and the whole block
    /// section must fit in memory.
    pub fn save(&self) -> (r: Vec<u8>)
        requires
            self.wf(),
            self.path_table@.len() <= 0xFFFF_FFFF,
            forall|i: int, j: int|
                0 <= i < self.path_table@.len() && 0 <= j < self.path_table@[i].len()
                    ==> #[trigger] self.path_table@[i][j].len() <= MAX_COMPONENT_BYTES,
            forall|i: int|
                0 <= i < self.path_table@.len() ==> #[trigger] spec_compress_path(
                    self.path_table@[i],
                ).len() <= 0xFFFF_FFFF,
            HEADER_BYTES + Self::spec_blocks_ser(self.blocks@).len() <= usize::MAX,
        ensures
            r@ == self.spec_save(),
    {
        let mut body: Vec<u8> = Vec::new();
        let n = self.blocks.len();
        let mut i: usize = 0;
        proof {
            assert(self.blocks@.subrange(0, n as int) =~= self.blocks@);
            assert(Self::spec_blocks_ser(self.blocks@.subrange(0, 0)).len() == 0);
        }
        while i < n
            invariant
                n == self.blocks@.len(),
                i <= n,
                forall|k: int| 0 <= k < n ==> (#[trigger] self.blocks@[k]).wf(),
                body@ == Self::spec_blocks_ser(self.blocks@.subrange(0, i as int)),
                Self::spec_blocks_ser(self.blocks@) == Self::spec_blocks_ser(
                    self.blocks@.subrange(0, i as int),
                ) + Self::spec_blocks_ser(self.blocks@.subrange(i as int, n as int)),
            decreases n - i,
        {
            self.blocks[i].write_to(&mut body);
            i = i + 1;
            proof {
                let tail_prev = self.blocks@.subrange(i - 1, n as int);
                assert(tail_prev[0] == self.blocks@[i - 1]);
                assert(tail_prev.subrange(1, tail_prev.len() as int) =~= self.blocks@.subrange(
                    i as int,
                    n as int,
                ));
                assert(Self::spec_blocks_ser(tail_prev) == self.blocks@[i - 1].spec_ser()
                    + Self::spec_blocks_ser(self.blocks@.subrange(i as int, n as int)));
                lemma_blocks_ser_snoc(self.blocks@, i as int);
                assert(body@ =~= Self::spec_blocks_ser(self.blocks@.subrange(0, i as int)));
                assert(Self::spec_blocks_ser(self.blocks@) =~= Self::spec_blocks_ser(
                    self.blocks@.subrange(0, i as int),
                ) + Self::spec_blocks_ser(self.blocks@.subrange(i as int, n as int)));
            }
        }
        proof {
            assert(Self::spec_blocks_ser(self.blocks@.subrange(n as int, n as int)).len() == 0);
            assert(body@ =~= Self::spec_blocks_ser(self.blocks@));
        }
        let entry_count = self.entry_count();
        let header = IndexHeader {
            version: FORMAT_VERSION,
            block_count: n as u32,
            entry_count,
            path_table_offset: (HEADER_BYTES + body.len()) as u64,
            block_table_offset: HEADER_BYTES as u64,
        };
        let mut out: Vec<u8> = Vec::new();
        header.write_to(&mut out);
        out.append(&mut body);
        self.path_table.write_to(&mut out);
        proof {
            assert(header == self.spec_save_header());
            assert(out@ =~= self.spec_save());
        }
        out
    }

    /// Whether `data` is a loadable index image: long enough for the
    /// header, starting with the magic value, with both offsets inside
    /// the data, a parsable block table and a parsable path table.
    pub open spec fn spec_load_ok(data: Seq<u8>) -> bool {
        let bto = spec_u64_from_le_bytes(data.subrange(28, 36)) as int;
        let pto = spec_u64_from_le_bytes(data.subrange(20, 28)) as int;
        let bc = spec_u32_from_le_bytes(data.subrange(8, 12)) as nat;
        &&& data.len() >= HEADER_BYTES
        &&& IndexHeader::spec_magic_ok(data, 0)
        &&& bto <= data.len()
        &&& pto <= data.len()
        &&& SearchBlock::spec_blocks_ok(data, bto, bc)
        &&& pto + 4 <= data.len()
        &&& PathTable::spec_read_entries(
            data,
            pto + 4,
            spec_u32_from_le_bytes(data.subrange(pto, pto + 4)) as nat,
        ) is Some
    }

    /// Parses an index image: the header (rejecting a wrong magic
    /// value), the declared blocks, the path table; then reattaches a
    /// path to every entry through its identifier. An entry whose
    /// identifier does not resolve (its path was dropped from the
    /// reload) is dropped too. Succeeds exactly on loadable images.
    pub fn load(data: &[u8]) -> (r: Result<Self, FormatError>)
        ensures
            match r {
                Ok(ix) => {
                    &&& Self::spec_load_ok(data@)
                    &&& ix.wf()
                    &&& ix.header.spec_ser() == data@.subrange(0, HEADER_BYTES as int)
                    &&& ix.blocks@.len() == ix.header.block_count
                    &&& match PathTable::spec_read_entries(
                        data@,
                        ix.header.path_table_offset + 4,
                        spec_u32_from_le_bytes(
                            data@.subrange(
                                ix.header.path_table_offset as int,
                                ix.header.path_table_offset + 4,
                            ),
                        ) as nat,
                    ) {
                        Some((entries, _)) => ix.path_table@ == PathTable::spec_add_all(
                            Seq::empty(),
                            entries,
                        ),
                        None => false,
                    }
                    &&& exists|raw: Seq<SearchBlock>|
                        {
                            &&& #[trigger] SearchBlock::spec_blocks_match(
                                data@,
                                ix.header.block_table_offset as int,
                                raw,
                            )
                            &&& raw.len() == ix.blocks@.len()
                            &&& forall|i: int|
                                0 <= i < raw.len() ==> {
                                    &&& (#[trigger] ix.blocks@[i]).char_bitmap
                                        == raw[i].char_bitmap
                                    &&& ix.blocks@[i].name_starts == raw[i].name_starts
                                    &&& ix.blocks@[i].entries@ == raw[i].entries@.filter(
                                        spec_resolvable(ix.path_table@.len() as int),
                                    )
                                }
                        }
                },
                Err(e) => {
                    &&& !Self::spec_load_ok(data@)
                    &&& (e == FormatError::BadMagic || e == FormatError::Truncated)
                    &&& (e == FormatError::BadMagic <==> (data@.len() >= HEADER_BYTES
                        && !IndexHeader::spec_magic_ok(data@, 0)))
                },
            },
    {
        let header = match IndexHeader::read_from(data) {
            Ok(h) => h,
            Err(e) => {
                return Err(e);
            },
        };
        proof {
            lemma_header_fields(data@, header);
        }
        if header.block_table_offset > data.len() as u64 {
            return Err(FormatError::Truncated);
        }
        if header.path_table_offset > data.len() as u64 {
            return Err(FormatError::Truncated);
        }
        let bto = header.block_table_offset as usize;
        let pto = header.path_table_offset as usize;
        let (raw_blocks, _) = match SearchBlock::read_multiple(data, bto, header.block_count) {
            Ok(v) => v,
            Err(_) => {
                return Err(FormatError::Truncated);
            },
        };
        let (path_table, _) = match PathTable::read_from(data, pto) {
            Ok(v) => v,
            Err(_) => {
                return Err(FormatError::Truncated);
            },
        };
        let ghost raw = raw_blocks@;
        let tlen = path_table.len();
        let mut resolved: Vec<SearchBlock> = Vec::new();
        let m = raw_blocks.len();
        let mut i: usize = 0;
        while i < m
            invariant
                m == raw.len(),
                raw_blocks@ == raw,
                i <= m,
                path_table.wf(),
                forall|k: int| 0 <= k < m ==> (#[trigger] raw[k]).wf_entries(),
                forall|k: int| 0 <= k < m ==> (#[trigger] raw[k]).entries@.len() <= 0xFFFF_FFFF,
                resolved@.len() == i,
                forall|k: int|
                    0 <= k < i ==> {
                        &&& (#[trigger] resolved@[k]).char_bitmap == raw[k].char_bitmap
                        &&& resolved@[k].name_starts == raw[k].name_starts
                        &&& resolved@[k].entries@ == raw[k].entries@.filter(
                            spec_resolvable(path_table@.len() as int),
                        )
                        &&& resolved@[k].wf()
                        &&& forall|j: int|
                            0 <= j < resolved@[k].entries@.len() ==> (
                            #[trigger] resolved@[k].entries@[j]).path_id < path_table@.len()
                                && resolved@[k].spec_paths()[j] == path_table@[resolved@[k].entries@[j].path_id as int]
                    },
            decreases m - i,
        {
            let nb = resolve_block(&raw_blocks[i], &path_table);
            resolved.push(nb);
            i = i + 1;
        }
        let ix = EverythingIndex { header, blocks: resolved, path_table };
        proof {
            assert(SearchBlock::spec_blocks_match(data@, ix.header.block_table_offset as int,
                raw));
        }
        Ok(ix)
    }
}

/// Rebuilds one loaded block against the shared path table: entries
/// whose identifier resolves keep their place and get their path
/// attached; the rest are dropped.
fn resolve_block(b: &SearchBlock, table: &PathTable) -> (nb: SearchBlock)
    requires
        b.wf_entries(),
        b.entries@.len() <= 0xFFFF_FFFF,
        table.wf(),
    ensures
        nb.char_bitmap == b.char_bitmap,
        nb.name_starts == b.name_starts,
        nb.entries@ == b.entries@.filter(spec_resolvable(table@.len() as int)),
        nb.wf(),
        forall|j: int|
            0 <= j < nb.entries@.len() ==> (#[trigger] nb.entries@[j]).path_id < table@.len()
                && nb.spec_paths()[j] == table@[nb.entries@[j].path_id as int],
{
    let ghost pred = spec_resolvable(table@.len() as int);
    let mut es: Vec<FileEntry> = Vec::new();
    let mut ps: Vec<FilePath> = Vec::new();
    let n = b.entries.len();
    let mut j: usize = 0;
    proof {
        assert(b.entries@.subrange(0, 0).len() == 0);
        reveal(Seq::filter);
        assert(es@ =~= b.entries@.subrange(0, 0).filter(pred));
    }
    while j < n
        invariant
            n == b.entries@.len() <= 0xFFFF_FFFF,
            j <= n,
            pred == spec_resolvable(table@.len() as int),
            table.wf(),
            forall|k: int| 0 <= k < n ==> (#[trigger] b.entries@[k]).wf(),
            es@ == b.entries@.subrange(0, j as int).filter(pred),
            es@.len() == ps@.len(),
            es@.len() <= j,
            forall|l: int|
                0 <= l < es@.len() ==> (#[trigger] es@[l]).wf() && es@[l].path_id < table@.len()
                    && ps@[l]@ == table@[es@[l].path_id as int],
        decreases n - j,
    {
        let e = b.entries[j];
        match table.get_path(e.path_id) {
            Some(p) => {
                es.push(e);
                ps.push(p.duplicate());
            },
            None => {},
        }
        j = j + 1;
        proof {
            reveal(Seq::filter);
            let cur = b.entries@.subrange(0, j as int);
            assert(cur.drop_last() =~= b.entries@.subrange(0, j - 1));
            assert(cur.last() == b.entries@[j - 1]);
            assert(es@ =~= cur.filter(pred));
        }
    }
    proof {
        assert(b.entries@.subrange(0, n as int) =~= b.entries@);
    }
    let nb = SearchBlock { char_bitmap: b.char_bitmap, name_starts: b.name_starts, entries: es,
        paths: ps };
    proof {
        assert forall|j2: int| 0 <= j2 < nb.entries@.len() implies (
        #[trigger] nb.entries@[j2]).path_id < table@.len() && nb.spec_paths()[j2]
            == table@[nb.entries@[j2].path_id as int] by {
            assert(nb.spec_paths()[j2] == nb.paths@[j2]@);
        }
    }
    nb
}

/// Filtering loaded entries by resolvability drops nothing when every
/// identifier resolves.
pub proof fn lemma_filter_resolvable_identity(es: Seq<FileEntry>, n: int)
    requires
        forall|j: int| 0 <= j < es.len() ==> (#[trigger] es[j]).path_id < n,
    ensures
        es.filter(spec_resolvable(n)) == es,
    decreases es.len(),
{
    reveal(Seq::filter);
    if es.len() > 0 {
        lemma_filter_resolvable_identity(es.drop_last(), n);
        assert(es.drop_last().filter(spec_resolvable(n)).push(es.last()) =~= es);
    }
}

/// A written run of block encodings parses back: every block parses,
/// the run ends where the encoding ends, and the parsed contents are
/// the blocks that were written.
proof fn lemma_blocks_ser_parse(blocks: Seq<SearchBlock>, data: Seq<u8>, pos: int)
    requires
        forall|i: int| 0 <= i < blocks.len() ==> (#[trigger] blocks[i]).wf(),
        0 <= pos,
        pos + EverythingIndex::spec_blocks_ser(blocks).len() <= data.len(),
        data.subrange(pos, pos + EverythingIndex::spec_blocks_ser(blocks).len())
            == EverythingIndex::spec_blocks_ser(blocks),
    ensures
        SearchBlock::spec_blocks_ok(data, pos, blocks.len() as nat),
        SearchBlock::spec_blocks_end(data, pos, blocks.len() as nat) == pos
            + EverythingIndex::spec_blocks_ser(blocks).len(),
        SearchBlock::spec_blocks_content_match(data, pos, blocks),
    decreases blocks.len(),
{
    let ser = EverythingIndex::spec_blocks_ser(blocks);
    if blocks.len() > 0 {
        let head = blocks[0];
        let hser = head.spec_ser();
        let tail = blocks.subrange(1, blocks.len() as int);
        let tser = EverythingIndex::spec_blocks_ser(tail);
        assert(ser == hser + tser);
        assert forall|x: int| 0 <= x < ser.len() implies data[pos + x] == ser[x] by {
            assert(data.subrange(pos, pos + ser.len())[x] == data[pos + x]);
        }
        assert forall|t: int| 0 <= t < hser.len() implies data.subrange(
            pos,
            pos + hser.len(),
        )[t] == hser[t] by {
            assert(data[pos + t] == ser[t]);
        }
        assert(data.subrange(pos, pos + hser.len()) =~= hser);
        SearchBlock::lemma_ser_parses(head, data, pos);
        let pos2 = pos + hser.len();
        assert forall|t: int| 0 <= t < tser.len() implies data.subrange(
            pos2,
            pos2 + tser.len(),
        )[t] == tser[t] by {
            assert(data[pos2 + t] == ser[hser.len() + t]);
        }
        assert(data.subrange(pos2, pos2 + tser.len()) =~= tser);
        assert forall|i: int| 0 <= i < tail.len() implies (#[trigger] tail[i]).wf() by {
            assert(tail[i] == blocks[i + 1]);
        }
        lemma_blocks_ser_parse(tail, data, pos2);
        assert(SearchBlock::spec_block_end(data, pos) == pos2);
    }
}

impl EverythingIndex {
    /// Law: the saved image loads back as the index it was saved from.
    /// The image is loadable; its header section is the computed
    /// header; the block section describes exactly the saved blocks
    /// (their bitmaps, counts and entries); and re-reading the path
    /// table section re-inserts exactly the saved paths, in order. The
    /// stored paths must fit the format and hold valid UTF-8, as the
    /// on-disk path encoding requires.
    pub proof fn lemma_save_load_round_trip(ix: EverythingIndex)
        requires
            ix.wf(),
            ix.path_table@.len() <= 0xFFFF_FFFF,
            forall|i: int, j: int|
                0 <= i < ix.path_table@.len() && 0 <= j < ix.path_table@[i].len()
                    ==> #[trigger] ix.path_table@[i][j].len() <= MAX_COMPONENT_BYTES && valid_utf8(
                    ix.path_table@[i][j],
                ),
            forall|i: int|
                0 <= i < ix.path_table@.len() ==> #[trigger] spec_compress_path(
                    ix.path_table@[i],
                ).len() <= 0xFFFF_FFFF,
            HEADER_BYTES + Self::spec_blocks_ser(ix.blocks@).len() <= 0xFFFF_FFFF_FFFF_FFFF,
        ensures
            Self::spec_load_ok(ix.spec_save()),
            ix.spec_save().subrange(0, HEADER_BYTES as int) == ix.spec_save_header().spec_ser(),
            SearchBlock::spec_blocks_content_match(
                ix.spec_save(),
                HEADER_BYTES as int,
                ix.blocks@,
            ),
            match PathTable::spec_read_entries(
                ix.spec_save(),
                ix.spec_save_header().path_table_offset + 4,
                spec_u32_from_le_bytes(
                    ix.spec_save().subrange(
                        ix.spec_save_header().path_table_offset as int,
                        ix.spec_save_header().path_table_offset + 4,
                    ),
                ) as nat,
            ) {
                Some((entries, end)) => PathTable::spec_add_all(Seq::empty(), entries)
                    == ix.path_table@ && end == ix.spec_save().len(),
                None => false,
            },
            forall|i: int|
                0 <= i < ix.blocks@.len() ==> (#[trigger] ix.blocks@[i]).entries@.filter(
                    spec_resolvable(ix.path_table@.len() as int),
                ) == ix.blocks@[i].entries@,
    {
        assert forall|i: int|
            0 <= i < ix.blocks@.len() implies (#[trigger] ix.blocks@[i]).entries@.filter(
            spec_resolvable(ix.path_table@.len() as int),
        ) == ix.blocks@[i].entries@ by {
            lemma_filter_resolvable_identity(
                ix.blocks@[i].entries@,
                ix.path_table@.len() as int,
            );
        }
        vstd::bytes::lemma_auto_spec_u32_to_from_le_bytes();
        vstd::bytes::lemma_auto_spec_u64_to_from_le_bytes();
        let data = ix.spec_save();
        let hdr = ix.spec_save_header();
        let hser = hdr.spec_ser();
        let bser = Self::spec_blocks_ser(ix.blocks@);
        let tser = PathTable::spec_ser(ix.path_table@);
        let pser = PathTable::spec_paths_ser(ix.path_table@);
        assert(hser.len() == HEADER_BYTES);
        assert(data == hser + bser + tser);
        let lb = bser.len() as int;
        let lt = tser.len() as int;
        let pto = HEADER_BYTES + lb;
        assert(data.len() == HEADER_BYTES + lb + lt);
        assert forall|x: int| 0 <= x < data.len() implies data[x] == (hser + bser + tser)[x] by {}
        // The header section.
        assert forall|t: int| 0 <= t < HEADER_BYTES implies data.subrange(
            0,
            HEADER_BYTES as int,
        )[t] == hser[t] by {}
        assert(data.subrange(0, HEADER_BYTES as int) =~= hser);
        assert(IndexHeader::spec_magic_ok(data, 0));
        lemma_header_fields(data, hdr);
        assert(hdr.block_table_offset == HEADER_BYTES);
        assert(hdr.path_table_offset == pto);
        assert(hdr.block_count == ix.blocks@.len());
        // The block section.
        assert forall|t: int| 0 <= t < lb implies data.subrange(
            HEADER_BYTES as int,
            HEADER_BYTES + lb,
        )[t] == bser[t] by {
            assert(data[HEADER_BYTES + t] == (hser + bser + tser)[HEADER_BYTES + t]);
        }
        assert(data.subrange(HEADER_BYTES as int, HEADER_BYTES + lb) =~= bser);
        lemma_blocks_ser_parse(ix.blocks@, data, HEADER_BYTES as int);
        // The path-table section.
        assert(tser == spec_u32_to_le_bytes(ix.path_table@.len() as u32) + pser);
        assert forall|t: int| 0 <= t < 4 implies #[trigger] data.subrange(pto, pto + 4)[t]
            == spec_u32_to_le_bytes(ix.path_table@.len() as u32)[t] by {
            assert(data[pto + t] == (hser + bser + tser)[pto + t]);
        }
        assert(data.subrange(pto, pto + 4) =~= spec_u32_to_le_bytes(
            ix.path_table@.len() as u32,
        ));
        assert(spec_u32_from_le_bytes(data.subrange(pto, pto + 4)) == ix.path_table@.len());
        assert forall|t: int| 0 <= t < pser.len() implies data.subrange(
            pto + 4,
            pto + 4 + pser.len(),
        )[t] == pser[t] by {
            assert(data[pto + 4 + t] == (hser + bser + tser)[pto + 4 + t]);
        }
        assert(data.subrange(pto + 4, pto + 4 + pser.len()) =~= pser);
        crate::path_table::lemma_paths_ser_reads_back(ix.path_table@, data, pto + 4);
        assert(Seq::<Seq<Seq<u8>>>::empty() + ix.path_table@ =~= ix.path_table@);
        crate::path_table::lemma_add_all_distinct(Seq::<Seq<Seq<u8>>>::empty(), ix.path_table@);
        assert(Self::spec_load_ok(data));
    }
}

/// The fields of a parsed header are the little-endian words of the
/// encoding it came from.
proof fn lemma_header_fields(data: Seq<u8>, h: IndexHeader)
    requires
        h.spec_ser() == data.subrange(0, HEADER_BYTES as int),
        data.len() >= HEADER_BYTES,
    ensures
        h.block_count == spec_u32_from_le_bytes(data.subrange(8, 12)),
        h.path_table_offset == spec_u64_from_le_bytes(data.subrange(20, 28)),
        h.block_table_offset == spec_u64_from_le_bytes(data.subrange(28, 36)),
{
    vstd::bytes::lemma_auto_spec_u32_to_from_le_bytes();
    vstd::bytes::lemma_auto_spec_u64_to_from_le_bytes();
    assert(h.spec_ser().subrange(8, 12) =~= spec_u32_to_le_bytes(h.block_count));
    assert(h.spec_ser().subrange(8, 12) =~= data.subrange(8, 12));
    assert(h.spec_ser().subrange(20, 28) =~= spec_u64_to_le_bytes(h.path_table_offset));
    assert(h.spec_ser().subrange(20, 28) =~= data.subrange(20, 28));
    assert(h.spec_ser().subrange(28, 36) =~= spec_u64_to_le_bytes(h.block_table_offset));
    assert(h.spec_ser().subrange(28, 36) =~= data.subrange(28, 36));
}

/// Appending one block to a prefix moves one encoding from the tail to
/// the prefix.
proof fn lemma_blocks_ser_snoc(blocks: Seq<SearchBlock>, i: int)
    requires
        1 <= i <= blocks.len(),
    ensures
        EverythingIndex::spec_blocks_ser(blocks.subrange(0, i)) == EverythingIndex::spec_blocks_ser(
            blocks.subrange(0, i - 1),
        ) + blocks[i - 1].spec_ser(),
    decreases i,
{
    if i == 1 {
        let one = blocks.subrange(0, 1);
        assert(one[0] == blocks[0]);
        assert(one.subrange(1, 1).len() == 0);
        assert(EverythingIndex::spec_blocks_ser(one.subrange(1, 1)) == Seq::<u8>::empty());
        assert(EverythingIndex::spec_blocks_ser(blocks.subrange(0, 0)) == Seq::<u8>::empty());
        assert(EverythingIndex::spec_blocks_ser(one) =~= EverythingIndex::spec_blocks_ser(
            blocks.subrange(0, 0),
        ) + blocks[0].spec_ser());
    } else {
        let pre = blocks.subrange(0, i);
        let pre1 = blocks.subrange(0, i - 1);
        assert(pre[0] == blocks[0] && pre1[0] == blocks[0]);
        let t = blocks.subrange(1, blocks.len() as int);
        assert(pre.subrange(1, pre.len() as int) =~= t.subrange(0, i - 1));
        assert(pre1.subrange(1, pre1.len() as int) =~= t.subrange(0, i - 2));
        assert(EverythingIndex::spec_blocks_ser(pre) == blocks[0].spec_ser()
            + EverythingIndex::spec_blocks_ser(t.subrange(0, i - 1)));
        assert(EverythingIndex::spec_blocks_ser(pre1) == blocks[0].spec_ser()
            + EverythingIndex::spec_blocks_ser(t.subrange(0, i - 2)));
        lemma_blocks_ser_snoc(t, i - 1);
        assert(t[i - 2] == blocks[i - 1]);
        assert(EverythingIndex::spec_blocks_ser(pre) =~= EverythingIndex::spec_blocks_ser(pre1)
            + blocks[i - 1].spec_ser());
    }
}

} // verus!
