//! The block-assembly stage of the concurrent build pipeline. Scan
//! workers enumerate the filesystem and hand `(entry, path)` pairs to a
//! single assembler, which accumulates them into a block and seals it
//! at capacity; sealed blocks go to the commit stage
//! (`EverythingIndex::commit_block`). The caller owns the queues and
//! threads between the stages; every decision the stages take is here.

use vstd::prelude::*;

use crate::block::{SearchBlock, BLOCK_CAPACITY};
use crate::entry::FileEntry;
use crate::path_codec::FilePath;

verus! {

/// The single-consumer assembly stage: accumulates scanned pairs into
/// an in-progress block and seals it when it reaches capacity.
pub struct BlockAssembler {
    current: SearchBlock,
}

impl BlockAssembler {
    /// The entries accumulated in the in-progress block.
    pub closed spec fn spec_entries(self) -> Seq<FileEntry> {
        self.current.entries@
    }

    /// The paths accumulated in the in-progress block.
    pub closed spec fn spec_paths(self) -> Seq<Seq<Seq<u8>>> {
        self.current.spec_paths()
    }

    /// Invariant: the in-progress block is well formed, its bitmaps
    /// cover its names, and it is strictly under capacity.
    pub closed spec fn wf(self) -> bool {
        &&& self.current.wf()
        &&& self.current.covers()
        &&& self.current.entries@.len() < BLOCK_CAPACITY
    }

    /// A fresh assembler with an empty in-progress block.
    pub fn new() -> (r: Self)
        ensures
            r.wf(),
            r.spec_entries().len() == 0,
            r.spec_paths().len() == 0,
    {
        BlockAssembler { current: SearchBlock::new() }
    }

    /// Takes one scanned pair. When this fills the block to capacity,
    /// the block is sealed and returned, and a fresh one is started;
    /// otherwise the pair is held and nothing is returned.
    pub fn push(&mut self, entry: FileEntry, path: &FilePath) -> (r: Option<SearchBlock>)
        requires
            old(self).wf(),
            entry.wf(),
        ensures
            final(self).wf(),
            match r {
                Some(b) => {
                    &&& b.wf()
                    &&& b.covers()
                    &&& b.entries@.len() == BLOCK_CAPACITY
                    &&& b.entries@ == old(self).spec_entries().push(entry)
                    &&& b.spec_paths() == old(self).spec_paths().push(path@)
                    &&& final(self).spec_entries().len() == 0
                    &&& final(self).spec_paths().len() == 0
                },
                None => {
                    &&& final(self).spec_entries() == old(self).spec_entries().push(entry)
                    &&& final(self).spec_paths() =~= old(self).spec_paths().push(path@)
                },
            },
    {
        self.current.add_entry(entry, path);
        if self.current.entries.len() >= BLOCK_CAPACITY {
            let mut sealed = SearchBlock::new();
            core::mem::swap(&mut sealed, &mut self.current);
            Some(sealed)
        } else {
            None
        }
    }

    /// Ends the run: hands back the final partial block, or nothing
    /// when no pair is pending.
    pub fn finish(self) -> (r: Option<SearchBlock>)
        requires
            self.wf(),
        ensures
            match r {
                Some(b) => {
                    &&& b.wf()
                    &&& b.covers()
                    &&& b.entries@.len() > 0
                    &&& b.entries@ == self.spec_entries()
                    &&& b.spec_paths() == self.spec_paths()
                },
                None => self.spec_entries().len() == 0 && self.spec_paths().len() == 0,
            },
    {
        if self.current.entries.len() == 0 {
            None
        } else {
            Some(self.current)
        }
    }
}

} // verus!
