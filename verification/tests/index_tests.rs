use everything_index::block::{SearchBlock, BLOCK_CAPACITY};
use everything_index::entry::{FileEntry, DATE_EPOCH};
use everything_index::index::EverythingIndex;
use everything_index::path_codec::FilePath;
use everything_index::pipeline::BlockAssembler;
use everything_index::search::{SearchEngine, MAX_DISPLAY_RESULTS};
use everything_index::FormatError;

fn mk_path(parts: &[&str]) -> FilePath {
    FilePath { components: parts.iter().map(|p| p.as_bytes().to_vec()).collect() }
}

fn entry_for(name: &str, size: u64, is_dir: bool) -> FileEntry {
    FileEntry::new(0, name.as_bytes(), size, is_dir, DATE_EPOCH + 3600)
}

fn demo_index() -> EverythingIndex {
    let mut ix = EverythingIndex::new();
    let batch: Vec<(FileEntry, FilePath)> = vec![
        (entry_for("report.PDF", 12345, false), mk_path(&["/", "root", "A", "report.PDF"])),
        (entry_for("report_old.txt", 100, false), mk_path(&["/", "root", "B", "report_old.txt"])),
        (entry_for("music.mp3", 5000, false), mk_path(&["/", "root", "B", "music.mp3"])),
    ];
    ix.process_batch(&batch);
    ix
}

#[test]
fn test_block_matches_by_first_byte_and_substring() {
    let mut block = SearchBlock::new();
    block.add_entry(entry_for("Report.PDF", 12345, false), &mk_path(&["/", "Report.PDF"]));
    block.add_entry(entry_for("notes.txt", 10, false), &mk_path(&["/", "notes.txt"]));

    assert!(block.matches(b"report"));
    assert!(block.matches(b"Notes"));
    // The empty query never matches.
    assert!(!block.matches(b""));
    // No stored name starts with 'e', so a substring that does not
    // start a name is rejected by the first-byte pre-filter.
    assert!(!block.matches(b"eport"));
    assert!(!block.matches(b"zzz"));
}

#[test]
fn test_block_serialization_round_trip() {
    let mut block = SearchBlock::new();
    let mut e = entry_for("a.txt", 100, false);
    e.set_path_id(3);
    block.add_entry(e, &mk_path(&["/", "a.txt"]));
    let mut out: Vec<u8> = Vec::new();
    block.write_to(&mut out);
    let (back, end) = SearchBlock::read_from(out.as_slice(), 0).unwrap();
    assert_eq!(end, out.len());
    assert_eq!(back.entries.len(), 1);
    assert_eq!(back.entries[0].path_id, 3);
    assert_eq!(back.entries[0].name_hash, e.name_hash);
    // Paths are not serialized with the block.
    assert_eq!(back.paths.len(), 0);
    assert_eq!(
        SearchBlock::read_from(&out[..out.len() - 1], 0).map(|p| p.1),
        Err(FormatError::Truncated)
    );
}

#[test]
fn test_assembler_seals_at_capacity() {
    let mut builder = BlockAssembler::new();
    let p = mk_path(&["/", "f.txt"]);
    for k in 0..BLOCK_CAPACITY - 1 {
        let sealed = builder.push(entry_for("f.txt", k as u64, false), &p);
        assert!(sealed.is_none());
    }
    let sealed = builder.push(entry_for("f.txt", 1, false), &p);
    let block = sealed.expect("block must seal at capacity");
    assert_eq!(block.entries.len(), BLOCK_CAPACITY);
    // The assembler starts fresh after sealing.
    assert!(builder.push(entry_for("g.txt", 1, false), &p).is_none());
    let rest = builder.finish().expect("one pending pair remains");
    assert_eq!(rest.entries.len(), 1);
}

#[test]
fn test_assembler_finish_empty() {
    let builder = BlockAssembler::new();
    assert!(builder.finish().is_none());
}

#[test]
fn test_index_build_assigns_shared_path_ids() {
    let ix = demo_index();
    assert_eq!(ix.blocks.len(), 1);
    assert_eq!(ix.entry_count(), 3);
    assert_eq!(ix.path_table.len(), 3);
    let block = &ix.blocks[0];
    for j in 0..block.entries.len() {
        let id = block.entries[j].path_id;
        let stored = ix.path_table.get_path(id).unwrap();
        assert_eq!(stored.components, block.paths[j].components);
    }
}

#[test]
fn test_save_load_round_trip() {
    let ix = demo_index();
    let bytes = ix.save();
    let loaded = EverythingIndex::load(bytes.as_slice()).unwrap();
    assert_eq!(loaded.entry_count(), ix.entry_count());
    assert_eq!(loaded.header.block_count, 1);
    assert_eq!(loaded.header.entry_count, 3);
    assert_eq!(loaded.path_table.len(), 3);

    // Every original file is found again by its exact lower-cased name.
    let engine = SearchEngine::new();
    for name in ["report.pdf", "report_old.txt", "music.mp3"] {
        let hits = engine.search(&loaded, name.as_bytes());
        assert_eq!(hits.len(), 1, "searching for {}", name);
    }
}

#[test]
fn test_load_rejects_bad_input() {
    let ix = demo_index();
    let bytes = ix.save();
    let mut bad = bytes.clone();
    bad[0] = b'Q';
    assert!(matches!(EverythingIndex::load(bad.as_slice()), Err(FormatError::BadMagic)));
    assert!(matches!(EverythingIndex::load(&bytes[..20]), Err(FormatError::Truncated)));
    assert!(matches!(
        EverythingIndex::load(&bytes[..bytes.len() - 1]),
        Err(FormatError::Truncated)
    ));
}

#[test]
fn test_search_end_to_end() {
    let ix = demo_index();
    let engine = SearchEngine::new();

    // Case-insensitive substring match finds both reports, each once.
    let hits = engine.search(&ix, b"report");
    assert_eq!(hits.len(), 2);
    let paths: Vec<Vec<Vec<u8>>> = hits.iter().map(|h| h.path.components.clone()).collect();
    assert!(paths.contains(&mk_path(&["/", "root", "A", "report.PDF"]).components));
    assert!(paths.contains(&mk_path(&["/", "root", "B", "report_old.txt"]).components));
    assert_ne!(paths[0], paths[1]);

    // Results are sorted by lower-cased name: report.PDF before report_old.txt.
    assert_eq!(hits[0].name, b"report.PDF".to_vec());
    assert_eq!(hits[1].name, b"report_old.txt".to_vec());

    // Stored attributes come back decompressed.
    assert_eq!(hits[0].size, 12320);
    assert!(!hits[0].is_dir);
    assert_eq!(hits[0].modified, DATE_EPOCH + 3600);

    // A query matching nothing returns the empty list.
    let none = engine.search(&ix, b"zzz_nomatch");
    assert!(none.is_empty());
}

#[test]
fn test_search_deduplicates_repeated_paths() {
    let mut ix = EverythingIndex::new();
    let p = mk_path(&["/", "dup", "same.txt"]);
    let batch: Vec<(FileEntry, FilePath)> = vec![
        (entry_for("same.txt", 1, false), FilePath { components: p.components.clone() }),
        (entry_for("same.txt", 2, false), FilePath { components: p.components.clone() }),
    ];
    ix.process_batch(&batch);
    let engine = SearchEngine::new();
    let hits = engine.search(&ix, b"same");
    assert_eq!(hits.len(), 1);
}

#[test]
fn test_search_caps_results() {
    let mut ix = EverythingIndex::new();
    let mut batch: Vec<(FileEntry, FilePath)> = Vec::new();
    for k in 0..150 {
        let name = format!("file{:03}.txt", k);
        batch.push((entry_for(&name, 10, false), mk_path(&["/", "many", &name])));
    }
    ix.process_batch(&batch);
    let engine = SearchEngine::new();
    let hits = engine.search(&ix, b"file");
    assert_eq!(hits.len(), MAX_DISPLAY_RESULTS);
    // And the capped list is still sorted.
    for w in hits.windows(2) {
        assert!(w[0].name <= w[1].name);
    }
}

#[test]
fn test_empty_query_matches_everything_up_to_cap() {
    let ix = demo_index();
    let engine = SearchEngine::new();
    let hits = engine.search(&ix, b"");
    assert_eq!(hits.len(), 3);
}

#[test]
fn test_add_entry_registers_path() {
    let mut ix = EverythingIndex::new();
    ix.add_entry(entry_for("a.txt", 1, false), &mk_path(&["/", "a.txt"]));
    assert_eq!(ix.path_table.len(), 1);
    assert_eq!(ix.blocks.len(), 0);
}
