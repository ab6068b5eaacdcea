use everything_index::path_codec::FilePath;
use everything_index::path_table::PathTable;

fn mk_path(parts: &[&str]) -> FilePath {
    FilePath { components: parts.iter().map(|p| p.as_bytes().to_vec()).collect() }
}

#[test]
fn test_path_table() {
    let mut table = PathTable::new();

    let path1 = mk_path(&["/", "home", "user", "test.txt"]);
    let path2 = mk_path(&["/", "home", "user", "docs", "file.pdf"]);

    let id1 = table.add_path(&path1);
    let id2 = table.add_path(&path2);

    assert_ne!(id1, id2);
    assert_eq!(table.get_path(id1).unwrap().components, path1.components);
    assert_eq!(table.get_path(id2).unwrap().components, path2.components);
}

#[test]
fn test_add_path_is_idempotent() {
    let mut table = PathTable::new();
    let p = mk_path(&["/", "a", "b"]);
    let first = table.add_path(&p);
    let again = table.add_path(&p);
    assert_eq!(first, again);
    assert_eq!(table.len(), 1);
}

#[test]
fn test_distinct_paths_get_distinct_ids() {
    let mut table = PathTable::new();
    let ids: Vec<u32> = (0..10)
        .map(|k| table.add_path(&mk_path(&["/", "d", &format!("f{}", k)])))
        .collect();
    for a in 0..ids.len() {
        for b in 0..ids.len() {
            if a != b {
                assert_ne!(ids[a], ids[b]);
            }
        }
    }
    assert_eq!(table.len(), 10);
}

#[test]
fn test_get_path_out_of_range() {
    let table = PathTable::new();
    assert!(table.get_path(0).is_none());
}

#[test]
fn test_table_serialization_round_trip() {
    let mut table = PathTable::new();
    let p1 = mk_path(&["/", "x", "one.txt"]);
    let p2 = mk_path(&["/", "y", "two.txt"]);
    let id1 = table.add_path(&p1);
    let id2 = table.add_path(&p2);
    let mut out: Vec<u8> = Vec::new();
    table.write_to(&mut out);
    let (back, end) = PathTable::read_from(out.as_slice(), 0).unwrap();
    assert_eq!(end, out.len());
    assert_eq!(back.len(), 2);
    assert_eq!(back.get_path(id1).unwrap().components, p1.components);
    assert_eq!(back.get_path(id2).unwrap().components, p2.components);
    // Truncated stream fails.
    assert!(PathTable::read_from(&out[..out.len() - 1], 0).is_err());
}
