use everything_index::entry::{compress_date, compress_size, decompress_date, decompress_size,
    fast_hash, fast_hash_bytes, FileEntry, DATE_EPOCH, ENTRY_BYTES, FLAG_DIRECTORY};
use everything_index::header::{IndexHeader, FORMAT_VERSION, HEADER_BYTES};
use everything_index::path_codec::{compress_path, decompress_path, FilePath};
use everything_index::FormatError;

fn mk_path(parts: &[&str]) -> FilePath {
    FilePath { components: parts.iter().map(|p| p.as_bytes().to_vec()).collect() }
}

#[test]
fn test_size_zero_round_trip() {
    assert_eq!(compress_size(0), 0);
    assert_eq!(decompress_size(0), 0);
}

#[test]
fn test_size_exact_values() {
    // 12345 = 2^13 * 1.507...: exponent 13, fraction byte 129.
    assert_eq!(compress_size(12345), 13 * 256 + 129);
    assert_eq!(decompress_size(13 * 256 + 129), 12320);
    // Powers of two and small sizes survive exactly.
    assert_eq!(decompress_size(compress_size(2)), 2);
    assert_eq!(decompress_size(compress_size(3)), 3);
    assert_eq!(decompress_size(compress_size(256)), 256);
    assert_eq!(decompress_size(compress_size(511)), 511);
    assert_eq!(decompress_size(compress_size(1 << 40)), 1 << 40);
}

#[test]
fn test_size_round_trip_within_half_percent() {
    let samples: [u64; 8] = [2, 77, 512, 12345, 1_000_000, 123_456_789, 1 << 40, u64::MAX];
    for &n in samples.iter() {
        let d = decompress_size(compress_size(n));
        assert!(d <= n);
        // within 0.5% relative error: 200 * (n - d) <= n
        assert!(200u128 * ((n - d) as u128) <= n as u128);
    }
    // Size 1 is the one collision: it shares the encoding 0 with size 0.
    assert_eq!(compress_size(1), 0);
    assert_eq!(decompress_size(compress_size(1)), 0);
}

#[test]
fn test_date_round_trip_to_the_minute() {
    let t = DATE_EPOCH + 125;
    assert_eq!(compress_date(t), 2);
    assert_eq!(decompress_date(compress_date(t)), DATE_EPOCH + 120);
    // Exactly on a minute boundary.
    let t2 = DATE_EPOCH + 600;
    assert_eq!(decompress_date(compress_date(t2)), t2);
}

#[test]
fn test_date_before_epoch_collapses() {
    assert_eq!(compress_date(DATE_EPOCH - 1), 0);
    assert_eq!(compress_date(0), 0);
    assert_eq!(decompress_date(0), DATE_EPOCH);
}

#[test]
fn test_fast_hash_known_value() {
    assert_eq!(fast_hash("abc"), 0xe71fa2190541574b);
    assert_eq!(fast_hash_bytes(b"abc"), 0xe71fa2190541574b);
    assert_eq!(fast_hash(""), 0xcbf29ce484222325);
    assert_ne!(fast_hash("abc"), fast_hash("acb"));
}

#[test]
fn test_entry_fields_and_name() {
    let e = FileEntry::new(7, b"Report.PDF", 12345, false, DATE_EPOCH + 125);
    assert_eq!(e.path_id, 7);
    // The name is lower-cased before hashing.
    assert_eq!(e.name_hash, fast_hash_bytes(b"report.pdf"));
    assert_eq!(e.name_hash, 0x8e31a9982d292027);
    assert!(!e.is_dir());
    assert_eq!(e.decompress_size(), 12320);
    assert_eq!(e.decompress_date(), DATE_EPOCH + 120);
    assert_eq!(e.get_name(), format!("{:x}", e.name_hash));

    let d = FileEntry::new(0, b"dir", 0, true, 0);
    assert!(d.is_dir());
    assert_eq!(d.flags, FLAG_DIRECTORY);
    assert_eq!(d.decompress_size(), 0);
}

#[test]
fn test_entry_serialization_round_trip() {
    let e = FileEntry::new(42, b"x.txt", 999, false, DATE_EPOCH + 60);
    let mut out: Vec<u8> = Vec::new();
    e.write_to(&mut out);
    assert_eq!(out.len(), ENTRY_BYTES);
    let (back, end) = FileEntry::read_from(out.as_slice(), 0).unwrap();
    assert_eq!(end, ENTRY_BYTES);
    assert_eq!(back.path_id, e.path_id);
    assert_eq!(back.name_hash, e.name_hash);
    assert_eq!(back.flags, e.flags);
    assert_eq!(back.size, e.size);
    assert_eq!(back.date, e.date);
    // Truncated stream.
    assert_eq!(FileEntry::read_from(&out[..20], 0), Err(FormatError::Truncated));
    // A compressed size with an exponent over 63 is rejected.
    let mut bad = out.clone();
    bad[13] = 0xFF;
    bad[14] = 0xFF;
    assert_eq!(FileEntry::read_from(bad.as_slice(), 0).map(|p| p.1), Err(FormatError::Truncated));
}

#[test]
fn test_header_round_trip_and_magic() {
    let h = IndexHeader::new();
    assert_eq!(h.version, FORMAT_VERSION);
    let mut out: Vec<u8> = Vec::new();
    h.write_to(&mut out);
    assert_eq!(out.len(), HEADER_BYTES);
    assert_eq!(&out[..4], b"EFU\0");
    let back = IndexHeader::read_from(out.as_slice()).unwrap();
    assert_eq!(back.version, h.version);
    assert_eq!(back.block_count, h.block_count);
    assert_eq!(back.entry_count, h.entry_count);

    let mut bad = out.clone();
    bad[0] = b'X';
    assert_eq!(IndexHeader::read_from(bad.as_slice()).map(|_| ()), Err(FormatError::BadMagic));
    assert_eq!(IndexHeader::read_from(&out[..10]).map(|_| ()), Err(FormatError::Truncated));
}

#[test]
fn test_path_compression_round_trip() {
    let p = mk_path(&["/", "home", "user", "notes.txt"]);
    let bytes = compress_path(&p);
    let back = decompress_path(bytes.as_slice()).unwrap();
    assert_eq!(back.components, p.components);

    // The empty path encodes to nothing and comes back empty.
    let empty = mk_path(&[]);
    let b2 = compress_path(&empty);
    assert!(b2.is_empty());
    assert_eq!(decompress_path(b2.as_slice()).unwrap().components.len(), 0);

    // An empty component survives too.
    let odd = FilePath { components: vec![vec![], b"x".to_vec()] };
    let b3 = compress_path(&odd);
    assert_eq!(decompress_path(b3.as_slice()).unwrap().components, odd.components);
}

#[test]
fn test_path_decompression_rejects_bad_input() {
    // Declared length runs past the end of the buffer.
    assert!(decompress_path(&[5, 0, 1, 2]).is_none());
    // Component bytes that are not valid UTF-8 drop the path.
    assert!(decompress_path(&[1, 0, 0xFF]).is_none());
    // A single trailing stray byte is ignored.
    let p = mk_path(&["ab"]);
    let mut bytes = compress_path(&p);
    bytes.push(7);
    assert_eq!(decompress_path(bytes.as_slice()).unwrap().components, p.components);
}
