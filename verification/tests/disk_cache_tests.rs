use squircle_icon_rs::disk_cache::{
    cache_file_name, disk_cache_dir_from, cache_key_bytes, cache_key_hash, encode_cache_blob, encode_pixmap_blob,
    fnv1a_64, load_cached_pixmap,
};
use tiny_skia::Pixmap;

#[test]
fn test_fnv1a_determinism() {
    let h1 = fnv1a_64(b"test-icon-path-1234");
    let h2 = fnv1a_64(b"test-icon-path-1234");
    assert_eq!(h1, h2);
    assert_ne!(h1, fnv1a_64(b"test-icon-path-5678"));
}

#[test]
fn test_disk_cache_roundtrip() {
    let mut pixmap = Pixmap::new(32, 32).unwrap();
    pixmap.fill(tiny_skia::Color::from_rgba8(255, 128, 64, 255));

    let blob = encode_pixmap_blob(&pixmap);
    let loaded = load_cached_pixmap(&blob, 32).expect("must load from disk");
    assert_eq!(loaded.width(), 32);
    assert_eq!(loaded.height(), 32);
    assert_eq!(loaded.data(), pixmap.data());

    // Incorrect expected size should be rejected
    assert!(load_cached_pixmap(&blob, 64).is_none());
}

#[test]
fn fnv1a_known_vectors() {
    assert_eq!(fnv1a_64(b""), 0xcbf29ce484222325);
    assert_eq!(fnv1a_64(b"a"), 0xaf63dc4c8601ec8c);
    assert_eq!(fnv1a_64(b"foobar"), 0x85944171f73967e8);
}

#[test]
fn cache_key_bytes_layout() {
    let buf = cache_key_bytes(b"/x", 0x0102030405060708, 0x0a0b0c0d, 7, 64, 2, 1);
    let mut expected = b"/x".to_vec();
    expected.extend_from_slice(&0x0102030405060708u64.to_le_bytes());
    expected.extend_from_slice(&0x0a0b0c0du32.to_le_bytes());
    expected.extend_from_slice(&7u64.to_le_bytes());
    expected.extend_from_slice(&64u32.to_le_bytes());
    expected.push(2);
    expected.push(1);
    assert_eq!(buf, expected);
    assert_eq!(cache_key_hash(b"/x", 0x0102030405060708, 0x0a0b0c0d, 7, 64, 2, 1), fnv1a_64(&expected));
}

#[test]
fn cache_file_name_format() {
    assert_eq!(cache_file_name(0xab, 64), "00000000000000ab_64.bin");
    assert_eq!(cache_file_name(0xffff_ffff_ffff_ffff, 0), "ffffffffffffffff_0.bin");
    assert_eq!(cache_file_name(0x0123456789abcdef, 1024), "0123456789abcdef_1024.bin");
}

#[test]
fn cache_blob_format_and_rejections() {
    let payload = vec![1u8, 2, 3, 4];
    let blob = encode_cache_blob(1, 1, &payload);
    assert_eq!(&blob[0..8], b"BMOLICN1");
    assert_eq!(&blob[8..12], &1u32.to_le_bytes());
    assert_eq!(&blob[12..16], &1u32.to_le_bytes());
    assert_eq!(&blob[16..], &payload[..]);
    let p = load_cached_pixmap(&blob, 1).expect("well formed");
    assert_eq!(p.data(), &payload[..]);
    // Truncated header.
    assert!(load_cached_pixmap(&blob[..10], 1).is_none());
    // Wrong magic.
    let mut bad = blob.clone();
    bad[0] = b'X';
    assert!(load_cached_pixmap(&bad, 1).is_none());
    // Wrong payload length.
    let mut long = blob.clone();
    long.push(0);
    assert!(load_cached_pixmap(&long, 1).is_none());
    // Zero-sized blob: well formed, but no pixmap can hold it.
    let empty = encode_cache_blob(0, 0, &[]);
    assert!(load_cached_pixmap(&empty, 0).is_none());
}

#[test]
fn fnv1a_of_a_concatenation_continues_the_first_hash() {
    // Hashing "ab" is hashing "a", then continuing with "b".
    let h_a = fnv1a_64(b"a");
    let continued = (h_a ^ (b'b' as u64)).wrapping_mul(0x100000001b3);
    assert_eq!(fnv1a_64(b"ab"), continued);
}

#[test]
fn cache_directory_choice() {
    assert_eq!(disk_cache_dir_from(Some("/x/cache"), Some("/home/u"), "/tmp"), "/x/cache/bmol/icons");
    assert_eq!(disk_cache_dir_from(None, Some("/home/u"), "/tmp"), "/home/u/.cache/bmol/icons");
    assert_eq!(disk_cache_dir_from(None, None, "/tmp"), "/tmp/bmol/icons");
}
