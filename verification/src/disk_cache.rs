//! Persistent on-disk binary cache for pre-rendered icon bitmaps: the key hash,
//! the cache file name and the blob format.

use vstd::prelude::*;
use vstd::bytes::{
    spec_u32_from_le_bytes, spec_u32_to_le_bytes, spec_u64_to_le_bytes, u32_from_le_bytes,
    u32_to_le_bytes, u64_to_le_bytes,
};
use tiny_skia::Pixmap;
use crate::pixmap::{
    pixmap_bytes, pixmap_data, pixmap_from_rgba, pixmap_height, pixmap_height_of, pixmap_size_ok,
    pixmap_width, pixmap_width_of, rgba_len,
};
use crate::lookup::{join_spec, path_join};
use crate::text::{decimal_chars, hex16_chars, push_decimal, push_hex16, string_push_str};

verus! {

/// FNV-1a 64-bit offset basis.
pub const FNV_OFFSET_BASIS: u64 = 0xcbf29ce484222325u64;

/// FNV-1a 64-bit prime.
pub const FNV_PRIME: u64 = 0x100000001b3u64;

/// One FNV-1a round: xor the byte in, then multiply modulo 2^64.
pub open spec fn fnv1a_step(hash: u64, b: u8) -> u64 {
    (hash ^ (b as u64)).wrapping_mul(FNV_PRIME)
}

/// FNV-1a hash of `bytes`, continuing from `start`.
pub open spec fn fnv1a_from(start: u64, bytes: Seq<u8>) -> u64
    decreases bytes.len(),
{
    if bytes.len() == 0 {
        start
    } else {
        fnv1a_step(fnv1a_from(start, bytes.drop_last()), bytes.last())
    }
}

/// The 64-bit FNV-1a hash of `bytes`.
pub open spec fn fnv1a_spec(bytes: Seq<u8>) -> u64 {
    fnv1a_from(FNV_OFFSET_BASIS, bytes)
}

/// Deterministic 64-bit FNV-1a hash algorithm.
pub fn fnv1a_64(bytes: &[u8]) -> (hash: u64)
    ensures
        hash == fnv1a_spec(bytes@),
{
    let mut hash: u64 = FNV_OFFSET_BASIS;
    let mut i: usize = 0;
    while i < bytes.len()
        invariant
            i <= bytes@.len(),
            hash == fnv1a_from(FNV_OFFSET_BASIS, bytes@.take(i as int)),
        decreases bytes@.len() - i,
    {
        proof {
            assert(bytes@.take(i + 1).drop_last() =~= bytes@.take(i as int));
        }
        hash = (hash ^ (bytes[i] as u64)).wrapping_mul(FNV_PRIME);
        i = i + 1;
    }
    proof {
        assert(bytes@.take(i as int) =~= bytes@);
    }
    hash
}

/// Hashing a concatenation continues from the hash of the first part.
pub proof fn lemma_fnv1a_concat(start: u64, a: Seq<u8>, b: Seq<u8>)
    ensures
        fnv1a_from(start, a + b) == fnv1a_from(fnv1a_from(start, a), b),
    decreases b.len(),
{
    if b.len() == 0 {
        assert(a + b =~= a);
    } else {
        assert((a + b).drop_last() =~= a + b.drop_last());
        lemma_fnv1a_concat(start, a, b.drop_last());
    }
}

/// The disk cache directory: `bmol/icons` under `XDG_CACHE_HOME` where that
/// is set, else `.cache/bmol/icons` under `HOME` where that is set, else
/// `bmol/icons` under the temporary directory.
pub open spec fn disk_cache_dir_spec(
    xdg_cache_home: Option<Seq<char>>,
    home: Option<Seq<char>>,
    temp_dir: Seq<char>,
) -> Seq<char> {
    match xdg_cache_home {
        Some(x) => join_spec(x, "bmol/icons"@),
        None => match home {
            Some(h) => join_spec(h, ".cache/bmol/icons"@),
            None => join_spec(temp_dir, "bmol/icons"@),
        },
    }
}

/// The view of an optional string slice.
pub open spec fn opt_str_view(s: Option<&str>) -> Option<Seq<char>> {
    match s {
        Some(v) => Some(v@),
        None => None,
    }
}

/// Chooses the disk cache directory from the values of `XDG_CACHE_HOME` and
/// `HOME` (where set) and the temporary directory.
pub fn disk_cache_dir_from(xdg_cache_home: Option<&str>, home: Option<&str>, temp_dir: &str) -> (dir: String)
    ensures
        dir@ == disk_cache_dir_spec(opt_str_view(xdg_cache_home), opt_str_view(home), temp_dir@),
{
    match xdg_cache_home {
        Some(x) => path_join(x, "bmol/icons"),
        None => match home {
            Some(h) => path_join(h, ".cache/bmol/icons"),
            None => path_join(temp_dir, "bmol/icons"),
        },
    }
}

/// Length of the blob header: the magic tag, then width and height.
pub const HEADER_LEN: usize = 16;

/// The magic tag that opens every cache blob: `BMOLICN1`.
pub open spec fn blob_magic() -> Seq<u8> {
    seq![0x42u8, 0x4d, 0x4f, 0x4c, 0x49, 0x43, 0x4e, 0x31]
}

/// The bytes hashed for a cache key: the source path, its modification time
/// (seconds, then nanoseconds), its length, the target size, the matting
/// strategy and the plate theme, integers in little-endian order.
pub open spec fn cache_key_bytes_spec(
    path: Seq<u8>,
    mtime_sec: u64,
    mtime_nsec: u32,
    len: u64,
    size: u32,
    strategy: u8,
    theme: u8,
) -> Seq<u8> {
    path + spec_u64_to_le_bytes(mtime_sec) + spec_u32_to_le_bytes(mtime_nsec)
        + spec_u64_to_le_bytes(len) + spec_u32_to_le_bytes(size) + seq![strategy, theme]
}

/// Builds the bytes that identify a cache entry.
pub fn cache_key_bytes(
    path: &[u8],
    mtime_sec: u64,
    mtime_nsec: u32,
    len: u64,
    size: u32,
    strategy: u8,
    theme: u8,
) -> (buf: Vec<u8>)
    ensures
        buf@ == cache_key_bytes_spec(path@, mtime_sec, mtime_nsec, len, size, strategy, theme),
{
    let mut buf: Vec<u8> = Vec::new();
    append_bytes(&mut buf, path);
    append_bytes(&mut buf, u64_to_le_bytes(mtime_sec).as_slice());
    append_bytes(&mut buf, u32_to_le_bytes(mtime_nsec).as_slice());
    append_bytes(&mut buf, u64_to_le_bytes(len).as_slice());
    append_bytes(&mut buf, u32_to_le_bytes(size).as_slice());
    buf.push(strategy);
    buf.push(theme);
    buf
}

/// Appends all of `src` to `dst`.
pub fn append_bytes(dst: &mut Vec<u8>, src: &[u8])
    ensures
        final(dst)@ == old(dst)@ + src@,
{
    let ghost start = dst@;
    let mut i: usize = 0;
    while i < src.len()
        invariant
            i <= src@.len(),
            dst@ == start + src@.take(i as int),
        decreases src@.len() - i,
    {
        dst.push(src[i]);
        proof {
            assert(src@.take(i + 1) =~= src@.take(i as int).push(src@[i as int]));
        }
        i = i + 1;
    }
    proof {
        assert(src@.take(i as int) =~= src@);
    }
}

/// The 64-bit key of a cache entry.
pub open spec fn cache_key_hash_spec(
    path: Seq<u8>,
    mtime_sec: u64,
    mtime_nsec: u32,
    len: u64,
    size: u32,
    strategy: u8,
    theme: u8,
) -> u64 {
    fnv1a_spec(cache_key_bytes_spec(path, mtime_sec, mtime_nsec, len, size, strategy, theme))
}

/// Computes the 64-bit key of a cache entry.
pub fn cache_key_hash(
    path: &[u8],
    mtime_sec: u64,
    mtime_nsec: u32,
    len: u64,
    size: u32,
    strategy: u8,
    theme: u8,
) -> (hash: u64)
    ensures
        hash == cache_key_hash_spec(path@, mtime_sec, mtime_nsec, len, size, strategy, theme),
{
    let buf = cache_key_bytes(path, mtime_sec, mtime_nsec, len, size, strategy, theme);
    fnv1a_64(buf.as_slice())
}

/// The cache file name of an entry: 16 hexadecimal digits of the key, an
/// underscore, the target size in decimal, and `.bin`.
pub open spec fn cache_file_name_spec(hash: u64, size: u32) -> Seq<char> {
    hex16_chars(hash) + "_"@ + decimal_chars(size as nat) + ".bin"@
}

/// Builds the cache file name of an entry.
pub fn cache_file_name(hash: u64, size: u32) -> (name: String)
    ensures
        name@ == cache_file_name_spec(hash, size),
{
    let mut name = String::new();
    push_hex16(&mut name, hash);
    string_push_str(&mut name, "_");
    push_decimal(&mut name, size as u64);
    string_push_str(&mut name, ".bin");
    name
}

/// The blob stored for a pixmap: the magic tag, the width and the height in
/// little-endian order, then the premultiplied RGBA8 payload.
pub open spec fn cache_blob_spec(width: u32, height: u32, payload: Seq<u8>) -> Seq<u8> {
    blob_magic() + spec_u32_to_le_bytes(width) + spec_u32_to_le_bytes(height) + payload
}

/// Frames a payload into a cache blob.
pub fn encode_cache_blob(width: u32, height: u32, payload: &[u8]) -> (blob: Vec<u8>)
    ensures
        blob@ == cache_blob_spec(width, height, payload@),
{
    let mut blob: Vec<u8> = Vec::new();
    blob.push(0x42u8);
    blob.push(0x4d);
    blob.push(0x4f);
    blob.push(0x4c);
    blob.push(0x49);
    blob.push(0x43);
    blob.push(0x4e);
    blob.push(0x31);
    proof {
        assert(blob@ =~= blob_magic());
    }
    append_bytes(&mut blob, u32_to_le_bytes(width).as_slice());
    append_bytes(&mut blob, u32_to_le_bytes(height).as_slice());
    append_bytes(&mut blob, payload);
    blob
}

/// Frames the contents of a pixmap into a cache blob.
pub fn encode_pixmap_blob(pixmap: &Pixmap) -> (blob: Vec<u8>)
    ensures
        blob@ == cache_blob_spec(pixmap_width(*pixmap), pixmap_height(*pixmap), pixmap_bytes(*pixmap)),
{
    let w = pixmap_width_of(pixmap);
    let h = pixmap_height_of(pixmap);
    encode_cache_blob(w, h, pixmap_data(pixmap))
}

/// What a blob holds when it is well formed for `expected_size`: a blob of at
/// least 16 bytes that opens with the magic tag, states a width and a height
/// both equal to `expected_size`, and carries exactly `width * height * 4`
/// payload bytes (a count that must fit in `usize`). The result is the
/// payload.
pub open spec fn decode_cache_blob_spec(data: Seq<u8>, expected_size: u32) -> Option<Seq<u8>> {
    if data.len() < HEADER_LEN || data.subrange(0, 8) != blob_magic() {
        None
    } else {
        let w = spec_u32_from_le_bytes(data.subrange(8, 12));
        let h = spec_u32_from_le_bytes(data.subrange(12, 16));
        if w != expected_size || h != expected_size {
            None
        } else if rgba_len(w, h) > usize::MAX {
            None
        } else if data.len() != HEADER_LEN + rgba_len(w, h) {
            None
        } else {
            Some(data.subrange(16, data.len() as int))
        }
    }
}

/// Reads a cache blob back into a pixmap of `expected_size` x `expected_size`
/// pixels. Fails where the blob is not well formed for that size, or where
/// `tiny_skia` cannot hold a pixmap of that size.
pub fn load_cached_pixmap(data: &[u8], expected_size: u32) -> (r: Option<Pixmap>)
    ensures
        r is Some <==> (decode_cache_blob_spec(data@, expected_size) is Some
            && pixmap_size_ok(expected_size, expected_size)),
        r matches Some(p) ==> {
            &&& pixmap_width(p) == expected_size
            &&& pixmap_height(p) == expected_size
            &&& Some(pixmap_bytes(p)) == decode_cache_blob_spec(data@, expected_size)
        },
{
    if data.len() < HEADER_LEN {
        return None;
    }
    let mut i: usize = 0;
    while i < 8
        invariant
            i <= 8,
            data@.len() >= 16,
            forall|j: int| 0 <= j < i ==> data@[j] == blob_magic()[j],
        decreases 8 - i,
    {
        let m: u8 = if i == 0 { 0x42 } else if i == 1 { 0x4d } else if i == 2 { 0x4f } else if i
            == 3 { 0x4c } else if i == 4 { 0x49 } else if i == 5 { 0x43 } else if i == 6 { 0x4e } else { 0x31 };
        if data[i] != m {
            proof {
                assert(data@.subrange(0, 8)[i as int] != blob_magic()[i as int]);
            }
            return None;
        }
        i = i + 1;
    }
    proof {
        assert(data@.subrange(0, 8) =~= blob_magic());
    }
    let w = u32_from_le_bytes(vstd::slice::slice_subrange(data, 8, 12));
    let h = u32_from_le_bytes(vstd::slice::slice_subrange(data, 12, 16));
    if w != expected_size || h != expected_size {
        return None;
    }
    let payload_len = match (w as usize).checked_mul(h as usize) {
        Some(n) => match n.checked_mul(4) {
            Some(m) => m,
            None => return None,
        },
        None => return None,
    };
    if data.len() - HEADER_LEN != payload_len {
        return None;
    }
    let payload = vstd::slice::slice_to_vec(vstd::slice::slice_subrange(data, 16, data.len()));
    pixmap_from_rgba(w, h, payload)
}

/// A blob framed for a square pixmap reads back into the same pixels, and is
/// refused for any other expected size.
pub proof fn lemma_cache_blob_roundtrip(size: u32, payload: Seq<u8>, other: u32)
    requires
        payload.len() == rgba_len(size, size),
        rgba_len(size, size) <= usize::MAX,
        other != size,
    ensures
        decode_cache_blob_spec(cache_blob_spec(size, size, payload), size) == Some(payload),
        decode_cache_blob_spec(cache_blob_spec(size, size, payload), other) is None,
{
    let blob = cache_blob_spec(size, size, payload);
    vstd::bytes::lemma_auto_spec_u32_to_from_le_bytes();
    assert(blob.subrange(0, 8) =~= blob_magic());
    assert(blob.subrange(8, 12) =~= spec_u32_to_le_bytes(size));
    assert(blob.subrange(12, 16) =~= spec_u32_to_le_bytes(size));
    assert(blob.subrange(16, blob.len() as int) =~= payload);
}

} // verus!
