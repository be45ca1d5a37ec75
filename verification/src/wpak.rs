//! WPAK packed resource archives: path hashing, the archive reader and the
//! archive builder.
//!
//! The file index is sorted by `path_hash`, the 64-bit FNV-1a hash of the
//! normalized UTF-8 path. Entries may carry compressed payloads (Zstd, LZ4,
//! zlib-deflate or none).

use vstd::prelude::*;
use vstd::utf8::encode_utf8;
use vstd::std_specs::iter::IteratorSpec;

verus! {

// --- Compression -----------------------------------------------------------

/// Payload compression of one archive entry; `id` is its byte in the index.
#[derive(Clone, Copy, Debug, PartialEq, Eq, Structural)]
pub enum Compression {
    Raw,
    Zstd,
    Lz4,
    Deflate,
}

/// The index byte of each compression.
pub open spec fn compression_code(c: Compression) -> u8 {
    match c {
        Compression::Raw => 0,
        Compression::Zstd => 1,
        Compression::Lz4 => 2,
        Compression::Deflate => 3,
    }
}

/// The compression that an index byte names; unknown bytes mean none.
pub open spec fn compression_from_code(id: u8) -> Compression {
    if id == 1 {
        Compression::Zstd
    } else if id == 2 {
        Compression::Lz4
    } else if id == 3 {
        Compression::Deflate
    } else {
        Compression::Raw
    }
}

impl Compression {
    /// Decode an index byte.
    pub fn from_id(id: u8) -> (c: Compression)
        ensures
            c == compression_from_code(id),
    {
        match id {
            1 => Compression::Zstd,
            2 => Compression::Lz4,
            3 => Compression::Deflate,
            _ => Compression::Raw,
        }
    }

    /// The index byte of this compression.
    pub fn id(self) -> (r: u8)
        ensures
            r == compression_code(self),
            compression_from_code(r) == self,
    {
        match self {
            Compression::Raw => 0,
            Compression::Zstd => 1,
            Compression::Lz4 => 2,
            Compression::Deflate => 3,
        }
    }
}

/// The index byte of a compression in the archive format: 0 for none, 1 for
/// zstd, 2 for LZ4, 3 for deflate. Reading a byte gives back the compression
/// it was written for, and a byte above 3 reads as no compression.
pub proof fn lemma_compression_codes(c: Compression, b: u8)
    ensures
        compression_code(Compression::Raw) == 0,
        compression_code(Compression::Zstd) == 1,
        compression_code(Compression::Lz4) == 2,
        compression_code(Compression::Deflate) == 3,
        compression_from_code(compression_code(c)) == c,
        b > 3 ==> compression_from_code(b) == Compression::Raw,
{
}

// --- Path normalization ----------------------------------------------------

/// Every backslash turned into a forward slash.
pub open spec fn forward_slashes(s: Seq<char>) -> Seq<char> {
    s.map_values(|c: char| if c == '\\' { '/' } else { c })
}

/// `"://"` starts at position `i` of `s`.
pub open spec fn is_scheme_at(s: Seq<char>, i: int) -> bool {
    0 <= i && i + 3 <= s.len() && s[i] == ':' && s[i + 1] == '/' && s[i + 2] == '/'
}

/// The position just past the first `"://"` at or after `i`, if there is one.
pub open spec fn scheme_end_from(s: Seq<char>, i: int) -> Option<int>
    decreases s.len() - i,
{
    if i < 0 || i + 3 > s.len() {
        None
    } else if is_scheme_at(s, i) {
        Some(i + 3)
    } else {
        scheme_end_from(s, i + 1)
    }
}

/// `s` without everything up to and including its first `"://"`.
pub open spec fn without_scheme(s: Seq<char>) -> Seq<char> {
    match scheme_end_from(s, 0) {
        Some(e) => s.skip(e),
        None => s,
    }
}

/// An ASCII letter, as a drive letter is.
pub open spec fn is_drive_letter(c: char) -> bool {
    ('a' <= c && c <= 'z') || ('A' <= c && c <= 'Z')
}

/// `s` without a leading drive prefix such as `C:`.
pub open spec fn without_drive(s: Seq<char>) -> Seq<char> {
    if s.len() >= 2 && is_drive_letter(s[0]) && s[1] == ':' {
        s.skip(2)
    } else {
        s
    }
}

/// `s` without one leading slash.
pub open spec fn without_leading_slash(s: Seq<char>) -> Seq<char> {
    if s.len() > 0 && s[0] == '/' {
        s.skip(1)
    } else {
        s
    }
}

/// The normalized path before lowercasing.
pub open spec fn slash_normalized(s: Seq<char>) -> Seq<char> {
    without_leading_slash(without_drive(without_scheme(forward_slashes(s))))
}

/// What `str::to_lowercase` returns for a string (Unicode lowercase mapping).
pub uninterp spec fn unicode_lowercase(s: Seq<char>) -> Seq<char>;

/// Every character is ASCII.
pub open spec fn all_ascii(s: Seq<char>) -> bool {
    forall|i: int| 0 <= i < s.len() ==> (#[trigger] s[i] as u32) < 128
}

/// ASCII lowercase of one character.
pub open spec fn ascii_lower_char(c: char) -> char {
    if 'A' <= c && c <= 'Z' {
        ((c as u32) + 32) as char
    } else {
        c
    }
}

/// ASCII lowercase of every character.
pub open spec fn ascii_lowercase(s: Seq<char>) -> Seq<char> {
    s.map_values(|c: char| ascii_lower_char(c))
}

/// The normalized form of a path: forward slashes, no scheme prefix, no
/// drive prefix, no leading slash, lowercase.
pub open spec fn normalized_path(s: Seq<char>) -> Seq<char> {
    unicode_lowercase(slash_normalized(s))
}

/// The normalized form of an ASCII path.
pub open spec fn ascii_normalized_path(s: Seq<char>) -> Seq<char> {
    ascii_lowercase(slash_normalized(s))
}

/// `str::to_lowercase`. The contract names the Unicode lowercase mapping and
/// states its ASCII part: on ASCII text it lowers A-Z and keeps the rest.
#[verifier::external_body]
fn to_lowercase(s: &str) -> (r: String)
    ensures
        r@ == unicode_lowercase(s@),
        all_ascii(s@) ==> r@ == ascii_lowercase(s@),
{
    s.to_lowercase()
}

/// Collecting characters into a `String` keeps them in order.
#[verifier::external_body]
pub(crate) fn string_from_chars(cs: &Vec<char>) -> (r: String)
    ensures
        r@ == cs@,
{
    cs.iter().collect()
}

/// The characters of a string slice, in order.
pub(crate) fn chars_of(s: &str) -> (r: Vec<char>)
    ensures
        r@ == s@,
{
    broadcast use vstd::string::axiom_spec_iter, vstd::string::next_postcondition;

    let mut out: Vec<char> = Vec::new();
    let mut chars = s.chars();
    loop
        invariant
            out@ + chars.remaining() == s@,
            chars.decrease() is Some,
        ensures
            out@ == s@,
        decreases chars.decrease()->0,
    {
        let ghost before = chars.remaining();
        match chars.next() {
            Some(c) => {
                proof {
                    assert(out@.push(c) + chars.remaining() =~= out@ + before);
                }
                out.push(c);
            },
            None => {
                proof {
                    assert(out@ + before =~= out@);
                }
                break ;
            },
        }
    }
    out
}

fn is_drive_char(c: char) -> (r: bool)
    ensures
        r == is_drive_letter(c),
{
    ('a' <= c && c <= 'z') || ('A' <= c && c <= 'Z')
}

/// Normalize a path to forward slashes, trimmed of a scheme prefix such as
/// `file://`, of a drive prefix such as `C:` and of a leading slash,
/// lowercased.
pub fn normalize_path(path: &str) -> (r: String)
    ensures
        r@ == normalized_path(path@),
        all_ascii(path@) ==> r@ == ascii_normalized_path(path@),
{
    let cs = chars_of(path);
    let n = cs.len();
    // Backslashes become forward slashes.
    let mut fs: Vec<char> = Vec::new();
    let mut i: usize = 0;
    while i < n
        invariant
            n == cs@.len(),
            i <= n,
            fs@ == forward_slashes(cs@).take(i as int),
        decreases n - i,
    {
        let c = cs[i];
        let d = if c == '\\' { '/' } else { c };
        proof {
            assert(forward_slashes(cs@).take(i + 1) == forward_slashes(cs@).take(i as int).push(d));
        }
        fs.push(d);
        i = i + 1;
    }
    proof {
        assert(fs@ == forward_slashes(cs@));
    }
    // Find the first "://".
    let mut start: usize = 0;
    let mut j: usize = 0;
    while n >= 3 && j <= n - 3
        invariant_except_break
            start == 0,
            scheme_end_from(fs@, 0) == scheme_end_from(fs@, j as int),
        invariant
            n == fs@.len(),
            j <= n,
        ensures
            start <= n,
            start == 0 ==> scheme_end_from(fs@, 0) == None::<int>,
            start != 0 ==> scheme_end_from(fs@, 0) == Some(start as int),
        decreases n - j,
    {
        if fs[j] == ':' && fs[j + 1] == '/' && fs[j + 2] == '/' {
            start = j + 3;
            break;
        }
        j = j + 1;
    }
    // Skip past the scheme, a drive prefix and one leading slash.
    proof {
        lemma_scheme_end_bounds(fs@, 0);
        assert(fs@.skip(start as int).len() == n - start);
    }
    let ghost w0 = fs@.skip(start as int);
    if start < n && n - start >= 2 && is_drive_char(fs[start]) && fs[start + 1] == ':' {
        start = start + 2;
        proof {
            assert(without_drive(w0) =~= fs@.skip(start as int));
        }
    } else {
        proof {
            assert(without_drive(w0) =~= fs@.skip(start as int));
        }
    }
    if start < n && fs[start] == '/' {
        start = start + 1;
    }
    let mut rest: Vec<char> = Vec::new();
    let mut k: usize = start;
    while k < n
        invariant
            n == fs@.len(),
            start <= k <= n,
            rest@ == fs@.subrange(start as int, k as int),
        decreases n - k,
    {
        proof {
            assert(fs@.subrange(start as int, k + 1) == fs@.subrange(start as int, k as int).push(fs@[k as int]));
        }
        rest.push(fs[k]);
        k = k + 1;
    }
    proof {
        let w = without_drive(without_scheme(forward_slashes(path@)));
        assert(rest@ == without_leading_slash(w));
    }
    proof {
        lemma_slash_normalized_ascii(path@);
    }
    let trimmed = string_from_chars(&rest);
    to_lowercase(trimmed.as_str())
}

// --- FNV-1a 64-bit ---------------------------------------------------------

pub const FNV_OFFSET: u64 = 0xCBF2_9CE4_8422_2325;

pub const FNV_PRIME: u64 = 0x0000_0100_0000_01B3;

/// FNV-1a over a byte string.
pub open spec fn fnv1a_bytes(bytes: Seq<u8>) -> u64
    decreases bytes.len(),
{
    if bytes.len() == 0 {
        FNV_OFFSET
    } else {
        vstd::wrapping::u64_specs::wrapping_mul(
            fnv1a_bytes(bytes.drop_last()) ^ (bytes.last() as u64),
            FNV_PRIME,
        )
    }
}

/// The path hash of an ASCII path, where lowercasing is ASCII lowercasing.
pub open spec fn ascii_path_hash(path: Seq<char>) -> u64 {
    fnv1a_bytes(encode_utf8(ascii_normalized_path(path)))
}

/// The path hash: FNV-1a over the UTF-8 bytes of the normalized path.
pub open spec fn path_hash(path: Seq<char>) -> u64 {
    fnv1a_bytes(encode_utf8(normalized_path(path)))
}

/// The 64-bit FNV-1a hash of the normalized path.
pub fn fnv1a(path: &str) -> (h: u64)
    ensures
        h == path_hash(path@),
        all_ascii(path@) ==> h == ascii_path_hash(path@),
{
    let normalized = normalize_path(path);
    let bytes = normalized.as_str().as_bytes();
    let mut hash: u64 = FNV_OFFSET;
    let mut i: usize = 0;
    while i < bytes.len()
        invariant
            i <= bytes@.len(),
            bytes@ == encode_utf8(normalized@),
            normalized@ == normalized_path(path@),
            all_ascii(path@) ==> normalized@ == ascii_normalized_path(path@),
            hash == fnv1a_bytes(bytes@.take(i as int)),
        decreases bytes@.len() - i,
    {
        proof {
            let t = bytes@.take(i + 1);
            assert(t.drop_last() == bytes@.take(i as int));
            assert(t.last() == bytes@[i as int]);
        }
        hash = (hash ^ (bytes[i] as u64)).wrapping_mul(FNV_PRIME);
        i = i + 1;
    }
    proof {
        assert(bytes@.take(i as int) == bytes@);
    }
    hash
}


// --- Archive layout ----------------------------------------------------------

/// Size of the fixed header: magic, version, flags and five 64-bit fields.
pub const HEADER_SIZE: usize = 52;

/// Size of one index record.
pub const FILE_ENTRY_SIZE: usize = 48;

/// The version this library writes; it reads this one and the one before.
pub const CURRENT_VERSION: u32 = 2;

/// Header flag: a GUID table follows the data section.
pub const FLAG_HAS_GUID_TABLE: u32 = 1;

/// Why an archive could not be read or built.
#[derive(Clone, Copy, Debug, PartialEq, Eq, Structural)]
pub enum WpakError {
    TooSmall,
    BadMagic,
    VersionTooNew(u32),
    VersionTooOld(u32),
    IndexEntryOutOfRange,
    NameNotTerminated,
    NameNotUtf8,
    NotFound,
    PayloadOutOfRange,
    DecompressFailed(Compression),
    CompressFailed(Compression),
    TooLarge,
}

/// The little-endian `u32` at `off`.
pub open spec fn u32_at(b: Seq<u8>, off: int) -> u32 {
    vstd::bytes::spec_u32_from_le_bytes(b.subrange(off, off + 4))
}

/// The little-endian `u64` at `off`.
pub open spec fn u64_at(b: Seq<u8>, off: int) -> u64 {
    vstd::bytes::spec_u64_from_le_bytes(b.subrange(off, off + 8))
}

/// The 16 bytes of a GUID with its first three fields byte-swapped: the
/// mixed-endian layout of `Uuid::to_bytes_le` and `Uuid::from_bytes_le`.
pub open spec fn swap_guid_fields(b: Seq<u8>) -> Seq<u8> {
    seq![b[3], b[2], b[1], b[0], b[5], b[4], b[7], b[6]] + b.subrange(8, 16)
}

/// A GUID table row as a number: the row is read with
/// `Uuid::from_bytes_le`, and the GUID's bytes are read big-endian
/// (`Uuid::as_u128`).
pub open spec fn guid_value(bytes: Seq<u8>) -> u128 {
    vstd::bytes::spec_u128_from_le_bytes(swap_guid_fields(bytes).reverse())
}

/// The four magic bytes `WPAK`.
pub open spec fn wpak_magic() -> Seq<u8> {
    seq![0x57u8, 0x50u8, 0x41u8, 0x4Bu8]
}

/// The header's version field.
pub open spec fn header_version(b: Seq<u8>) -> u32 {
    u32_at(b, 4)
}

/// The first reason the header is unusable, if any.
pub open spec fn header_error(b: Seq<u8>) -> Option<WpakError> {
    if b.len() < HEADER_SIZE {
        Some(WpakError::TooSmall)
    } else if b.subrange(0, 4) != wpak_magic() {
        Some(WpakError::BadMagic)
    } else if header_version(b) > CURRENT_VERSION {
        Some(WpakError::VersionTooNew(header_version(b)))
    } else if header_version(b) < CURRENT_VERSION - 1 {
        Some(WpakError::VersionTooOld(header_version(b)))
    } else {
        None
    }
}

/// The header's entry count.
pub open spec fn header_file_count(b: Seq<u8>) -> u64 {
    u64_at(b, 12)
}

/// The header's index offset.
pub open spec fn header_index_offset(b: Seq<u8>) -> u64 {
    u64_at(b, 20)
}

/// The header's data-section offset.
pub open spec fn header_data_offset(b: Seq<u8>) -> u64 {
    u64_at(b, 36)
}

/// The GUID-table offset; version 1 archives have none.
pub open spec fn header_guid_offset(b: Seq<u8>) -> u64 {
    if header_version(b) >= 2 {
        u64_at(b, 44)
    } else {
        0
    }
}

/// The archive carries a GUID table.
pub open spec fn has_guid_table(b: Seq<u8>) -> bool {
    header_guid_offset(b) > 0 && (u32_at(b, 8) & FLAG_HAS_GUID_TABLE) != 0
}

/// The position of the first zero byte at or after `i`.
pub open spec fn name_end(b: Seq<u8>, i: int) -> Option<int>
    decreases b.len() - i,
{
    if i < 0 || i >= b.len() {
        None
    } else if b[i] == 0 {
        Some(i)
    } else {
        name_end(b, i + 1)
    }
}

/// One index record as the reader sees it; a `guid` of zero means none.
pub ghost struct RecordView {
    pub path_hash: u64,
    pub base: int,
    pub path: Seq<char>,
    pub guid: u128,
}

/// The GUID of record `i`, or zero when the table has none for it.
pub open spec fn guid_of_record(b: Seq<u8>, i: int) -> u128 {
    if has_guid_table(b) {
        let gb = header_guid_offset(b) + 16 * i;
        if gb + 16 <= b.len() {
            guid_value(b.subrange(gb, gb + 16))
        } else {
            0
        }
    } else {
        0
    }
}

/// Index record `i`, or why it cannot be read.
pub open spec fn record_at(b: Seq<u8>, i: int) -> Result<RecordView, WpakError> {
    let base = header_index_offset(b) + FILE_ENTRY_SIZE * i;
    if base + FILE_ENTRY_SIZE > b.len() {
        Err(WpakError::IndexEntryOutOfRange)
    } else {
        let po = u64_at(b, base + 8) as int;
        match name_end(b, po) {
            None => Err(WpakError::NameNotTerminated),
            Some(e) => {
                let name = b.subrange(po, e);
                if !vstd::utf8::valid_utf8(name) {
                    Err(WpakError::NameNotUtf8)
                } else {
                    Ok(
                        RecordView {
                            path_hash: u64_at(b, base),
                            base,
                            path: vstd::utf8::decode_utf8(name),
                            guid: guid_of_record(b, i),
                        },
                    )
                }
            },
        }
    }
}

/// The first `n` index records, or the first error among them.
pub open spec fn parse_records(b: Seq<u8>, n: nat) -> Result<Seq<RecordView>, WpakError>
    decreases n,
{
    if n == 0 {
        Ok(Seq::empty())
    } else {
        match parse_records(b, (n - 1) as nat) {
            Err(e) => Err(e),
            Ok(rs) => match record_at(b, n - 1) {
                Err(e) => Err(e),
                Ok(r) => Ok(rs.push(r)),
            },
        }
    }
}

/// What reading an archive's bytes gives: its index records, or why not.
pub open spec fn parse_archive(b: Seq<u8>) -> Result<Seq<RecordView>, WpakError> {
    match header_error(b) {
        Some(e) => Err(e),
        None => parse_records(b, header_file_count(b) as nat),
    }
}

/// The last record whose hash is `h`: the one a hash lookup finds.
pub open spec fn last_with_hash(rs: Seq<RecordView>, h: u64) -> Option<int>
    decreases rs.len(),
{
    if rs.len() == 0 {
        None
    } else if rs.last().path_hash == h {
        Some(rs.len() - 1)
    } else {
        last_with_hash(rs.drop_last(), h)
    }
}

/// The last record with hash `h` that carries a GUID.
pub open spec fn last_guid_with_hash(rs: Seq<RecordView>, h: u64) -> Option<int>
    decreases rs.len(),
{
    if rs.len() == 0 {
        None
    } else if rs.last().path_hash == h && rs.last().guid != 0 {
        Some(rs.len() - 1)
    } else {
        last_guid_with_hash(rs.drop_last(), h)
    }
}

/// The GUID recorded for hash `h`, if any.
pub open spec fn guid_for_hash(rs: Seq<RecordView>, h: u64) -> Option<u128> {
    match last_guid_with_hash(rs, h) {
        Some(k) => Some(rs[k].guid),
        None => None,
    }
}

/// The stored path for hash `h`, if any.
pub open spec fn path_for_hash(rs: Seq<RecordView>, h: u64) -> Option<Seq<char>> {
    match last_with_hash(rs, h) {
        Some(k) => Some(rs[k].path),
        None => None,
    }
}

// --- Compression back ends ---------------------------------------------------

/// What `zstd::encode_all` at level 3 produces for `raw`.
pub uninterp spec fn zstd_encoded(raw: Seq<u8>) -> Seq<u8>;

/// What `zstd::decode_all` returns for `input`, `None` for an error.
pub uninterp spec fn zstd_decoded(input: Seq<u8>) -> Option<Seq<u8>>;

/// What an LZ4 frame encoder with default settings produces for `raw`.
pub uninterp spec fn lz4_encoded(raw: Seq<u8>) -> Seq<u8>;

/// What the LZ4 frame decoder returns for `input`, `None` for an error.
pub uninterp spec fn lz4_decoded(input: Seq<u8>) -> Option<Seq<u8>>;

/// What `flate2`'s zlib encoder at the default level produces for `raw`.
pub uninterp spec fn zlib_encoded(raw: Seq<u8>) -> Seq<u8>;

/// What `flate2`'s zlib decoder returns for `input`, `None` for an error.
pub uninterp spec fn zlib_decoded(input: Seq<u8>) -> Option<Seq<u8>>;

/// `zstd::decode_all` on a byte slice.
#[verifier::external_body]
fn zstd_decompress(input: &[u8]) -> (r: Option<Vec<u8>>)
    ensures
        match r {
            Some(v) => zstd_decoded(input@) == Some(v@),
            None => zstd_decoded(input@) is None,
        },
{
    zstd::decode_all(input).ok()
}

/// The LZ4 frame decoder (`lz4::Decoder`) reading a byte slice to its end.
#[verifier::external_body]
fn lz4_decompress(input: &[u8]) -> (r: Option<Vec<u8>>)
    ensures
        match r {
            Some(v) => lz4_decoded(input@) == Some(v@),
            None => lz4_decoded(input@) is None,
        },
{
    let mut decoder = lz4::Decoder::new(input).ok()?;
    let mut out = Vec::new();
    std::io::Read::read_to_end(&mut decoder, &mut out).ok()?;
    Some(out)
}

/// `flate2::read::ZlibDecoder` reading a byte slice to its end.
#[verifier::external_body]
fn zlib_decompress(input: &[u8]) -> (r: Option<Vec<u8>>)
    ensures
        match r {
            Some(v) => zlib_decoded(input@) == Some(v@),
            None => zlib_decoded(input@) is None,
        },
{
    let mut decoder = flate2::read::ZlibDecoder::new(input);
    let mut out = Vec::new();
    std::io::Read::read_to_end(&mut decoder, &mut out).ok()?;
    Some(out)
}

/// `zstd::encode_all` at level 3. The contract names the output and states
/// that `zstd::decode_all` gives the input back from it. Writing into a `Vec`
/// at a valid level, `encode_all` fails only when zstd cannot allocate its
/// working memory (creating the context panics then), which this contract
/// does not model, as no allocation in this library is modelled.
#[verifier::external_body]
fn zstd_compress(raw: &[u8]) -> (r: Option<Vec<u8>>)
    ensures
        r is Some,
        r matches Some(c) ==> c@ == zstd_encoded(raw@) && zstd_decoded(c@) == Some(raw@),
{
    zstd::encode_all(raw, 3).ok()
}

/// An LZ4 frame encoder (`lz4::EncoderBuilder`, default settings) writing a
/// byte slice. The contract names the output and states that the frame
/// decoder gives the input back from it. Writing into a `Vec` with default
/// settings, the encoder fails only when LZ4 cannot allocate its context,
/// which this contract does not model.
#[verifier::external_body]
fn lz4_compress(raw: &[u8]) -> (r: Option<Vec<u8>>)
    ensures
        r is Some,
        r matches Some(c) ==> c@ == lz4_encoded(raw@) && lz4_decoded(c@) == Some(raw@),
{
    let mut buf = Vec::new();
    let mut encoder = lz4::EncoderBuilder::new().build(&mut buf).ok()?;
    std::io::Write::write_all(&mut encoder, raw).ok()?;
    encoder.finish().1.ok()?;
    Some(buf)
}

/// `flate2::write::ZlibEncoder` at the default level writing a byte slice.
/// The contract names the output and states that the zlib decoder gives the
/// input back from it. Writing into a `Vec`, the encoder does not fail.
#[verifier::external_body]
fn zlib_compress(raw: &[u8]) -> (r: Option<Vec<u8>>)
    ensures
        r is Some,
        r matches Some(c) ==> c@ == zlib_encoded(raw@) && zlib_decoded(c@) == Some(raw@),
{
    let mut buf = Vec::new();
    let mut encoder = flate2::write::ZlibEncoder::new(&mut buf, flate2::Compression::default());
    std::io::Write::write_all(&mut encoder, raw).ok()?;
    encoder.finish().ok()?;
    Some(buf)
}

/// The stored form of a payload under a compression.
pub open spec fn compressed(raw: Seq<u8>, c: Compression) -> Seq<u8> {
    match c {
        Compression::Raw => raw,
        Compression::Zstd => zstd_encoded(raw),
        Compression::Lz4 => lz4_encoded(raw),
        Compression::Deflate => zlib_encoded(raw),
    }
}

/// Compress a payload for storage; decompressing the result gives it back.
pub fn compress(raw: &[u8], c: Compression) -> (r: Result<Vec<u8>, WpakError>)
    ensures
        r is Ok,
        r matches Ok(v) ==> v@ == compressed(raw@, c) && decompressed(v@, c) == Ok::<
            Seq<u8>,
            WpakError,
        >(raw@),
{
    let out = match c {
        Compression::Raw => Some(vstd::slice::slice_to_vec(raw)),
        Compression::Zstd => zstd_compress(raw),
        Compression::Lz4 => lz4_compress(raw),
        Compression::Deflate => zlib_compress(raw),
    };
    match out {
        Some(v) => Ok(v),
        None => Err(WpakError::CompressFailed(c)),
    }
}

/// What decompressing a stored payload gives.
pub open spec fn decompressed(payload: Seq<u8>, c: Compression) -> Result<Seq<u8>, WpakError> {
    let d = match c {
        Compression::Raw => Some(payload),
        Compression::Zstd => zstd_decoded(payload),
        Compression::Lz4 => lz4_decoded(payload),
        Compression::Deflate => zlib_decoded(payload),
    };
    match d {
        Some(v) => Ok(v),
        None => Err(WpakError::DecompressFailed(c)),
    }
}

/// Decompress a stored payload.
pub fn decompress(payload: &[u8], c: Compression) -> (r: Result<Vec<u8>, WpakError>)
    ensures
        match r {
            Ok(v) => decompressed(payload@, c) == Ok::<Seq<u8>, WpakError>(v@),
            Err(e) => decompressed(payload@, c) == Err::<Seq<u8>, WpakError>(e),
        },
{
    let d = match c {
        Compression::Raw => Some(vstd::slice::slice_to_vec(payload)),
        Compression::Zstd => zstd_decompress(payload),
        Compression::Lz4 => lz4_decompress(payload),
        Compression::Deflate => zlib_decompress(payload),
    };
    match d {
        Some(v) => Ok(v),
        None => Err(WpakError::DecompressFailed(c)),
    }
}

/// What reading `path` from an archive with bytes `b` and records `rs` gives.
pub open spec fn read_result(b: Seq<u8>, rs: Seq<RecordView>, path: Seq<char>) -> Result<
    Seq<u8>,
    WpakError,
> {
    match last_with_hash(rs, path_hash(path)) {
        None => Err(WpakError::NotFound),
        Some(k) => {
            let base = rs[k].base;
            let size = u64_at(b, base + 24) as int;
            let csize = u64_at(b, base + 32) as int;
            let c = compression_from_code(b[base + 40]);
            let start = header_data_offset(b) + u64_at(b, base + 16);
            let len = if c == Compression::Raw {
                size
            } else {
                csize
            };
            if start + len > b.len() {
                Err(WpakError::PayloadOutOfRange)
            } else {
                decompressed(b.subrange(start, start + len), c)
            }
        },
    }
}

// --- Reader ------------------------------------------------------------------

/// `String::from_utf8`: the bytes as a string when they are valid UTF-8.
#[verifier::external_body]
pub(crate) fn utf8_to_string(bytes: &[u8]) -> (r: Option<String>)
    ensures
        r is Some <==> vstd::utf8::valid_utf8(bytes@),
        r matches Some(s) ==> encode_utf8(s@) == bytes@,
{
    String::from_utf8(bytes.to_vec()).ok()
}

/// `Uuid::from_bytes_le` read back as a number with `Uuid::as_u128`.
#[verifier::external_body]
fn guid_from_bytes(bytes: &[u8]) -> (g: u128)
    requires
        bytes@.len() == 16,
    ensures
        g == guid_value(bytes@),
{
    let mut arr = [0u8; 16];
    arr.copy_from_slice(bytes);
    uuid::Uuid::from_bytes_le(arr).as_u128()
}

pub(crate) fn read_u32(b: &[u8], off: usize) -> (r: u32)
    requires
        off + 4 <= b@.len(),
    ensures
        r == u32_at(b@, off as int),
{
    let _len = b.len();
    vstd::bytes::u32_from_le_bytes(vstd::slice::slice_subrange(b, off, off + 4))
}

pub(crate) fn read_u64(b: &[u8], off: usize) -> (r: u64)
    requires
        off + 8 <= b@.len(),
    ensures
        r == u64_at(b@, off as int),
{
    let _len = b.len();
    vstd::bytes::u64_from_le_bytes(vstd::slice::slice_subrange(b, off, off + 8))
}

/// One index record.
struct IndexRecord {
    path_hash: u64,
    base: usize,
    path: String,
    guid: u128,
}

impl IndexRecord {
    spec fn view(&self) -> RecordView {
        RecordView { path_hash: self.path_hash, base: self.base as int, path: self.path@, guid: self.guid }
    }
}

/// What a reader holds of an archive: its bytes and its parsed index.
pub ghost struct ArchiveView {
    pub bytes: Seq<u8>,
    pub records: Seq<RecordView>,
}

/// An opened archive.
pub struct WpakArchive {
    data: Vec<u8>,
    records: Vec<IndexRecord>,
}

proof fn lemma_parse_records_err(b: Seq<u8>, i: nat, n: nat, e: WpakError)
    requires
        i < n,
        parse_records(b, i) is Ok,
        record_at(b, i as int) == Err::<RecordView, WpakError>(e),
    ensures
        parse_records(b, n) == Err::<Seq<RecordView>, WpakError>(e),
    decreases n,
{
    if n > i + 1 {
        lemma_parse_records_err(b, i, (n - 1) as nat, e);
    }
}

pub(crate) proof fn lemma_name_end_step(b: Seq<u8>, i: int, j: int)
    requires
        0 <= i <= j < b.len(),
        forall|k: int| i <= k < j ==> b[k] != 0,
    ensures
        name_end(b, i) == name_end(b, j),
    decreases j - i,
{
    if i < j {
        lemma_name_end_step(b, i + 1, j);
    }
}

impl View for WpakArchive {
    type V = ArchiveView;

    closed spec fn view(&self) -> ArchiveView {
        ArchiveView { bytes: self.data@, records: self.records@.map_values(|r: IndexRecord| r@) }
    }
}

impl WpakArchive {
    #[verifier::type_invariant]
    closed spec fn parsed(&self) -> bool {
        parse_archive(self.data@) == Ok::<Seq<RecordView>, WpakError>(
            self.records@.map_values(|r: IndexRecord| r@),
        )
    }

    /// Read an archive from its bytes: check the header, then read every
    /// index record with its name and GUID.
    pub fn from_bytes(bytes: Vec<u8>) -> (r: Result<WpakArchive, WpakError>)
        ensures
            match r {
                Ok(a) => a@.bytes == bytes@ && parse_archive(bytes@) == Ok::<
                    Seq<RecordView>,
                    WpakError,
                >(a@.records),
                Err(e) => parse_archive(bytes@) == Err::<Seq<RecordView>, WpakError>(e),
            },
    {
        let len = bytes.len();
        if len < HEADER_SIZE {
            return Err(WpakError::TooSmall);
        }
        if bytes[0] != 0x57u8 || bytes[1] != 0x50u8 || bytes[2] != 0x41u8 || bytes[3] != 0x4Bu8 {
            proof {
                assert(bytes@.subrange(0, 4) != wpak_magic()) by {
                    if bytes@.subrange(0, 4) == wpak_magic() {
                        assert(bytes@.subrange(0, 4)[0] == bytes@[0]);
                        assert(bytes@.subrange(0, 4)[1] == bytes@[1]);
                        assert(bytes@.subrange(0, 4)[2] == bytes@[2]);
                        assert(bytes@.subrange(0, 4)[3] == bytes@[3]);
                    }
                }
            }
            return Err(WpakError::BadMagic);
        }
        proof {
            assert(bytes@.subrange(0, 4) =~= wpak_magic());
        }
        let b = bytes.as_slice();
        let version = read_u32(b, 4);
        if version > CURRENT_VERSION {
            return Err(WpakError::VersionTooNew(version));
        }
        if version < CURRENT_VERSION - 1 {
            return Err(WpakError::VersionTooOld(version));
        }
        let flags = read_u32(b, 8);
        let file_count = read_u64(b, 12);
        let index_offset = read_u64(b, 20);
        let guid_offset = if version >= 2 {
            read_u64(b, 44)
        } else {
            0
        };
        let has_table = guid_offset > 0 && (flags & FLAG_HAS_GUID_TABLE) != 0;
        let mut records: Vec<IndexRecord> = Vec::new();
        let mut i: u64 = 0;
        proof {
            assert(records@.map_values(|r: IndexRecord| r@) =~= Seq::<RecordView>::empty());
        }
        while i < file_count
            invariant
                b@ == bytes@,
                len == b@.len(),
                header_error(b@) is None,
                file_count == header_file_count(b@),
                index_offset == header_index_offset(b@),
                guid_offset == header_guid_offset(b@),
                has_table == has_guid_table(b@),
                i <= file_count,
                parse_records(b@, i as nat) == Ok::<Seq<RecordView>, WpakError>(
                    records@.map_values(|r: IndexRecord| r@),
                ),
            decreases file_count - i,
        {
            let base_wide: u128 = index_offset as u128 + (i as u128) * 48;
            if base_wide + 48 > len as u128 {
                proof {
                    lemma_parse_records_err(b@, i as nat, file_count as nat, WpakError::IndexEntryOutOfRange);
                }
                return Err(WpakError::IndexEntryOutOfRange);
            }
            let base = base_wide as usize;
            let path_hash = read_u64(b, base);
            let path_offset = read_u64(b, base + 8);
            if path_offset >= len as u64 {
                proof {
                    lemma_parse_records_err(b@, i as nat, file_count as nat, WpakError::NameNotTerminated);
                }
                return Err(WpakError::NameNotTerminated);
            }
            let po = path_offset as usize;
            let mut e: usize = po;
            while e < len && b[e] != 0
                invariant
                    len == b@.len(),
                    po <= e <= len,
                    po < len,
                    forall|k: int| po <= k < e ==> b@[k] != 0,
                decreases len - e,
            {
                e = e + 1;
            }
            if e == len {
                proof {
                    lemma_name_end_step(b@, po as int, (len - 1) as int);
                    assert(name_end(b@, po as int) == None::<int>) by {
                        assert(name_end(b@, (len - 1) as int) == name_end(b@, len as int));
                    }
                    lemma_parse_records_err(b@, i as nat, file_count as nat, WpakError::NameNotTerminated);
                }
                return Err(WpakError::NameNotTerminated);
            }
            proof {
                lemma_name_end_step(b@, po as int, e as int);
            }
            let name = vstd::slice::slice_subrange(b, po, e);
            let path = match utf8_to_string(name) {
                Some(p) => p,
                None => {
                    proof {
                        lemma_parse_records_err(b@, i as nat, file_count as nat, WpakError::NameNotUtf8);
                    }
                    return Err(WpakError::NameNotUtf8);
                },
            };
            let mut guid: u128 = 0;
            if has_table {
                let gb: u128 = guid_offset as u128 + (i as u128) * 16;
                if gb + 16 <= len as u128 {
                    let gbu = gb as usize;
                    guid = guid_from_bytes(vstd::slice::slice_subrange(b, gbu, gbu + 16));
                }
            }
            let rec = IndexRecord { path_hash, base, path, guid };
            proof {
                vstd::utf8::encode_utf8_decode_utf8(path@);
                assert(rec@.guid == guid_of_record(b@, i as int));
                assert(record_at(b@, i as int) == Ok::<RecordView, WpakError>(rec@));
                assert(records@.push(rec).map_values(|r: IndexRecord| r@) =~= records@.map_values(
                    |r: IndexRecord| r@,
                ).push(rec@));
            }
            records.push(rec);
            i = i + 1;
        }
        Ok(WpakArchive { data: bytes, records })
    }
}

proof fn lemma_parse_records_facts(b: Seq<u8>, n: nat)
    requires
        parse_records(b, n) is Ok,
    ensures
        parse_records(b, n)->Ok_0.len() == n,
        forall|k: int|
            0 <= k < n ==> record_at(b, k) == Ok::<RecordView, WpakError>(
                #[trigger] parse_records(b, n)->Ok_0[k],
            ),
    decreases n,
{
    if n > 0 {
        lemma_parse_records_facts(b, (n - 1) as nat);
    }
}

proof fn lemma_last_with_hash(rs: Seq<RecordView>, h: u64)
    ensures
        match last_with_hash(rs, h) {
            Some(k) => 0 <= k < rs.len() && rs[k].path_hash == h && forall|j: int|
                k < j < rs.len() ==> (#[trigger] rs[j]).path_hash != h,
            None => forall|j: int| 0 <= j < rs.len() ==> (#[trigger] rs[j]).path_hash != h,
        },
    decreases rs.len(),
{
    if rs.len() > 0 {
        lemma_last_with_hash(rs.drop_last(), h);
        assert forall|j: int| 0 <= j < rs.len() - 1 implies rs.drop_last()[j] == rs[j] by {}
    }
}

proof fn lemma_last_guid_with_hash(rs: Seq<RecordView>, h: u64)
    ensures
        match last_guid_with_hash(rs, h) {
            Some(k) => 0 <= k < rs.len() && rs[k].path_hash == h && rs[k].guid != 0 && forall|
                j: int,
            |
                k < j < rs.len() ==> !((#[trigger] rs[j]).path_hash == h && rs[j].guid != 0),
            None => forall|j: int|
                0 <= j < rs.len() ==> !((#[trigger] rs[j]).path_hash == h && rs[j].guid != 0),
        },
    decreases rs.len(),
{
    if rs.len() > 0 {
        lemma_last_guid_with_hash(rs.drop_last(), h);
        assert forall|j: int| 0 <= j < rs.len() - 1 implies rs.drop_last()[j] == rs[j] by {}
    }
}

impl WpakArchive {
    proof fn lemma_parsed(&self)
        requires
            self.parsed(),
        ensures
            header_error(self@.bytes) is None,
            self@.records.len() == header_file_count(self@.bytes),
            forall|k: int|
                0 <= k < self@.records.len() ==> record_at(self@.bytes, k) == Ok::<
                    RecordView,
                    WpakError,
                >(#[trigger] self@.records[k]),
    {
        lemma_parse_records_facts(self@.bytes, header_file_count(self@.bytes) as nat);
    }

    /// The number of entries the header declares.
    pub fn file_count(&self) -> (n: u64)
        ensures
            n == header_file_count(self@.bytes),
            n == self@.records.len(),
    {
        proof {
            use_type_invariant(self);
            self.lemma_parsed();
        }
        read_u64(self.data.as_slice(), 12)
    }

    fn find_last(&self, h: u64) -> (r: Option<usize>)
        ensures
            match r {
                Some(k) => last_with_hash(self@.records, h) == Some(k as int),
                None => last_with_hash(self@.records, h) is None,
            },
    {
        let ghost rs = self@.records;
        let mut k = self.records.len();
        proof {
            assert(rs.take(k as int) =~= rs);
        }
        while k > 0
            invariant
                k <= self.records@.len(),
                rs == self@.records,
                rs.len() == self.records@.len(),
                last_with_hash(rs, h) == last_with_hash(rs.take(k as int), h),
            decreases k,
        {
            k = k - 1;
            proof {
                assert(rs.take(k + 1).drop_last() =~= rs.take(k as int));
                assert(rs.take(k + 1).last() == rs[k as int]);
                assert(rs[k as int] == self.records@[k as int]@);
            }
            if self.records[k].path_hash == h {
                return Some(k);
            }
        }
        None
    }

    fn find_last_guid(&self, h: u64) -> (r: Option<usize>)
        ensures
            match r {
                Some(k) => last_guid_with_hash(self@.records, h) == Some(k as int),
                None => last_guid_with_hash(self@.records, h) is None,
            },
    {
        let ghost rs = self@.records;
        let mut k = self.records.len();
        proof {
            assert(rs.take(k as int) =~= rs);
        }
        while k > 0
            invariant
                k <= self.records@.len(),
                rs == self@.records,
                rs.len() == self.records@.len(),
                last_guid_with_hash(rs, h) == last_guid_with_hash(rs.take(k as int), h),
            decreases k,
        {
            k = k - 1;
            proof {
                assert(rs.take(k + 1).drop_last() =~= rs.take(k as int));
                assert(rs.take(k + 1).last() == rs[k as int]);
                assert(rs[k as int] == self.records@[k as int]@);
            }
            if self.records[k].path_hash == h && self.records[k].guid != 0 {
                return Some(k);
            }
        }
        None
    }

    /// Resolve an asset path to the path stored in the archive (which may
    /// differ in case and separators).
    pub fn resolve_path(&self, path: &str) -> (r: Option<String>)
        ensures
            match r {
                Some(p) => path_for_hash(self@.records, path_hash(path@)) == Some(p@),
                None => path_for_hash(self@.records, path_hash(path@)) is None,
            },
    {
        let h = fnv1a(path);
        match self.find_last(h) {
            Some(k) => {
                proof {
                    lemma_last_with_hash(self@.records, h);
                    assert(self@.records[k as int] == self.records@[k as int]@);
                }
                Some(self.records[k].path.clone())
            },
            None => None,
        }
    }

    /// The GUID stored for an asset path, if it has one.
    pub fn resolve_guid(&self, path: &str) -> (r: Option<u128>)
        ensures
            r == guid_for_hash(self@.records, path_hash(path@)),
    {
        let h = fnv1a(path);
        match self.find_last_guid(h) {
            Some(k) => {
                proof {
                    lemma_last_guid_with_hash(self@.records, h);
                    assert(self@.records[k as int] == self.records@[k as int]@);
                }
                Some(self.records[k].guid)
            },
            None => None,
        }
    }

    /// The stored path of an asset with the given GUID, if there is one.
    pub fn resolve_guid_path(&self, guid: u128) -> (r: Option<String>)
        ensures
            r is None <==> !exists|h: u64| guid_for_hash(self@.records, h) == Some(guid),
            r matches Some(p) ==> exists|h: u64|
                guid_for_hash(self@.records, h) == Some(guid) && path_for_hash(self@.records, h)
                    == Some(p@),
    {
        let ghost rs = self@.records;
        let n = self.records.len();
        let mut k: usize = 0;
        while k < n
            invariant
                n == self.records@.len(),
                rs == self@.records,
                rs.len() == n,
                k <= n,
                forall|j: int|
                    0 <= j < k ==> !(rs[j].guid == guid && last_guid_with_hash(rs, rs[j].path_hash)
                        == Some(j)),
            decreases n - k,
        {
            let h = self.records[k].path_hash;
            proof {
                assert(rs[k as int] == self.records@[k as int]@);
                lemma_last_guid_with_hash(rs, h);
            }
            if self.records[k].guid == guid && guid != 0 {
                match self.find_last_guid(h) {
                    Some(m) => {
                        if m == k {
                            proof {
                                lemma_last_with_hash(rs, h);
                            }
                            match self.find_last(h) {
                                Some(q) => {
                                    proof {
                                        assert(rs[q as int] == self.records@[q as int]@);
                                        assert(guid_for_hash(rs, h) == Some(guid));
                                    }
                                    return Some(self.records[q].path.clone());
                                },
                                None => {
                                    proof {
                                        assert(rs[k as int].path_hash == h);
                                        assert(false);
                                    }
                                },
                            }
                        }
                    },
                    None => {},
                }
            }
            k = k + 1;
        }
        proof {
            assert forall|h: u64| guid_for_hash(rs, h) != Some(guid) by {
                lemma_last_guid_with_hash(rs, h);
                match last_guid_with_hash(rs, h) {
                    Some(j) => {
                        assert(rs[j].path_hash == h);
                    },
                    None => {},
                }
            }
        }
        None
    }

    /// Every (path hash, GUID) pair the archive records, each hash once.
    pub fn all_guids(&self) -> (r: Vec<(u64, u128)>)
        ensures
            forall|i: int|
                0 <= i < r@.len() ==> guid_for_hash(self@.records, (#[trigger] r@[i]).0) == Some(
                    r@[i].1,
                ),
            forall|h: u64|
                #![trigger guid_for_hash(self@.records, h)]
                guid_for_hash(self@.records, h) is Some ==> exists|i: int|
                    0 <= i < r@.len() && (#[trigger] r@[i]).0 == h,
            forall|i: int, j: int| 0 <= i < j < r@.len() ==> (#[trigger] r@[i]).0 != (#[trigger] r@[j]).0,
    {
        let ghost rs = self@.records;
        let n = self.records.len();
        let mut out: Vec<(u64, u128)> = Vec::new();
        let ghost mut idx: Seq<int> = Seq::empty();
        let mut k: usize = 0;
        while k < n
            invariant
                n == self.records@.len(),
                rs == self@.records,
                rs.len() == n,
                k <= n,
                idx.len() == out@.len(),
                forall|i: int|
                    0 <= i < idx.len() ==> 0 <= #[trigger] idx[i] < k && last_guid_with_hash(
                        rs,
                        rs[idx[i]].path_hash,
                    ) == Some(idx[i]) && out@[i] == (rs[idx[i]].path_hash, rs[idx[i]].guid),
                forall|i: int, j: int| 0 <= i < j < idx.len() ==> #[trigger] idx[i] < #[trigger] idx[j],
                forall|j: int|
                    0 <= j < k && last_guid_with_hash(rs, #[trigger] rs[j].path_hash) == Some(j)
                        ==> exists|i: int| 0 <= i < idx.len() && idx[i] == j,
            decreases n - k,
        {
            let h = self.records[k].path_hash;
            let g = self.records[k].guid;
            proof {
                assert(rs[k as int] == self.records@[k as int]@);
                lemma_last_guid_with_hash(rs, h);
            }
            let ghost old_idx = idx;
            if g != 0 {
                match self.find_last_guid(h) {
                    Some(m) => {
                        if m == k {
                            out.push((h, g));
                            proof {
                                idx = idx.push(k as int);
                                assert(idx[idx.len() - 1] == k);
                            }
                        }
                    },
                    None => {},
                }
            }
            proof {
                assert forall|j: int|
                    0 <= j < k && last_guid_with_hash(rs, #[trigger] rs[j].path_hash) == Some(j)
                        implies exists|i: int| 0 <= i < idx.len() && idx[i] == j by {
                    let i = choose|i: int| 0 <= i < old_idx.len() && old_idx[i] == j;
                    assert(idx[i] == j);
                }
            }
            k = k + 1;
        }
        proof {
            assert forall|i: int| 0 <= i < out@.len() implies guid_for_hash(rs, (#[trigger] out@[i]).0) == Some(out@[i].1) by {
                assert(last_guid_with_hash(rs, rs[idx[i]].path_hash) == Some(idx[i]));
            }
            assert forall|h: u64| #![trigger guid_for_hash(rs, h)] guid_for_hash(rs, h) is Some implies exists|i: int|
                0 <= i < out@.len() && (#[trigger] out@[i]).0 == h by {
                lemma_last_guid_with_hash(rs, h);
                let j = last_guid_with_hash(rs, h)->0;
                assert(rs[j].path_hash == h);
                assert(last_guid_with_hash(rs, rs[j].path_hash) == Some(j));
                let i = choose|i: int| 0 <= i < idx.len() && idx[i] == j;
                assert(out@[i].0 == h);
            }
            assert forall|i: int, j: int| 0 <= i < j < out@.len() implies (#[trigger] out@[i]).0 != (#[trigger] out@[j]).0 by {
                assert(idx[i] < idx[j]);
                if out@[i].0 == out@[j].0 {
                    assert(last_guid_with_hash(rs, rs[idx[i]].path_hash) == Some(idx[i]));
                    assert(last_guid_with_hash(rs, rs[idx[j]].path_hash) == Some(idx[j]));
                }
            }
        }
        out
    }

    /// Read (and decompress) the bytes stored for an asset path.
    pub fn read(&self, path: &str) -> (r: Result<Vec<u8>, WpakError>)
        ensures
            match r {
                Ok(v) => read_result(self@.bytes, self@.records, path@) == Ok::<Seq<u8>, WpakError>(
                    v@,
                ),
                Err(e) => read_result(self@.bytes, self@.records, path@) == Err::<
                    Seq<u8>,
                    WpakError,
                >(e),
            },
    {
        proof {
            use_type_invariant(self);
            self.lemma_parsed();
        }
        let h = fnv1a(path);
        let k = match self.find_last(h) {
            Some(k) => k,
            None => {
                return Err(WpakError::NotFound);
            },
        };
        proof {
            lemma_last_with_hash(self@.records, h);
            assert(self@.records[k as int] == self.records@[k as int]@);
            assert(record_at(self@.bytes, k as int) == Ok::<RecordView, WpakError>(self@.records[k as int]));
        }
        let b = self.data.as_slice();
        let _n = b.len();
        let base = self.records[k].base;
        let doff = read_u64(b, base + 16);
        let size = read_u64(b, base + 24);
        let csize = read_u64(b, base + 32);
        let c = Compression::from_id(b[base + 40]);
        let data_offset = read_u64(b, 36);
        let start: u128 = data_offset as u128 + doff as u128;
        let len: u64 = if c == Compression::Raw {
            size
        } else {
            csize
        };
        if start + len as u128 > b.len() as u128 {
            return Err(WpakError::PayloadOutOfRange);
        }
        let s = start as usize;
        let payload = vstd::slice::slice_subrange(b, s, s + len as usize);
        decompress(payload, c)
    }
}

// --- Laws of path hashing ---------------------------------------------------

/// How path hashing sees one ASCII character: backslash as slash, A-Z as a-z.
pub open spec fn fold_path_char(c: char) -> char {
    ascii_lower_char(if c == '\\' { '/' } else { c })
}

proof fn lemma_scheme_end_lower(x: Seq<char>, i: int)
    ensures
        scheme_end_from(ascii_lowercase(x), i) == scheme_end_from(x, i),
    decreases x.len() - i,
{
    let y = ascii_lowercase(x);
    if i < 0 || i + 3 > x.len() {
    } else {
        assert(is_scheme_at(y, i) == is_scheme_at(x, i));
        lemma_scheme_end_lower(x, i + 1);
    }
}

proof fn lemma_lower_commutes(x: Seq<char>)
    ensures
        ascii_lowercase(without_leading_slash(without_drive(without_scheme(x))))
            == without_leading_slash(without_drive(without_scheme(ascii_lowercase(x)))),
{
    lemma_scheme_end_lower(x, 0);
    let w0 = without_scheme(x);
    let wl0 = without_scheme(ascii_lowercase(x));
    lemma_scheme_end_bounds(x, 0);
    match scheme_end_from(x, 0) {
        Some(e) => {
            assert(ascii_lowercase(w0) =~= wl0);
        },
        None => {
            assert(ascii_lowercase(w0) =~= wl0);
        },
    }
    let w = without_drive(w0);
    let wl = without_drive(wl0);
    if w0.len() >= 2 {
        assert(wl0[0] == ascii_lower_char(w0[0]));
        assert(wl0[1] == ascii_lower_char(w0[1]));
        assert(is_drive_letter(w0[0]) == is_drive_letter(wl0[0]));
        assert((w0[1] == ':') == (wl0[1] == ':'));
    }
    assert(ascii_lowercase(w) =~= wl);
    if w.len() > 0 {
        assert(ascii_lowercase(w)[0] == ascii_lower_char(w[0]));
    }
    assert(ascii_lowercase(without_leading_slash(w)) =~= without_leading_slash(wl));
}

proof fn lemma_slash_normalized_ascii(s: Seq<char>)
    ensures
        all_ascii(s) ==> all_ascii(slash_normalized(s)),
{
    if all_ascii(s) {
        let f = forward_slashes(s);
        assert(all_ascii(f)) by {
            assert forall|i: int| 0 <= i < f.len() implies (#[trigger] f[i] as u32) < 128 by {
                assert((s[i] as u32) < 128);
            }
        }
        let w = without_scheme(f);
        assert(all_ascii(w)) by {
            match scheme_end_from(f, 0) {
                Some(e) => {
                    lemma_scheme_end_bounds(f, 0);
                    assert forall|i: int| 0 <= i < w.len() implies (#[trigger] w[i] as u32) < 128 by {
                        assert(w[i] == f[i + e]);
                    }
                },
                None => {},
            }
        }
        let d = without_drive(w);
        assert(all_ascii(d)) by {
            assert forall|i: int| 0 <= i < d.len() implies (#[trigger] d[i] as u32) < 128 by {
                if w.len() >= 2 && is_drive_letter(w[0]) && w[1] == ':' {
                    assert(d[i] == w[i + 2]);
                }
            }
        }
        let t = without_leading_slash(d);
        assert forall|i: int| 0 <= i < t.len() implies (#[trigger] t[i] as u32) < 128 by {
            if d.len() > 0 && d[0] == '/' {
                assert(t[i] == d[i + 1]);
            }
        }
    }
}

proof fn lemma_scheme_end_bounds(s: Seq<char>, i: int)
    ensures
        scheme_end_from(s, i) matches Some(e) ==> 0 <= e <= s.len(),
    decreases s.len() - i,
{
    if i < 0 || i + 3 > s.len() {
    } else if !is_scheme_at(s, i) {
        lemma_scheme_end_bounds(s, i + 1);
    }
}

/// Path hashing ignores letter case and slash direction: two ASCII paths that
/// agree once backslashes become slashes and letters become lowercase have
/// the same path hash.
pub proof fn lemma_path_hash_ignores_case_and_separators(a: Seq<char>, b: Seq<char>)
    requires
        a.map_values(|c: char| fold_path_char(c)) == b.map_values(|c: char| fold_path_char(c)),
    ensures
        ascii_path_hash(a) == ascii_path_hash(b),
{
    lemma_lower_commutes(forward_slashes(a));
    lemma_lower_commutes(forward_slashes(b));
    assert(ascii_lowercase(forward_slashes(a)) =~= a.map_values(|c: char| fold_path_char(c)));
    assert(ascii_lowercase(forward_slashes(b)) =~= b.map_values(|c: char| fold_path_char(c)));
}

} // verus!
