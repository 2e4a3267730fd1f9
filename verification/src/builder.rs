//! The archive builder: adds, overwrites, removes and imports entries of a
//! GRF archive held in memory, and writes its file table and header.

use vstd::prelude::*;
use vstd::string::*;
use crate::archive::{has_path, map_of, position_of, unique_paths, Binding, EntryIndex};
use crate::archive::{lemma_map_of_at, GenericFileEntry, IndexSlot};
use crate::crypto::{encrypt_file_content, encrypt_file_name, pad_to_block, scrambled};
use crate::crypto::{scrambled_name, zero_padded};
use crate::dyn_alloc::{AvailableChunkList, FreeSpace};
use crate::encoding::{le32, push_bytes, push_le32, serialize_to_win1252, win1252};
use crate::encoding::{serialize_as_win1252_cstr_into, win1252_representable};
use crate::error::{AllocError, GrufError};
use crate::zlib::{zlib_compress, zlib_stream};

verus! {

/// Length of the archive header in bytes.
pub const GRF_HEADER_SIZE: usize = 46;

/// The bytes every archive starts with: the format's name and a NUL.
pub const GRF_HEADER_MAGIC: [u8; 16] = [
    0x4d, 0x61, 0x73, 0x74, 0x65, 0x72, 0x20, 0x6f,
    0x66, 0x20, 0x4d, 0x61, 0x67, 0x69, 0x63, 0x00,
];

/// The key field of the header, which is the same in every archive.
pub const GRF_FIXED_KEY: [u8; 14] = [1, 2, 3, 4, 5, 6, 7, 8, 9, 10, 11, 12, 13, 14];

/// Bias that the format adds to the number of entries in the header.
pub const GRF_FILE_COUNT_BIAS: usize = 7;

/// Entry type of a regular file.
pub const ENTRY_TYPE_FILE: u8 = 1;

/// How a stored payload of a version 1 archive is scrambled.
#[derive(Clone, Copy, Debug, PartialEq, Eq, Structural)]
pub enum GrfFileEncryption {
    Unencrypted,
    /// Scrambled with the given cycle.
    Encrypted(usize),
}

/// Ten to the power `k`.
pub open spec fn pow10(k: nat) -> nat
    decreases k,
{
    if k == 0 {
        1
    } else {
        10 * pow10((k - 1) as nat)
    }
}

/// Number of decimal digits of `n`; zero has one digit.
pub open spec fn digits(n: nat) -> nat
    decreases n,
{
    if n < 10 {
        1
    } else {
        1 + digits(n / 10)
    }
}

/// Number of decimal digits of `n`; zero has one digit. The result `r` is
/// the one number with `10^(r-1) <= max(n, 1) < 10^r`.
pub fn digit_count(n: usize) -> (r: usize)
    ensures
        r == digits(n as nat),
        r >= 1,
        pow10((r - 1) as nat) <= (if n == 0 { 1 } else { n as int }) < pow10(r as nat),
{
    let mut result: usize = 1;
    let mut m: usize = n;
    assert(pow10(0) == 1);
    assert(pow10(0) * m == m && pow10(0) * (m + 1) == m + 1) by (nonlinear_arith)
        requires
            pow10(0) == 1,
    ;
    while m >= 10
        invariant
            1 <= result <= 40,
            pow10((result - 1) as nat) * m <= n,
            n < pow10((result - 1) as nat) * (m + 1),
            result == 1 || m >= 1,
            pow10((result - 1) as nat) >= 1,
            digits(n as nat) == digits(m as nat) + result - 1,
        decreases m,
    {
        proof {
            let q = pow10((result - 1) as nat) as int;
            let m1 = (m / 10) as int;
            assert(pow10(result as nat) == 10 * q);
            assert(10 * q * m1 <= q * m) by (nonlinear_arith)
                requires
                    q >= 1,
                    10 * m1 <= m,
            ;
            assert(q * (m + 1) <= 10 * q * (m1 + 1)) by (nonlinear_arith)
                requires
                    q >= 1,
                    m + 1 <= 10 * (m1 + 1),
            ;
            // Each division by ten leaves at least the leading digit, so
            // the count stays far below its bound.
            assert(result < 40) by {
                if result >= 21 {
                    lemma_pow10_exceeds_u64();
                    lemma_pow10_monotonic(20, (result - 1) as nat);
                    assert(q * m >= q) by (nonlinear_arith)
                        requires
                            q >= 1,
                            m >= 1,
                    ;
                }
            }
        }
        m = m / 10;
        result += 1;
    }
    proof {
        let q = pow10((result - 1) as nat) as int;
        assert(pow10(result as nat) == 10 * q);
        if m >= 1 {
            assert(q <= q * m) by (nonlinear_arith)
                requires
                    q >= 1,
                    m >= 1,
            ;
            assert(q * (m + 1) <= 10 * q) by (nonlinear_arith)
                requires
                    q >= 1,
                    m + 1 <= 10,
            ;
        } else {
            assert(q * (m + 1) == q) by (nonlinear_arith)
                requires
                    m == 0,
            ;
        }
    }
    result
}

/// Ten to the twentieth exceeds every 64-bit number.
pub proof fn lemma_pow10_exceeds_u64()
    ensures
        pow10(20) > u64::MAX,
{
    reveal_with_fuel(pow10, 21);
}

/// Powers of ten do not decrease with the exponent, and are positive.
pub proof fn lemma_pow10_monotonic(a: nat, b: nat)
    requires
        a <= b,
    ensures
        1 <= pow10(a) <= pow10(b),
    decreases b,
{
    if b == 0 {
    } else if a == b {
        lemma_pow10_monotonic(0, (b - 1) as nat);
    } else {
        lemma_pow10_monotonic(a, (b - 1) as nat);
    }
}

/// Whether `s` ends with the characters of `tail`.
pub open spec fn ends_with(s: Seq<char>, tail: Seq<char>) -> bool {
    s.len() >= tail.len() && s.subrange(s.len() - tail.len(), s.len() as int) == tail
}

/// Whether a path names one of the file kinds whose payload is ciphered in
/// its head only. The comparison is exact in case.
pub open spec fn has_special_extension(path: Seq<char>) -> bool {
    ||| ends_with(path, seq!['.', 'g', 'n', 'd'])
    ||| ends_with(path, seq!['.', 'g', 'a', 't'])
    ||| ends_with(path, seq!['.', 'a', 'c', 't'])
    ||| ends_with(path, seq!['.', 's', 't', 'r'])
}

/// The cycle with which a payload of `size` bytes stored under `path` is
/// scrambled.
pub open spec fn cycle_of(path: Seq<char>, size: nat) -> nat {
    if has_special_extension(path) {
        0
    } else {
        digits(size)
    }
}

/// Chooses how the payload of a version 1 entry is scrambled: with cycle
/// zero for the four special file kinds, and otherwise with the number of
/// decimal digits of the payload's padded length.
pub fn determine_file_encryption(file_name: &str, size_compressed: usize) -> (r: GrfFileEncryption)
    ensures
        r matches GrfFileEncryption::Encrypted(c) && c == cycle_of(
            file_name@,
            size_compressed as nat,
        ),
{
    let n: usize = file_name.unicode_len();
    if n >= 4 {
        let c0 = file_name.get_char(n - 4);
        let c1 = file_name.get_char(n - 3);
        let c2 = file_name.get_char(n - 2);
        let c3 = file_name.get_char(n - 1);
        let ghost tail = file_name@.subrange(n - 4, n as int);
        assert(tail =~= seq![c0, c1, c2, c3]);
        let special: bool = c0 == '.' && ((c1 == 'g' && c2 == 'n' && c3 == 'd') || (c1 == 'g' && c2
            == 'a' && c3 == 't') || (c1 == 'a' && c2 == 'c' && c3 == 't') || (c1 == 's' && c2
            == 't' && c3 == 'r'));
        proof {
            let a = seq!['.', 'g', 'n', 'd'];
            let b = seq!['.', 'g', 'a', 't'];
            let c = seq!['.', 'a', 'c', 't'];
            let d = seq!['.', 's', 't', 'r'];
            assert(tail == a <==> (c0 == '.' && c1 == 'g' && c2 == 'n' && c3 == 'd')) by {
                assert(a[0] == '.' && a[1] == 'g' && a[2] == 'n' && a[3] == 'd');
                if c0 == '.' && c1 == 'g' && c2 == 'n' && c3 == 'd' {
                    assert(tail =~= a);
                }
            }
            assert(tail == b <==> (c0 == '.' && c1 == 'g' && c2 == 'a' && c3 == 't')) by {
                assert(b[0] == '.' && b[1] == 'g' && b[2] == 'a' && b[3] == 't');
                if c0 == '.' && c1 == 'g' && c2 == 'a' && c3 == 't' {
                    assert(tail =~= b);
                }
            }
            assert(tail == c <==> (c0 == '.' && c1 == 'a' && c2 == 'c' && c3 == 't')) by {
                assert(c[0] == '.' && c[1] == 'a' && c[2] == 'c' && c[3] == 't');
                if c0 == '.' && c1 == 'a' && c2 == 'c' && c3 == 't' {
                    assert(tail =~= c);
                }
            }
            assert(tail == d <==> (c0 == '.' && c1 == 's' && c2 == 't' && c3 == 'r')) by {
                assert(d[0] == '.' && d[1] == 's' && d[2] == 't' && d[3] == 'r');
                if c0 == '.' && c1 == 's' && c2 == 't' && c3 == 'r' {
                    assert(tail =~= d);
                }
            }
            assert(special == has_special_extension(file_name@));
        }
        if special {
            return GrfFileEncryption::Encrypted(0);
        }
    }
    GrfFileEncryption::Encrypted(digit_count(size_compressed))
}

/// The stored form of a compressed payload. Archives of version 2 store
/// the compressor's output as it is; archives of version 1 fill it up with
/// zero bytes to a multiple of eight and scramble it.
pub open spec fn encoded_payload(major: u32, path: Seq<char>, compressed: Seq<u8>) -> Seq<u8> {
    if major >= 2 {
        compressed
    } else {
        let padded = zero_padded(compressed);
        scrambled(padded, cycle_of(path, padded.len()) as int)
    }
}

/// Turns the compressor's output for the entry `path` into the bytes that
/// are stored in an archive of major version `major`.
pub fn encode_payload(major: u32, path: &str, compressed: Vec<u8>) -> (r: Vec<u8>)
    requires
        compressed@.len() + 8 <= usize::MAX,
    ensures
        r@ == encoded_payload(major, path@, compressed@),
        major < 2 ==> r@.len() % 8 == 0,
        r@.len() >= compressed@.len(),
        r@.len() < compressed@.len() + 8,
{
    let mut data = compressed;
    if major < 2 {
        pad_to_block(&mut data);
        match determine_file_encryption(path, data.len()) {
            GrfFileEncryption::Encrypted(cycle) => {
                encrypt_file_content(&mut data, cycle);
            },
            GrfFileEncryption::Unencrypted => {},
        }
    }
    data
}

/// `image` after `data` was written at `offset`: the file grows as far as
/// the write reaches, and a gap between the old end and the write is filled
/// with zero bytes.
pub open spec fn written(image: Seq<u8>, offset: int, data: Seq<u8>) -> Seq<u8> {
    Seq::new(
        if image.len() >= offset + data.len() {
            image.len()
        } else {
            (offset + data.len()) as nat
        },
        |i: int|
            if offset <= i < offset + data.len() {
                data[i - offset]
            } else if i < image.len() {
                image[i]
            } else {
                0u8
            },
    )
}

/// Writes `data` into `image` at `offset`.
pub fn write_at(image: &mut Vec<u8>, offset: usize, data: &[u8])
    requires
        offset + data@.len() <= usize::MAX,
    ensures
        final(image)@ == written(old(image)@, offset as int, data@),
{
    let end: usize = offset + data.len();
    let ghost orig = image@;
    while image.len() < end
        invariant
            orig.len() <= image@.len(),
            image@.len() <= end || image@.len() == orig.len(),
            forall|i: int| 0 <= i < orig.len() ==> image@[i] == orig[i],
            forall|i: int| orig.len() <= i < image@.len() ==> image@[i] == 0u8,
        decreases end - image@.len(),
    {
        image.push(0u8);
    }
    let mut k: usize = 0;
    while k < data.len()
        invariant
            k <= data@.len(),
            end == offset + data@.len(),
            image@.len() >= end,
            image@.len() == written(orig, offset as int, data@).len(),
            forall|i: int|
                0 <= i < image@.len() ==> #[trigger] image@[i] == if offset <= i < offset + k {
                    data@[i - offset]
                } else if i < orig.len() {
                    orig[i]
                } else {
                    0u8
                },
        decreases data@.len() - k,
    {
        image.set(offset + k, data[k]);
        k += 1;
    }
    assert(image@ =~= written(orig, offset as int, data@));
}

/// The fixed-size record that a version 2 table holds for an entry. Both
/// compressed sizes are written as the compressed size; the offset counts
/// from the end of the header.
pub open spec fn record_200(e: GenericFileEntry) -> Seq<u8> {
    le32(e.size_compressed) + le32(e.size_compressed) + le32(e.size) + seq![e.entry_type] + le32(
        (e.offset - GRF_HEADER_SIZE) as u32,
    )
}

/// One row of a version 2 table: the path as a C string in Windows-1252,
/// then the record.
pub open spec fn row_200(b: Binding) -> Seq<u8> {
    win1252(b.0) + seq![0u8] + record_200(b.1)
}

/// One row of a version 1 table: the length of the scrambled name plus six,
/// two zero bytes, the scrambled name, four zero bytes, then the sizes in
/// their biased form, the type and the offset from the end of the header.
pub open spec fn row_1xx(b: Binding) -> Seq<u8> {
    let name = scrambled_name(win1252(b.0));
    let e = b.1;
    le32((name.len() + 6) as u32) + seq![0u8, 0u8] + name + seq![0u8, 0u8, 0u8, 0u8] + le32(
        ((e.size_compressed + e.size + 0x02CB) % 0x1_0000_0000) as u32,
    ) + le32(((e.size_compressed_aligned + 0x92CB) % 0x1_0000_0000) as u32) + le32(e.size)
        + seq![e.entry_type] + le32((e.offset - GRF_HEADER_SIZE) as u32)
}

/// Whether a binding can be written as a table row: its path has a
/// Windows-1252 form, its offset from the end of the header fits 32 bits,
/// and in a version 1 table the length of its scrambled name does too.
pub open spec fn row_fits(major: u32, b: Binding) -> bool {
    &&& win1252_representable(b.0)
    &&& GRF_HEADER_SIZE <= b.1.offset
    &&& b.1.offset - GRF_HEADER_SIZE <= u32::MAX
    &&& (major == 1 ==> b.0.len() + 16 <= u32::MAX)
}

/// Whether every binding can be written as a table row.
pub open spec fn rows_fit(major: u32, s: Seq<Binding>) -> bool {
    forall|i: int| 0 <= i < s.len() ==> row_fits(major, #[trigger] s[i])
}

/// The uncompressed file table of major version `major`: one row for each
/// binding, in iteration order.
pub open spec fn table_bytes(major: u32, s: Seq<Binding>) -> Seq<u8>
    decreases s.len(),
{
    if s.len() == 0 {
        Seq::<u8>::empty()
    } else {
        table_bytes(major, s.drop_last()) + (if major == 1 {
            row_1xx(s.last())
        } else {
            row_200(s.last())
        })
    }
}

/// The block that a version 2 archive stores for its table: the length of
/// the compressed table, the length of the table, and the compressed table.
pub open spec fn framed_table(table_len: u32, compressed: Seq<u8>) -> Seq<u8> {
    le32(compressed.len() as u32) + le32(table_len) + compressed
}

/// The version word of the header.
pub open spec fn version_word(major: u32, minor: u32) -> u32 {
    (major << 8) | minor
}

/// The archive header: magic, key, offset of the file table from the end of
/// the header, a zero seed, the biased number of entries, and the version.
pub open spec fn header_bytes(version: u32, table_offset: u32, file_count: u32) -> Seq<u8> {
    GRF_HEADER_MAGIC@ + GRF_FIXED_KEY@ + le32(table_offset) + le32(0) + le32(file_count) + le32(
        version,
    )
}

/// The bytes of the archive header.
pub fn write_grf_header(version: u32, file_table_offset: u32, v_file_count: u32) -> (r: Vec<u8>)
    ensures
        r@ == header_bytes(version, file_table_offset, v_file_count),
        r@.len() == GRF_HEADER_SIZE,
{
    let mut out: Vec<u8> = Vec::new();
    push_bytes(&mut out, &GRF_HEADER_MAGIC);
    push_bytes(&mut out, &GRF_FIXED_KEY);
    push_le32(&mut out, file_table_offset);
    push_le32(&mut out, 0);
    push_le32(&mut out, v_file_count);
    push_le32(&mut out, version);
    out
}

/// The block that a version 2 archive stores for its table.
pub fn frame_table_200(table_len: u32, compressed: &[u8]) -> (r: Result<Vec<u8>, GrufError>)
    ensures
        match r {
            Ok(v) => compressed@.len() <= u32::MAX && v@ == framed_table(table_len, compressed@),
            Err(e) => e == GrufError::Serialization && compressed@.len() > u32::MAX,
        },
{
    if compressed.len() > u32::MAX as usize {
        return Err(GrufError::Serialization);
    }
    let mut out: Vec<u8> = Vec::new();
    push_le32(&mut out, compressed.len() as u32);
    push_le32(&mut out, table_len);
    push_bytes(&mut out, compressed);
    Ok(out)
}

/// Appends the version 2 table row of the entry `e` bound to `path`.
/// Nothing is appended when the path has no Windows-1252 form.
fn push_row_200(table: &mut Vec<u8>, path: &str, e: GenericFileEntry) -> (r: Result<(), GrufError>)
    requires
        GRF_HEADER_SIZE <= e.offset,
        e.offset - GRF_HEADER_SIZE <= u32::MAX,
    ensures
        match r {
            Ok(()) => win1252_representable(path@) && final(table)@ == old(table)@ + row_200(
                (path@, e),
            ),
            Err(err) => err == GrufError::Serialization && !win1252_representable(path@)
                && final(table)@ == old(table)@,
        },
{
    match serialize_as_win1252_cstr_into(table, path) {
        Ok(()) => {},
        Err(err) => {
            return Err(err);
        },
    }
    push_le32(table, e.size_compressed);
    push_le32(table, e.size_compressed);
    push_le32(table, e.size);
    table.push(e.entry_type);
    push_le32(table, (e.offset - GRF_HEADER_SIZE as u64) as u32);
    assert(table@ =~= old(table)@ + row_200((path@, e)));
    Ok(())
}

/// Appends the version 1 table row of the entry `e` bound to `path`.
/// Nothing is appended when the path has no Windows-1252 form.
fn push_row_1xx(table: &mut Vec<u8>, path: &str, e: GenericFileEntry) -> (r: Result<(), GrufError>)
    requires
        GRF_HEADER_SIZE <= e.offset,
        e.offset - GRF_HEADER_SIZE <= u32::MAX,
        path@.len() + 16 <= u32::MAX,
    ensures
        match r {
            Ok(()) => win1252_representable(path@) && final(table)@ == old(table)@ + row_1xx(
                (path@, e),
            ),
            Err(err) => err == GrufError::Serialization && !win1252_representable(path@)
                && final(table)@ == old(table)@,
        },
{
    let name = match serialize_to_win1252(path) {
        Ok(v) => v,
        Err(err) => {
            return Err(err);
        },
    };
    let scrambled = encrypt_file_name(name.as_slice());
    let mut row: Vec<u8> = Vec::new();
    push_le32(&mut row, (scrambled.len() + 6) as u32);
    row.push(0u8);
    row.push(0u8);
    push_bytes(&mut row, scrambled.as_slice());
    row.push(0u8);
    row.push(0u8);
    row.push(0u8);
    row.push(0u8);
    let total: u64 = (e.size_compressed as u64 + e.size as u64 + 0x02CB) % 0x1_0000_0000;
    push_le32(&mut row, total as u32);
    let aligned: u64 = (e.size_compressed_aligned as u64 + 0x92CB) % 0x1_0000_0000;
    push_le32(&mut row, aligned as u32);
    push_le32(&mut row, e.size);
    row.push(e.entry_type);
    push_le32(&mut row, (e.offset - GRF_HEADER_SIZE as u64) as u32);
    assert(row@ =~= row_1xx((path@, e)));
    push_bytes(table, row.as_slice());
    Ok(())
}

/// What a source archive holds for one path: the descriptor's sizes and
/// type, and the stored bytes.
#[derive(Clone, Debug)]
pub struct RawEntry {
    pub size: u32,
    pub size_compressed: u32,
    pub size_compressed_aligned: u32,
    pub entry_type: u8,
    pub data: Vec<u8>,
}

/// What was fetched from a source archive for an import.
#[derive(Clone, Debug)]
pub enum ImportSource {
    /// The source has no entry for the path.
    Missing,
    /// The entry as the source stores it.
    Raw(RawEntry),
    /// The entry's content, decoded.
    Content(Vec<u8>),
}

/// Whether stored bytes of a GRF archive of major version `source` can be
/// copied as they are into one of major version `target`: both are version
/// 2 or later, or both are earlier.
pub open spec fn raw_compatible(target: u32, source: u32) -> bool {
    (target >= 2 && source >= 2) || (target < 2 && source < 2)
}

/// The bindings that a listing of slots stands for.
pub open spec fn listed(slots: Seq<IndexSlot>) -> Seq<Binding> {
    Seq::new(slots.len(), |i: int| (slots[i].path@, slots[i].entry))
}

/// Whether the descriptor `e` is sound for an archive of major version
/// `major` whose file is `file_len` bytes long.
pub open spec fn sound_entry(major: u32, file_len: int, e: GenericFileEntry) -> bool {
    &&& e.offset >= GRF_HEADER_SIZE
    &&& e.size_compressed <= e.size_compressed_aligned
    &&& e.offset + e.size_compressed_aligned <= file_len
    &&& (major == 1 ==> e.size_compressed_aligned % 8 == 0)
}

/// No path occurs twice in the listing, and every descriptor is sound.
pub open spec fn sound_descriptors(major: u32, file_len: int, s: Seq<Binding>) -> bool {
    &&& unique_paths(s)
    &&& forall|i: int| 0 <= i < s.len() ==> sound_entry(major, file_len, (#[trigger] s[i]).1)
}

/// No two payloads of the listing share a byte.
pub open spec fn payloads_apart(s: Seq<Binding>) -> bool {
    forall|i: int, j: int|
        0 <= i < j < s.len() ==> (#[trigger] s[i]).1.apart((#[trigger] s[j]).1)
}

/// Whether a builder can take over an archive with this listing: no path
/// occurs twice, every descriptor is sound, and no two payloads share a
/// byte.
pub open spec fn sound_listing(major: u32, file_len: int, s: Seq<Binding>) -> bool {
    sound_descriptors(major, file_len, s) && payloads_apart(s)
}

/// Mathematical model of a builder: the archive's bytes, its version, the
/// index in iteration order, and the free-space map.
pub struct ArchiveState {
    pub image: Seq<u8>,
    pub finished: bool,
    /// Where `finish` put the file table; zero before that.
    pub table_offset: u64,
    pub version_major: u32,
    pub version_minor: u32,
    pub bindings: Seq<Binding>,
    pub free: FreeSpace,
}

impl ArchiveState {
    /// The index as a mapping from path to descriptor.
    pub open spec fn entries(self) -> Map<Seq<char>, GenericFileEntry> {
        map_of(self.bindings)
    }

    /// What holds of every indexed entry: its payload lies behind the
    /// header and inside the file, none of its bytes is free, and in a
    /// version 1 archive its footprint is a multiple of eight.
    pub open spec fn entry_ok(self, e: GenericFileEntry) -> bool {
        &&& e.offset >= GRF_HEADER_SIZE
        &&& e.size_compressed <= e.size_compressed_aligned
        &&& e.offset + e.size_compressed_aligned <= self.image.len()
        &&& self.free.none_free(e.offset as int, e.size_compressed_aligned as int)
        &&& (self.version_major == 1 ==> e.size_compressed_aligned % 8 == 0)
    }

    /// The invariant of a builder.
    pub open spec fn wf(self) -> bool {
        &&& unique_paths(self.bindings)
        &&& self.free.wf()
        &&& self.free.limit == usize::MAX
        &&& self.free.tail >= GRF_HEADER_SIZE
        &&& GRF_HEADER_SIZE <= self.image.len() <= usize::MAX
        &&& forall|p: int| #[trigger] self.free.is_free(p) ==> p >= GRF_HEADER_SIZE
        &&& forall|i: int|
            0 <= i < self.bindings.len() ==> self.entry_ok((#[trigger] self.bindings[i]).1)
        &&& forall|i: int, j: int|
            0 <= i < j < self.bindings.len() ==> (#[trigger] self.bindings[i]).1.apart(
                (#[trigger] self.bindings[j]).1,
            )
    }

    /// Whether some indexed payload holds byte position `p`.
    pub open spec fn in_use(self, p: int) -> bool {
        exists|i: int| 0 <= i < self.bindings.len() && (#[trigger] self.bindings[i]).1.covers(p)
    }

    /// Every byte between the header and the end of the used part of the
    /// file is either free or belongs to an indexed payload.
    pub open spec fn covered(self) -> bool {
        forall|p: int|
            GRF_HEADER_SIZE <= p < self.free.tail ==> #[trigger] self.free.is_free(p)
                || self.in_use(p)
    }

    /// The stored bytes of the entry `e`.
    pub open spec fn content(self, e: GenericFileEntry) -> Seq<u8> {
        self.image.subrange(e.offset as int, e.offset + e.size_compressed_aligned)
    }

    /// The same archive apart from its index, free-space map and bytes.
    pub open spec fn same_archive(self, pre: ArchiveState) -> bool {
        &&& self.finished == pre.finished
        &&& self.table_offset == pre.table_offset
        &&& self.version_major == pre.version_major
        &&& self.version_minor == pre.version_minor
    }

    /// What storing `payload` under `path` with descriptor `e` does: the
    /// path is bound to `e`, whose place is the one the allocator chose, and
    /// the payload is written there. For a path that was bound the place is
    /// a resize of the old compressed length, after which the padding
    /// behind that length is handed back too; for a new path it is a first
    /// fit.
    pub open spec fn stored(
        self,
        pre: ArchiveState,
        path: Seq<char>,
        e: GenericFileEntry,
        payload: Seq<u8>,
    ) -> bool {
        &&& self.same_archive(pre)
        &&& self.image == written(pre.image, e.offset as int, payload)
        &&& self.bindings == if has_path(pre.bindings, path) {
            pre.bindings.update(position_of(pre.bindings, path), (path, e))
        } else {
            pre.bindings.push((path, e))
        }
        &&& if has_path(pre.bindings, path) {
            let d = pre.bindings[position_of(pre.bindings, path)].1;
            &&& self.free.limit == pre.free.limit
            &&& exists|mid: FreeSpace|
                mid.wf() && mid.limit == pre.free.limit && #[trigger] mid.realloc_ok(
                    pre.free,
                    d.offset as int,
                    d.size_compressed as int,
                    payload.len() as int,
                    e.offset as int,
                ) && self.free.gave(
                    mid,
                    d.offset + d.size_compressed,
                    d.size_compressed_aligned - d.size_compressed,
                )
        } else {
            &&& self.free.limit == pre.free.limit
            &&& pre.free.first_fit(payload.len() as int, e.offset as int)
            &&& self.free.took(pre.free, e.offset as int, payload.len() as int)
        }
    }

    /// Whether byte `p` belongs to what storing under `path` hands back to
    /// the allocator: the footprint of the entry that the path is bound to.
    pub open spec fn releases(self, path: Seq<char>, p: int) -> bool {
        has_path(self.bindings, path) && self.bindings[position_of(self.bindings, path)].1.covers(
            p,
        )
    }

    /// The free bytes `free` are those of `self` after the range of `path`
    /// was released and `[off, off + n)` taken, and the range taken was
    /// free or released.
    pub open spec fn replaced(self, free: FreeSpace, path: Seq<char>, off: int, n: int) -> bool {
        &&& off >= GRF_HEADER_SIZE
        &&& off + n <= usize::MAX
        &&& forall|p: int|
            off <= p < off + n ==> #[trigger] self.free.is_free(p) || self.releases(path, p)
        &&& forall|p: int|
            #![trigger free.is_free(p)]
            #![trigger self.free.is_free(p)]
            free.is_free(p) <==> ((self.free.is_free(p) || self.releases(path, p)) && !(off <= p
                < off + n))
    }

    /// The allocator's answer to a store, read as a change of the free
    /// bytes.
    #[verifier::rlimit(40)]
    #[verifier::spinoff_prover]
    pub proof fn lemma_placed(self, free: FreeSpace, path: Seq<char>, off: int, n: int)
        requires
            self.wf(),
            free.wf(),
            free.limit == self.free.limit,
            0 <= n,
            0 <= off,
            if has_path(self.bindings, path) {
                let d = self.bindings[position_of(self.bindings, path)].1;
                exists|mid: FreeSpace|
                    mid.wf() && mid.limit == self.free.limit && #[trigger] mid.realloc_ok(
                        self.free,
                        d.offset as int,
                        d.size_compressed as int,
                        n,
                        off,
                    ) && free.gave(
                        mid,
                        d.offset + d.size_compressed,
                        d.size_compressed_aligned - d.size_compressed,
                    )
            } else {
                self.free.first_fit(n, off) && free.took(self.free, off, n)
            },
        ensures
            self.replaced(free, path, off, n),
    {
        if has_path(self.bindings, path) {
            let k = position_of(self.bindings, path);
            let d = self.bindings[k].1;
            let cut = d.offset + d.size_compressed;
            let mid = choose|mid: FreeSpace|
                mid.wf() && mid.limit == self.free.limit && #[trigger] mid.realloc_ok(
                    self.free,
                    d.offset as int,
                    d.size_compressed as int,
                    n,
                    off,
                ) && free.gave(mid, cut, d.size_compressed_aligned - d.size_compressed);
            assert(self.entry_ok(d));
            assert(self.free.none_free(d.offset as int, d.size_compressed as int)) by {
                assert forall|p: int|
                    d.offset <= p < d.offset + d.size_compressed implies !#[trigger] self.free.is_free(
                    p,
                ) by {
                    assert(d.offset <= p < d.offset + d.size_compressed_aligned);
                }
            }
            mid.lemma_realloc_summary(
                self.free,
                d.offset as int,
                d.size_compressed as int,
                n,
                off,
            );
            // The padding was neither free nor released, so the range taken
            // keeps clear of it.
            assert forall|p: int|
                cut <= p < d.offset + d.size_compressed_aligned implies !#[trigger] self.free.is_free(
                p,
            ) && !(off <= p < off + n) by {
                assert(self.free.none_free(
                    d.offset as int,
                    d.size_compressed_aligned as int,
                ));
                assert(!self.free.is_free(p));
                if off <= p < off + n {
                    assert(self.free.is_free(p) || d.offset <= p < d.offset + d.size_compressed);
                }
            }
            assert forall|p: int|
                #![trigger free.is_free(p)]
                #![trigger self.free.is_free(p)]
                free.is_free(p) <==> ((self.free.is_free(p) || self.releases(path, p)) && !(off <= p
                    < off + n)) by {
                assert(free.is_free(p) <==> (mid.is_free(p) || cut <= p < cut + (
                d.size_compressed_aligned - d.size_compressed)));
                assert(mid.is_free(p) <==> ((self.free.is_free(p) || d.offset <= p < d.offset
                    + d.size_compressed) && !(off <= p < off + n)));
                if cut <= p < d.offset + d.size_compressed_aligned {
                    assert(!self.free.is_free(p) && !(off <= p < off + n));
                }
            }
            if n > 0 {
                let last = off + n - 1;
                assert(!mid.is_free(last));
                assert(last < mid.tail);
            } else {
                assert(off == d.offset);
            }
            assert(off >= GRF_HEADER_SIZE) by {
                if off != d.offset && !(d.offset <= off < d.offset + d.size_compressed) {
                    assert(self.free.is_free(off));
                }
            }
            assert(off + n <= usize::MAX);
            assert forall|p: int| off <= p < off + n implies #[trigger] self.free.is_free(p)
                || self.releases(path, p) by {}
        } else {
            assert(self.free.window_free(off, n));
            assert(self.free.is_free(off));
            assert(off >= GRF_HEADER_SIZE);
            assert(off + n <= usize::MAX);
            assert forall|p: int| off <= p < off + n implies #[trigger] self.free.is_free(p) by {}
            assert forall|p: int|
                #![trigger free.is_free(p)]
                #![trigger self.free.is_free(p)]
                free.is_free(p) <==> ((self.free.is_free(p) || self.releases(path, p)) && !(off <= p
                    < off + n)) by {}
        }
    }

    /// Storing a payload keeps the invariant, writes the payload where the
    /// new descriptor says, and leaves the stored bytes of every other entry
    /// as they were.
    #[verifier::rlimit(40)]
    #[verifier::spinoff_prover]
    pub proof fn lemma_store_wf(
        self,
        pre: ArchiveState,
        path: Seq<char>,
        e: GenericFileEntry,
        payload: Seq<u8>,
    )
        requires
            pre.wf(),
            self.free.wf(),
            self.free.limit == pre.free.limit,
            self.same_archive(pre),
            self.image == written(pre.image, e.offset as int, payload),
            self.bindings == if has_path(pre.bindings, path) {
                pre.bindings.update(position_of(pre.bindings, path), (path, e))
            } else {
                pre.bindings.push((path, e))
            },
            pre.replaced(self.free, path, e.offset as int, payload.len() as int),
            e.size_compressed <= e.size_compressed_aligned == payload.len(),
            pre.version_major == 1 ==> payload.len() % 8 == 0,
        ensures
            self.wf(),
            self.content(e) == payload,
            forall|i: int|
                0 <= i < pre.bindings.len() && (#[trigger] pre.bindings[i]).0 != path
                    ==> self.content(pre.bindings[i].1) == pre.content(pre.bindings[i].1),
            pre.covered() ==> self.covered(),
    {
        let has = has_path(pre.bindings, path);
        let k = if has {
            position_of(pre.bindings, path)
        } else {
            pre.bindings.len() as int
        };
        let off = e.offset as int;
        let n = payload.len() as int;
        if has {
            crate::archive::lemma_map_of_update(pre.bindings, k, e);
            assert(pre.bindings[k].0 == path);
        } else {
            crate::archive::lemma_map_of_push(pre.bindings, path, e);
        }
        assert(self.bindings[k] == (path, e));
        assert(self.bindings.len() == if has {
            pre.bindings.len()
        } else {
            pre.bindings.len() + 1
        });
        // Every other entry keeps clear of the released range and of the
        // range taken.
        assert forall|i: int, p: int|
            0 <= i < pre.bindings.len() && i != k && #[trigger] pre.bindings[i].1.covers(
                p,
            ) implies !pre.free.is_free(p) && !pre.releases(path, p) && !(off <= p < off + n)
            && !self.free.is_free(p) by {
            let x = pre.bindings[i].1;
            assert(pre.entry_ok(x));
            assert(!pre.free.is_free(p));
            if has {
                let d = pre.bindings[k].1;
                assert(pre.entry_ok(d));
                if i < k {
                    assert(x.apart(d));
                    assert(!(x.covers(p) && d.covers(p)));
                } else {
                    assert(d.apart(x));
                    assert(!(d.covers(p) && x.covers(p)));
                }
            }
            if off <= p < off + n {
                assert(pre.free.is_free(p) || pre.releases(path, p));
            }
        }
        assert forall|p: int| #[trigger] self.free.is_free(p) implies p >= GRF_HEADER_SIZE by {
            if !pre.free.is_free(p) {
                assert(pre.releases(path, p));
                assert(pre.entry_ok(pre.bindings[k].1));
            }
        }
        assert(self.free.is_free(self.free.tail));
        assert forall|i: int| 0 <= i < self.bindings.len() implies self.entry_ok(
            (#[trigger] self.bindings[i]).1,
        ) by {
            if i == k {
                assert forall|p: int| off <= p < off + n implies !#[trigger] self.free.is_free(
                    p,
                ) by {}
            } else {
                let x = pre.bindings[i].1;
                assert(self.bindings[i] == pre.bindings[i]);
                assert(pre.entry_ok(x));
                assert forall|p: int|
                    x.offset <= p < x.offset + x.size_compressed_aligned implies !#[trigger] self.free.is_free(
                    p,
                ) by {
                    assert(pre.bindings[i].1.covers(p));
                }
            }
        }
        assert forall|i: int, j: int| 0 <= i < j < self.bindings.len() implies (
        #[trigger] self.bindings[i]).1.apart((#[trigger] self.bindings[j]).1) by {
            if i != k && j != k {
                assert(self.bindings[i] == pre.bindings[i]);
                assert(self.bindings[j] == pre.bindings[j]);
                assert(pre.bindings[i].1.apart(pre.bindings[j].1));
            } else {
                let o = if i == k {
                    j
                } else {
                    i
                };
                assert(self.bindings[o] == pre.bindings[o]);
                assert forall|p: int|
                    !(#[trigger] self.bindings[i].1.covers(p) && self.bindings[j].1.covers(p)) by {
                    if pre.bindings[o].1.covers(p) {
                        assert(!(off <= p < off + n));
                    }
                }
            }
        }
        assert(self.wf());
        assert(self.content(e) =~= payload);
        assert forall|i: int|
            0 <= i < pre.bindings.len() && (#[trigger] pre.bindings[i]).0 != path
                implies self.content(pre.bindings[i].1) == pre.content(pre.bindings[i].1) by {
            let x = pre.bindings[i].1;
            assert(i != k);
            assert(pre.entry_ok(x));
            assert forall|q: int| 0 <= q < x.size_compressed_aligned implies self.content(x)[q]
                == pre.content(x)[q] by {
                assert(pre.bindings[i].1.covers(x.offset + q));
            }
            assert(self.content(x) =~= pre.content(x));
        }
        if pre.covered() {
            assert forall|p: int| GRF_HEADER_SIZE <= p < self.free.tail implies #[trigger] self.free.is_free(
            p) || self.in_use(p) by {
                if !self.free.is_free(p) {
                    if off <= p < off + n {
                        assert(self.bindings[k].1.covers(p));
                    } else {
                        assert(!pre.free.is_free(p));
                        assert(!pre.releases(path, p));
                        assert(p < pre.free.tail);
                        assert(pre.in_use(p));
                        let i = choose|i: int|
                            0 <= i < pre.bindings.len() && (#[trigger] pre.bindings[i]).1.covers(p);
                        assert(i != k);
                        assert(self.bindings[i] == pre.bindings[i]);
                        assert(self.bindings[i].1.covers(p));
                    }
                }
            }
        }
    }

    /// What a successful store leaves behind: `path` is bound to a
    /// descriptor with the given sizes and type whose footprint is the
    /// payload's length, the payload stands at its place, every other entry
    /// and its stored bytes are as before, and no byte has leaked.
    pub open spec fn store_ok(
        self,
        pre: ArchiveState,
        path: Seq<char>,
        size: u32,
        size_compressed: u32,
        entry_type: u8,
        payload: Seq<u8>,
    ) -> bool {
        let e = self.entries()[path];
        &&& self.entries() == pre.entries().insert(path, e)
        &&& e.size == size
        &&& e.size_compressed == size_compressed
        &&& e.size_compressed_aligned == payload.len()
        &&& e.entry_type == entry_type
        &&& self.stored(pre, path, e, payload)
        &&& self.content(e) == payload
        &&& forall|i: int|
            0 <= i < pre.bindings.len() && (#[trigger] pre.bindings[i]).0 != path ==> self.content(
                pre.bindings[i].1,
            ) == pre.content(pre.bindings[i].1)
        &&& (pre.covered() ==> self.covered())
    }

    /// What adding a file whose content is `size` bytes long and
    /// compresses to `compressed` leaves behind.
    pub open spec fn add_ok(
        self,
        pre: ArchiveState,
        path: Seq<char>,
        size: u32,
        compressed: Seq<u8>,
    ) -> bool {
        self.store_ok(
            pre,
            path,
            size,
            compressed.len() as u32,
            ENTRY_TYPE_FILE,
            encoded_payload(pre.version_major, path, compressed),
        )
    }

    /// Why a file that compresses to `compressed` cannot be added.
    pub open spec fn add_refused(self, path: Seq<char>, compressed: Seq<u8>, err: GrufError) -> bool {
        if compressed.len() > u32::MAX || compressed.len() + 8 > usize::MAX {
            err == GrufError::Serialization
        } else {
            self.store_refused(
                path,
                compressed.len() as u32,
                encoded_payload(self.version_major, path, compressed),
                err,
            )
        }
    }

    /// What removing `path` leaves behind: the path is unbound, the
    /// footprint of its payload is free again, and the file's bytes are
    /// untouched.
    pub open spec fn removed(self, pre: ArchiveState, path: Seq<char>) -> bool {
        &&& self.same_archive(pre)
        &&& self.image == pre.image
        &&& self.entries() == pre.entries().remove(path)
        &&& self.free.limit == pre.free.limit
        &&& if has_path(pre.bindings, path) {
            let k = position_of(pre.bindings, path);
            let d = pre.bindings[k].1;
            &&& self.bindings == pre.bindings.remove(k)
            &&& self.free.gave(pre.free, d.offset as int, d.size_compressed_aligned as int)
        } else {
            &&& self.bindings == pre.bindings
            &&& self.free == pre.free
        }
        &&& (pre.covered() ==> self.covered())
    }

    /// Removing an entry keeps the invariant.
    #[verifier::rlimit(40)]
    #[verifier::spinoff_prover]
    pub proof fn lemma_remove_wf(self, pre: ArchiveState, path: Seq<char>)
        requires
            pre.wf(),
            has_path(pre.bindings, path),
            self.free.wf(),
            self.free.limit == pre.free.limit,
            self.same_archive(pre),
            self.image == pre.image,
            self.bindings == pre.bindings.remove(position_of(pre.bindings, path)),
            self.free.gave(
                pre.free,
                pre.bindings[position_of(pre.bindings, path)].1.offset as int,
                pre.bindings[position_of(pre.bindings, path)].1.size_compressed_aligned as int,
            ),
        ensures
            self.wf(),
            pre.covered() ==> self.covered(),
    {
        let k = position_of(pre.bindings, path);
        let d = pre.bindings[k].1;
        crate::archive::lemma_map_of_remove(pre.bindings, k);
        assert(pre.entry_ok(d));
        assert forall|i: int| 0 <= i < self.bindings.len() implies #[trigger] self.bindings[i] == (
        if i < k {
            pre.bindings[i]
        } else {
            pre.bindings[i + 1]
        }) by {}
        assert forall|p: int| #[trigger] self.free.is_free(p) implies p >= GRF_HEADER_SIZE by {}
        assert(self.free.is_free(self.free.tail));
        assert forall|i: int| 0 <= i < self.bindings.len() implies self.entry_ok(
            (#[trigger] self.bindings[i]).1,
        ) by {
            let i0 = if i < k {
                i
            } else {
                i + 1
            };
            let x = pre.bindings[i0].1;
            assert(self.bindings[i].1 == x);
            assert(pre.entry_ok(x));
            assert forall|p: int|
                x.offset <= p < x.offset + x.size_compressed_aligned implies !#[trigger] self.free.is_free(
                p,
            ) by {
                assert(!pre.free.is_free(p));
                if i0 < k {
                    assert(x.apart(d));
                    assert(!(x.covers(p) && d.covers(p)));
                } else {
                    assert(d.apart(x));
                    assert(!(d.covers(p) && x.covers(p)));
                }
            }
        }
        assert forall|i: int, j: int| 0 <= i < j < self.bindings.len() implies (
        #[trigger] self.bindings[i]).1.apart((#[trigger] self.bindings[j]).1) by {
            let i0 = if i < k {
                i
            } else {
                i + 1
            };
            let j0 = if j < k {
                j
            } else {
                j + 1
            };
            assert(pre.bindings[i0].1.apart(pre.bindings[j0].1));
        }
        if pre.covered() {
            assert forall|p: int| GRF_HEADER_SIZE <= p < self.free.tail implies #[trigger] self.free.is_free(
            p) || self.in_use(p) by {
                if !self.free.is_free(p) {
                    assert(!pre.free.is_free(p));
                    assert(p < pre.free.tail);
                    assert(pre.in_use(p));
                    let i = choose|i: int|
                        0 <= i < pre.bindings.len() && (#[trigger] pre.bindings[i]).1.covers(p);
                    assert(i != k);
                    let i1 = if i < k {
                        i
                    } else {
                        i - 1
                    };
                    assert(self.bindings[i1] == pre.bindings[i]);
                    assert(self.bindings[i1].1.covers(p));
                }
            }
        }
    }

    /// What writing the table block `block` and the header does, and when
    /// it is refused. On success the block stands at the first fit for its
    /// length, the header at the start of the file points to it, and the
    /// index and every stored payload are as before. On a refusal the file
    /// is untouched and the same bytes are free as before; where the first
    /// fit lies too far for the header's field, the place is handed back.
    pub open spec fn committed(
        self,
        pre: ArchiveState,
        res: Result<(), GrufError>,
        block: Seq<u8>,
    ) -> bool {
        let off = self.table_offset as int;
        let n = block.len() as int;
        &&& self.finished
        &&& self.bindings == pre.bindings
        &&& self.version_major == pre.version_major
        &&& self.version_minor == pre.version_minor
        &&& self.free.limit == pre.free.limit
        &&& match res {
            Ok(()) => {
                &&& pre.bindings.len() + GRF_FILE_COUNT_BIAS <= i32::MAX
                &&& pre.free.first_fit(n, off)
                &&& self.free.took(pre.free, off, n)
                &&& GRF_HEADER_SIZE <= off
                &&& off - GRF_HEADER_SIZE <= u32::MAX
                &&& self.image == written(
                    written(pre.image, off, block),
                    0,
                    header_bytes(
                        version_word(pre.version_major, pre.version_minor),
                        (off - GRF_HEADER_SIZE) as u32,
                        (pre.bindings.len() + GRF_FILE_COUNT_BIAS) as u32,
                    ),
                )
                &&& forall|i: int|
                    0 <= i < pre.bindings.len() ==> self.content((#[trigger] pre.bindings[i]).1)
                        == pre.content(pre.bindings[i].1)
            },
            Err(e) => {
                &&& self.image == pre.image
                &&& if pre.bindings.len() + GRF_FILE_COUNT_BIAS > i32::MAX {
                    e == GrufError::Serialization && self.free == pre.free
                } else if pre.free.no_window(n) {
                    e == GrufError::Allocator(AllocError::OutOfSpace) && self.free == pre.free
                } else {
                    &&& e == GrufError::Serialization
                    &&& pre.free.first_fit(n, off)
                    &&& off - GRF_HEADER_SIZE > u32::MAX
                    &&& forall|p: int| #[trigger] self.free.is_free(p) <==> pre.free.is_free(p)
                }
            },
        }
    }

    /// What framing and placing a version 2 table of `table_len` bytes that
    /// compresses to `packed` does: refused with a serialization error, and
    /// nothing but the finished mark changed, when one of the two lengths
    /// does not fit 32 bits; otherwise the framed block is committed.
    pub open spec fn table_framed(
        self,
        pre: ArchiveState,
        res: Result<(), GrufError>,
        table_len: int,
        packed: Seq<u8>,
    ) -> bool {
        if table_len > u32::MAX || packed.len() > u32::MAX {
            &&& res == Err::<(), GrufError>(GrufError::Serialization)
            &&& self == ArchiveState { finished: true, ..pre }
        } else {
            self.committed(pre, res, framed_table(table_len as u32, packed))
        }
    }

    /// What finishing an archive that is not yet finished does. A major
    /// version other than 1 and 2 is refused as invalid, and rows that
    /// cannot be written as a serialization error; in both cases nothing
    /// but the finished mark changes. A version 1 table is committed as it
    /// is. A version 2 table goes through the codec: where the codec
    /// fails, the error is `Io` and nothing but the finished mark changes;
    /// otherwise the compressed table is framed and committed.
    pub open spec fn finished_from(self, pre: ArchiveState, res: Result<(), GrufError>) -> bool {
        let table = table_bytes(pre.version_major, pre.bindings);
        if pre.version_major != 1 && pre.version_major != 2 {
            &&& res == Err::<(), GrufError>(GrufError::InvalidVersion)
            &&& self == ArchiveState { finished: true, ..pre }
        } else if !rows_fit(pre.version_major, pre.bindings) {
            &&& res == Err::<(), GrufError>(GrufError::Serialization)
            &&& self == ArchiveState { finished: true, ..pre }
        } else if pre.version_major == 1 {
            self.committed(pre, res, table)
        } else {
            match zlib_stream(table) {
                None => {
                    &&& res == Err::<(), GrufError>(GrufError::Io)
                    &&& self == ArchiveState { finished: true, ..pre }
                },
                Some(packed) => self.table_framed(pre, res, table.len() as int, packed),
            }
        }
    }

    /// The outcome of storing `payload` under `path`: stored, or refused
    /// with nothing changed.
    pub open spec fn raw_stored(
        self,
        pre: ArchiveState,
        res: Result<(), GrufError>,
        path: Seq<char>,
        size: u32,
        size_compressed: u32,
        entry_type: u8,
        payload: Seq<u8>,
    ) -> bool {
        match res {
            Ok(()) => self.store_ok(pre, path, size, size_compressed, entry_type, payload),
            Err(err) => self == pre && pre.store_refused(path, size_compressed, payload, err),
        }
    }

    /// The outcome of adding a file with content `data` under `path`.
    /// Content longer than a 32-bit size is refused with a serialization
    /// error. Where the codec fails, the error is `Io`. Otherwise the
    /// compressed content is encoded and stored, or refused. Nothing
    /// changes on an error.
    pub open spec fn file_added(
        self,
        pre: ArchiveState,
        res: Result<(), GrufError>,
        path: Seq<char>,
        data: Seq<u8>,
    ) -> bool {
        if data.len() > u32::MAX {
            res == Err::<(), GrufError>(GrufError::Serialization) && self == pre
        } else {
            match zlib_stream(data) {
                None => res == Err::<(), GrufError>(GrufError::Io) && self == pre,
                Some(compressed) => match res {
                    Ok(()) => self.add_ok(pre, path, data.len() as u32, compressed),
                    Err(err) => self == pre && pre.add_refused(path, compressed, err),
                },
            }
        }
    }

    /// The free bytes are exactly the bytes behind the header that no
    /// indexed payload holds.
    pub open spec fn exact(self) -> bool {
        forall|p: int|
            #![trigger self.free.is_free(p)]
            #![trigger self.in_use(p)]
            self.free.is_free(p) <==> (p >= GRF_HEADER_SIZE && !self.in_use(p))
    }

    /// Whether an entry found in an existing archive can be taken into the
    /// index: its path is new, its descriptor is sound for this file, and
    /// its place is free.
    pub open spec fn adoptable(self, path: Seq<char>, e: GenericFileEntry) -> bool {
        &&& !has_path(self.bindings, path)
        &&& e.offset >= GRF_HEADER_SIZE
        &&& e.size_compressed <= e.size_compressed_aligned
        &&& e.offset + e.size_compressed_aligned <= self.image.len()
        &&& (self.version_major == 1 ==> e.size_compressed_aligned % 8 == 0)
        &&& self.free.all_free(e.offset as int, e.size_compressed_aligned as int)
    }

    /// Taking a sound entry into the index keeps the invariant, and keeps
    /// the free bytes exact.
    #[verifier::rlimit(40)]
    #[verifier::spinoff_prover]
    pub proof fn lemma_adopt_wf(self, pre: ArchiveState, path: Seq<char>, e: GenericFileEntry)
        requires
            pre.wf(),
            pre.exact(),
            pre.adoptable(path, e),
            self.free.wf(),
            self.free.limit == pre.free.limit,
            self.same_archive(pre),
            self.image == pre.image,
            self.bindings == pre.bindings.push((path, e)),
            self.free.took(pre.free, e.offset as int, e.size_compressed_aligned as int),
        ensures
            self.wf(),
            self.exact(),
    {
        let k = pre.bindings.len() as int;
        crate::archive::lemma_map_of_push(pre.bindings, path, e);
        assert(self.bindings[k] == (path, e));
        assert forall|p: int| #[trigger] self.free.is_free(p) implies p >= GRF_HEADER_SIZE by {
            assert(pre.free.is_free(p));
        }
        assert(self.free.is_free(self.free.tail));
        assert forall|i: int| 0 <= i < self.bindings.len() implies self.entry_ok(
            (#[trigger] self.bindings[i]).1,
        ) by {
            if i < k {
                let x = pre.bindings[i].1;
                assert(self.bindings[i] == pre.bindings[i]);
                assert(pre.entry_ok(x));
                assert forall|p: int|
                    x.offset <= p < x.offset + x.size_compressed_aligned implies !#[trigger] self.free.is_free(
                    p,
                ) by {
                    assert(!pre.free.is_free(p));
                }
            }
        }
        assert forall|i: int, j: int| 0 <= i < j < self.bindings.len() implies (
        #[trigger] self.bindings[i]).1.apart((#[trigger] self.bindings[j]).1) by {
            assert(self.bindings[i] == pre.bindings[i]);
            if j < k {
                assert(self.bindings[j] == pre.bindings[j]);
                assert(pre.bindings[i].1.apart(pre.bindings[j].1));
            } else {
                let x = pre.bindings[i].1;
                assert(pre.entry_ok(x));
                assert forall|p: int| !(#[trigger] x.covers(p) && e.covers(p)) by {
                    if x.covers(p) && e.covers(p) {
                        assert(!pre.free.is_free(p));
                        assert(pre.free.is_free(p));
                    }
                }
            }
        }
        assert forall|p: int|
            #![trigger self.free.is_free(p)]
            #![trigger self.in_use(p)]
            self.free.is_free(p) <==> (p >= GRF_HEADER_SIZE && !self.in_use(p)) by {
            assert(pre.free.is_free(p) <==> (p >= GRF_HEADER_SIZE && !pre.in_use(p)));
            if pre.in_use(p) {
                let i = choose|i: int|
                    0 <= i < pre.bindings.len() && (#[trigger] pre.bindings[i]).1.covers(p);
                assert(self.bindings[i] == pre.bindings[i]);
                assert(self.bindings[i].1.covers(p));
            }
            if e.covers(p) {
                assert(self.bindings[k].1.covers(p));
            }
            if self.in_use(p) {
                let i = choose|i: int|
                    0 <= i < self.bindings.len() && (#[trigger] self.bindings[i]).1.covers(p);
                if i < k {
                    assert(self.bindings[i] == pre.bindings[i]);
                    assert(pre.bindings[i].1.covers(p));
                }
            }
        }
    }

    /// Why `payload` cannot be stored under `path`, if it cannot.
    pub open spec fn store_refused(
        self,
        path: Seq<char>,
        size_compressed: u32,
        payload: Seq<u8>,
        err: GrufError,
    ) -> bool {
        if payload.len() > u32::MAX || size_compressed > payload.len() || (self.version_major == 1
            && payload.len() % 8 != 0) {
            err == GrufError::Serialization
        } else if has_path(self.bindings, path) {
            let d = self.bindings[position_of(self.bindings, path)].1;
            err matches GrufError::Allocator(a) && self.free.realloc_refused(
                d.offset as int,
                d.size_compressed as int,
                payload.len() as int,
                a,
            )
        } else {
            err == GrufError::Allocator(AllocError::OutOfSpace) && self.free.no_window(
                payload.len() as int,
            )
        }
    }
}

/// Builds a GRF archive in memory. Payloads are placed by a first-fit
/// allocator that reuses the space of overwritten and removed entries; the
/// file table and the header are written by `finish`.
pub struct GrfArchiveBuilder {
    image: Vec<u8>,
    finished: bool,
    table_offset: u64,
    version_major: u32,
    version_minor: u32,
    entries: EntryIndex,
    chunks: AvailableChunkList,
}

impl View for GrfArchiveBuilder {
    type V = ArchiveState;

    closed spec fn view(&self) -> ArchiveState {
        ArchiveState {
            image: self.image@,
            finished: self.finished,
            table_offset: self.table_offset,
            version_major: self.version_major,
            version_minor: self.version_minor,
            bindings: self.entries.bindings(),
            free: self.chunks@,
        }
    }
}

impl GrfArchiveBuilder {
    /// A builder for a fresh archive: the header's place is reserved and
    /// filled with zero bytes, the index is empty, and all space behind the
    /// header is free. Major versions other than 1 and 2 are refused.
    pub fn create(version_major: u32, version_minor: u32) -> (r: Result<Self, GrufError>)
        ensures
            match r {
                Ok(b) => {
                    &&& version_major == 1 || version_major == 2
                    &&& b@.wf()
                    &&& b@.covered()
                    &&& !b@.finished
                    &&& b@.version_major == version_major
                    &&& b@.version_minor == version_minor
                    &&& b@.bindings.len() == 0
                    &&& b@.image == Seq::new(GRF_HEADER_SIZE as nat, |i: int| 0u8)
                    &&& b@.free.chunks.len() == 0
                    &&& b@.free.tail == GRF_HEADER_SIZE
                    &&& b@.free.limit == usize::MAX
                },
                Err(e) => e == GrufError::InvalidVersion && version_major != 1 && version_major
                    != 2,
            },
    {
        if version_major != 1 && version_major != 2 {
            return Err(GrufError::InvalidVersion);
        }
        let mut image: Vec<u8> = Vec::new();
        while image.len() < GRF_HEADER_SIZE
            invariant
                image@.len() <= GRF_HEADER_SIZE,
                forall|i: int| 0 <= i < image@.len() ==> image@[i] == 0u8,
            decreases GRF_HEADER_SIZE - image@.len(),
        {
            image.push(0u8);
        }
        assert(image@ =~= Seq::new(GRF_HEADER_SIZE as nat, |i: int| 0u8));
        let b = GrfArchiveBuilder {
            image,
            finished: false,
            table_offset: 0,
            version_major,
            version_minor,
            entries: EntryIndex::new(),
            chunks: AvailableChunkList::new(GRF_HEADER_SIZE as u64, usize::MAX as u64),
        };
        Ok(b)
    }

    /// Finds the place for `n` bytes that take over from the indexed entry
    /// `d`: the allocator resizes the compressed length of `d`, and the
    /// padding behind that length is handed back. Nothing changes on an
    /// error.
    fn resize_place(&mut self, d: GenericFileEntry, n: usize) -> (res: Result<u64, AllocError>)
        requires
            old(self)@.wf(),
            old(self)@.entry_ok(d),
        ensures
            final(self).chunks@.wf(),
            final(self).chunks@.limit == old(self)@.free.limit,
            final(self).image@ == old(self).image@,
            final(self).entries == old(self).entries,
            final(self)@.same_archive(old(self)@),
            match res {
                Ok(off) => exists|mid: FreeSpace|
                    mid.wf() && mid.limit == old(self)@.free.limit && #[trigger] mid.realloc_ok(
                        old(self)@.free,
                        d.offset as int,
                        d.size_compressed as int,
                        n as int,
                        off as int,
                    ) && final(self)@.free.gave(
                        mid,
                        d.offset + d.size_compressed,
                        d.size_compressed_aligned - d.size_compressed,
                    ),
                Err(a) => final(self)@ == old(self)@ && old(self)@.free.realloc_refused(
                    d.offset as int,
                    d.size_compressed as int,
                    n as int,
                    a,
                ),
            },
    {
        let ghost pre = self@;
        let offset = match self.chunks.realloc_chunk(d.offset, d.size_compressed as usize, n) {
            Ok(offset) => offset,
            Err(a) => {
                return Err(a);
            },
        };
        let ghost mid = self.chunks@;
        let padding: u32 = d.size_compressed_aligned - d.size_compressed;
        proof {
            assert(pre.free.none_free(d.offset as int, d.size_compressed as int)) by {
                assert forall|p: int|
                    d.offset <= p < d.offset + d.size_compressed implies !#[trigger] pre.free.is_free(
                    p,
                ) by {
                    assert(d.offset <= p < d.offset + d.size_compressed_aligned);
                }
            }
            mid.lemma_realloc_summary(
                pre.free,
                d.offset as int,
                d.size_compressed as int,
                n as int,
                offset as int,
            );
            assert forall|p: int|
                d.offset + d.size_compressed <= p < d.offset + d.size_compressed_aligned implies !#[trigger] mid.is_free(
                p,
            ) by {
                assert(!pre.free.is_free(p));
            }
        }
        if padding > 0 {
            match self.chunks.free_chunk(d.offset + d.size_compressed as u64, padding as usize) {
                Ok(()) => {},
                Err(a) => {
                    return Err(a);
                },
            }
        }
        assert(mid.realloc_ok(
            pre.free,
            d.offset as int,
            d.size_compressed as int,
            n as int,
            offset as int,
        ));
        Ok(offset)
    }

    /// Stores `payload` as the stored bytes of `relative_path` and binds the
    /// path to a descriptor with the given sizes and type. The place comes
    /// from the allocator: a resize of the old place when the path is bound,
    /// else a first fit. Refused, with nothing changed, when the payload is
    /// longer than a 32-bit size, shorter than `size_compressed`, not a
    /// multiple of eight in a version 1 archive, or when the allocator
    /// refuses.
    #[verifier::rlimit(40)]
    #[verifier::spinoff_prover]
    pub fn store_payload(
        &mut self,
        relative_path: String,
        size: u32,
        size_compressed: u32,
        entry_type: u8,
        payload: &[u8],
    ) -> (res: Result<(), GrufError>)
        requires
            old(self)@.wf(),
        ensures
            final(self)@.wf(),
            final(self)@.raw_stored(
                old(self)@,
                res,
                relative_path@,
                size,
                size_compressed,
                entry_type,
                payload@,
            ),
    {
        let n: usize = payload.len();
        if n > u32::MAX as usize || size_compressed as usize > n || (self.version_major == 1 && n
            % 8 != 0) {
            return Err(GrufError::Serialization);
        }
        let ghost pre = self@;
        let ghost path = relative_path@;
        let bound = self.entries.get(&relative_path);
        proof {
            if has_path(pre.bindings, path) {
                lemma_map_of_at(pre.bindings, position_of(pre.bindings, path));
            }
        }
        let placed = match bound {
            Some(d) => self.resize_place(d, n),
            None => self.chunks.alloc_chunk(n),
        };
        match placed {
            Err(a) => Err(GrufError::Allocator(a)),
            Ok(offset) => {
                proof {
                    pre.lemma_placed(self.chunks@, path, offset as int, n as int);
                }
                write_at(&mut self.image, offset as usize, payload);
                let e = GenericFileEntry {
                    offset,
                    size,
                    size_compressed,
                    size_compressed_aligned: n as u32,
                    entry_type,
                };
                self.entries.insert(relative_path, e);
                proof {
                    self@.lemma_store_wf(pre, path, e, payload@);
                }
                Ok(())
            },
        }
    }

    /// Adds the file `relative_path` with the compressor's output
    /// `compressed` for its content of `size` bytes, overwriting the entry
    /// if the path is bound. The payload is encoded as the archive's version
    /// asks and stored as a regular file.
    pub fn add_compressed(&mut self, relative_path: String, size: u32, compressed: Vec<u8>) -> (res:
        Result<(), GrufError>)
        requires
            old(self)@.wf(),
        ensures
            final(self)@.wf(),
            match res {
                Ok(()) => final(self)@.add_ok(old(self)@, relative_path@, size, compressed@),
                Err(err) => {
                    &&& final(self)@ == old(self)@
                    &&& old(self)@.add_refused(relative_path@, compressed@, err)
                },
            },
    {
        let n: usize = compressed.len();
        if n > u32::MAX as usize || n > usize::MAX - 8 {
            return Err(GrufError::Serialization);
        }
        let payload = encode_payload(self.version_major, relative_path.as_str(), compressed);
        self.store_payload(relative_path, size, n as u32, ENTRY_TYPE_FILE, payload.as_slice())
    }

    /// Adds the file `relative_path` with content `data`, overwriting the
    /// entry if the path is bound. The content is compressed, encoded as
    /// the archive's version asks, and stored at a place chosen by the
    /// allocator. Content longer than a 32-bit size is refused.
    pub fn add_file(&mut self, relative_path: String, data: &[u8]) -> (res: Result<(), GrufError>)
        requires
            old(self)@.wf(),
        ensures
            final(self)@.wf(),
            final(self)@.file_added(old(self)@, res, relative_path@, data@),
    {
        if data.len() > u32::MAX as usize {
            return Err(GrufError::Serialization);
        }
        match zlib_compress(data) {
            Some(compressed) => self.add_compressed(relative_path, data.len() as u32, compressed),
            None => Err(GrufError::Io),
        }
    }

    /// Removes the entry `relative_path` and hands the footprint of its
    /// payload back to the allocator. Tells whether the path was bound.
    pub fn remove_file(&mut self, relative_path: &String) -> (res: Result<bool, GrufError>)
        requires
            old(self)@.wf(),
        ensures
            final(self)@.wf(),
            res == Ok::<bool, GrufError>(old(self)@.entries().contains_key(relative_path@)),
            final(self)@.removed(old(self)@, relative_path@),
    {
        let ghost pre = self@;
        let ghost path = relative_path@;
        match self.entries.get(relative_path) {
            None => {
                assert(pre.entries().remove(path) =~= pre.entries());
                Ok(false)
            },
            Some(d) => {
                proof {
                    let k = position_of(pre.bindings, path);
                    lemma_map_of_at(pre.bindings, k);
                    assert(pre.entry_ok(d));
                }
                match self.chunks.free_chunk(d.offset, d.size_compressed_aligned as usize) {
                    Ok(()) => {
                        self.entries.remove(relative_path);
                        proof {
                            self@.lemma_remove_wf(pre, path);
                        }
                        Ok(true)
                    },
                    Err(e) => Err(GrufError::Allocator(e)),
                }
            },
        }
    }

    /// The rows of a version 2 file table, not yet compressed. Refused when
    /// a path has no Windows-1252 form or an offset does not fit 32 bits.
    #[verifier::rlimit(40)]
    #[verifier::spinoff_prover]
    pub fn write_grf_table_200(&self) -> (r: Result<Vec<u8>, GrufError>)
        requires
            self@.wf(),
        ensures
            match r {
                Ok(t) => rows_fit(2, self@.bindings) && t@ == table_bytes(2, self@.bindings),
                Err(e) => e == GrufError::Serialization && !rows_fit(2, self@.bindings),
            },
    {
        let ghost all = self@.bindings;
        let mut table: Vec<u8> = Vec::new();
        let n: usize = self.entries.len();
        let mut i: usize = 0;
        while i < n
            invariant
                i <= n,
                n == all.len(),
                all == self@.bindings,
                rows_fit(2, all.subrange(0, i as int)),
                table@ == table_bytes(2, all.subrange(0, i as int)),
            decreases n - i,
        {
            let slot = self.entries.slot(i);
            let e = slot.entry;
            if e.offset < GRF_HEADER_SIZE as u64 || e.offset - GRF_HEADER_SIZE as u64
                > u32::MAX as u64 {
                assert(!row_fits(2, all[i as int]));
                return Err(GrufError::Serialization);
            }
            let ghost before = table@;
            match push_row_200(&mut table, slot.path.as_str(), e) {
                Ok(()) => {},
                Err(err) => {
                    assert(!row_fits(2, all[i as int]));
                    return Err(err);
                },
            }
            proof {
                let next = all.subrange(0, i + 1);
                assert(next.drop_last() =~= all.subrange(0, i as int));
                assert(next.last() == all[i as int]);
                assert(table@ =~= before + row_200(all[i as int]));
                assert forall|j: int| 0 <= j < next.len() implies row_fits(2, #[trigger] next[j]) by {
                    if j < i {
                        assert(all.subrange(0, i as int)[j] == next[j]);
                    }
                }
            }
            i += 1;
        }
        assert(all.subrange(0, n as int) =~= all);
        Ok(table)
    }

    /// The rows of a version 1 file table. Refused when a path has no
    /// Windows-1252 form, or a name length or an offset does not fit 32
    /// bits.
    #[verifier::rlimit(40)]
    #[verifier::spinoff_prover]
    pub fn write_grf_table_1xx(&self) -> (r: Result<Vec<u8>, GrufError>)
        requires
            self@.wf(),
        ensures
            match r {
                Ok(t) => rows_fit(1, self@.bindings) && t@ == table_bytes(1, self@.bindings),
                Err(e) => e == GrufError::Serialization && !rows_fit(1, self@.bindings),
            },
    {
        let ghost all = self@.bindings;
        let mut table: Vec<u8> = Vec::new();
        let n: usize = self.entries.len();
        let mut i: usize = 0;
        while i < n
            invariant
                i <= n,
                n == all.len(),
                all == self@.bindings,
                rows_fit(1, all.subrange(0, i as int)),
                table@ == table_bytes(1, all.subrange(0, i as int)),
            decreases n - i,
        {
            let slot = self.entries.slot(i);
            let e = slot.entry;
            if e.offset < GRF_HEADER_SIZE as u64 || e.offset - GRF_HEADER_SIZE as u64
                > u32::MAX as u64 || slot.path.as_str().unicode_len() > (u32::MAX - 16) as usize {
                assert(!row_fits(1, all[i as int]));
                return Err(GrufError::Serialization);
            }
            let ghost before = table@;
            match push_row_1xx(&mut table, slot.path.as_str(), e) {
                Ok(()) => {},
                Err(err) => {
                    assert(!row_fits(1, all[i as int]));
                    return Err(err);
                },
            }
            proof {
                let next = all.subrange(0, i + 1);
                assert(next.drop_last() =~= all.subrange(0, i as int));
                assert(next.last() == all[i as int]);
                assert(table@ =~= before + row_1xx(all[i as int]));
                assert forall|j: int| 0 <= j < next.len() implies row_fits(1, #[trigger] next[j]) by {
                    if j < i {
                        assert(all.subrange(0, i as int)[j] == next[j]);
                    }
                }
            }
            i += 1;
        }
        assert(all.subrange(0, n as int) =~= all);
        Ok(table)
    }

    /// Writes the table block `block` at the first fit for its length and
    /// the header at the start of the file, and marks the archive finished.
    #[verifier::rlimit(40)]
    #[verifier::spinoff_prover]
    pub fn commit_table(&mut self, block: &[u8]) -> (res: Result<(), GrufError>)
        requires
            old(self)@.wf(),
        ensures
            final(self)@.wf(),
            final(self)@.committed(old(self)@, res, block@),
    {
        let ghost pre = self@;
        self.finished = true;
        let count: usize = self.entries.len();
        if count > i32::MAX as usize - GRF_FILE_COUNT_BIAS {
            return Err(GrufError::Serialization);
        }
        let offset = match self.chunks.alloc_chunk(block.len()) {
            Ok(offset) => offset,
            Err(a) => {
                return Err(GrufError::Allocator(a));
            },
        };
        self.table_offset = offset;
        proof {
            assert(pre.free.window_free(offset as int, block@.len() as int));
            assert(pre.free.is_free(offset as int));
            assert forall|p: int| #[trigger] self@.free.is_free(p) implies p >= GRF_HEADER_SIZE by {
                assert(pre.free.is_free(p));
            }
            assert(self@.free.is_free(self@.free.tail));
            assert forall|i: int| 0 <= i < self@.bindings.len() implies self@.entry_ok(
                (#[trigger] self@.bindings[i]).1,
            ) by {
                let x = pre.bindings[i].1;
                assert(pre.entry_ok(x));
                assert forall|p: int|
                    x.offset <= p < x.offset + x.size_compressed_aligned implies !#[trigger] self@.free.is_free(
                    p,
                ) by {
                    assert(!pre.free.is_free(p));
                }
            }
            assert forall|i: int, j: int| 0 <= i < j < self@.bindings.len() implies (
            #[trigger] self@.bindings[i]).1.apart((#[trigger] self@.bindings[j]).1) by {
                assert(pre.bindings[i].1.apart(pre.bindings[j].1));
            }
            assert(self@.wf());
            if pre.free.no_window(block@.len() as int) {
                assert(false);
            }
        }
        if offset - GRF_HEADER_SIZE as u64 > u32::MAX as u64 {
            let ghost taken = self@;
            assert(taken.free.none_free(offset as int, block@.len() as int));
            match self.chunks.free_chunk(offset, block.len()) {
                Ok(()) => {},
                Err(_) => {},
            }
            proof {
                let post = self@;
                assert(pre.free.all_free(offset as int, block@.len() as int));
                post.free.lemma_give_back_restores(
                    pre.free,
                    taken.free,
                    offset as int,
                    block@.len() as int,
                );
                assert forall|p: int| #[trigger] post.free.is_free(p) implies p
                    >= GRF_HEADER_SIZE by {
                    assert(pre.free.is_free(p));
                }
                assert(post.free.is_free(post.free.tail));
                assert forall|i: int| 0 <= i < post.bindings.len() implies post.entry_ok(
                    (#[trigger] post.bindings[i]).1,
                ) by {
                    let x = pre.bindings[i].1;
                    assert(pre.entry_ok(x));
                    assert forall|p: int|
                        x.offset <= p < x.offset + x.size_compressed_aligned implies !#[trigger] post.free.is_free(
                        p,
                    ) by {
                        assert(!pre.free.is_free(p));
                    }
                }
                assert forall|i: int, j: int| 0 <= i < j < post.bindings.len() implies (
                #[trigger] post.bindings[i]).1.apart((#[trigger] post.bindings[j]).1) by {
                    assert(pre.bindings[i].1.apart(pre.bindings[j].1));
                }
            }
            return Err(GrufError::Serialization);
        }
        let ghost mid = self@;
        write_at(&mut self.image, offset as usize, block);
        let header = write_grf_header(
            (self.version_major << 8) | self.version_minor,
            (offset - GRF_HEADER_SIZE as u64) as u32,
            (count + GRF_FILE_COUNT_BIAS) as u32,
        );
        write_at(&mut self.image, 0, header.as_slice());
        proof {
            let post = self@;
            assert forall|i: int| 0 <= i < pre.bindings.len() implies post.content(
                (#[trigger] pre.bindings[i]).1,
            ) == pre.content(pre.bindings[i].1) by {
                let x = pre.bindings[i].1;
                assert(pre.entry_ok(x));
                assert forall|q: int| 0 <= q < x.size_compressed_aligned implies post.content(x)[q]
                    == pre.content(x)[q] by {
                    let p = x.offset + q;
                    assert(!pre.free.is_free(p));
                    assert(!(offset <= p < offset + block@.len()));
                }
                assert(post.content(x) =~= pre.content(x));
            }
            assert forall|i: int| 0 <= i < post.bindings.len() implies post.entry_ok(
                (#[trigger] post.bindings[i]).1,
            ) by {
                assert(mid.entry_ok(mid.bindings[i].1));
            }
            assert(post.wf());
        }
        Ok(())
    }

    /// Writes the file table and the header. A finished archive is left as
    /// it is. Otherwise the archive is marked finished first; a major
    /// version other than 1 and 2 is refused; the table is laid out as the
    /// major version asks, compressed for version 2, placed at the first
    /// fit for its length, and the header is rewritten to point to it.
    pub fn finish(&mut self) -> (res: Result<(), GrufError>)
        requires
            old(self)@.wf(),
        ensures
            final(self)@.wf(),
            final(self)@.finished,
            old(self)@.finished ==> res is Ok && final(self)@ == old(self)@,
            !old(self)@.finished ==> final(self)@.finished_from(old(self)@, res),
    {
        if self.finished {
            return Ok(());
        }
        self.finished = true;
        if self.version_major == 1 {
            match self.write_grf_table_1xx() {
                Ok(table) => self.commit_table(table.as_slice()),
                Err(e) => Err(e),
            }
        } else if self.version_major != 2 {
            Err(GrufError::InvalidVersion)
        } else {
            let table = match self.write_grf_table_200() {
                Ok(table) => table,
                Err(e) => {
                    return Err(e);
                },
            };
            let packed = match zlib_compress(table.as_slice()) {
                Some(packed) => packed,
                None => {
                    return Err(GrufError::Io);
                },
            };
            self.finish_with_table(table.len(), packed.as_slice())
        }
    }

    /// Finishes a version 2 archive whose table of `table_len` bytes
    /// compresses to `packed`: the table is framed with its two lengths,
    /// placed, and the header rewritten.
    pub fn finish_with_table(&mut self, table_len: usize, packed: &[u8]) -> (res: Result<
        (),
        GrufError,
    >)
        requires
            old(self)@.wf(),
        ensures
            final(self)@.wf(),
            final(self)@.finished,
            final(self)@.table_framed(old(self)@, res, table_len as int, packed@),
    {
        self.finished = true;
        if table_len > u32::MAX as usize {
            return Err(GrufError::Serialization);
        }
        match frame_table_200(table_len as u32, packed) {
            Ok(block) => self.commit_table(block.as_slice()),
            Err(e) => Err(e),
        }
    }

    /// Whether an import from a GRF archive of major version
    /// `source_major` copies the stored bytes. If not, the content has to
    /// be fetched.
    pub fn accepts_raw_from_grf(&self, source_major: u32) -> (r: bool)
        ensures
            r == raw_compatible(self@.version_major, source_major),
    {
        (self.version_major >= 2 && source_major >= 2) || (self.version_major < 2 && source_major
            < 2)
    }

    /// Whether an import from a THOR archive copies the stored bytes: only
    /// into archives of version 2 or later. If not, the content has to be
    /// fetched.
    pub fn accepts_raw_from_thor(&self) -> (r: bool)
        ensures
            r == (self@.version_major >= 2),
    {
        self.version_major >= 2
    }

    /// Imports the entry `relative_path` from a GRF archive of major
    /// version `source_major`. Content is added like a file. Stored bytes
    /// are copied as they are, with the source's sizes and type, if the two
    /// versions allow it and the bytes are as many as the source's
    /// descriptor says.
    pub fn import_raw_entry_from_grf(
        &mut self,
        source_major: u32,
        relative_path: String,
        source: ImportSource,
    ) -> (res: Result<(), GrufError>)
        requires
            old(self)@.wf(),
        ensures
            final(self)@.wf(),
            match source {
                ImportSource::Missing => res == Err::<(), GrufError>(GrufError::EntryNotFound)
                    && final(self)@ == old(self)@,
                ImportSource::Content(data) => final(self)@.file_added(
                    old(self)@,
                    res,
                    relative_path@,
                    data@,
                ),
                ImportSource::Raw(raw) => if !raw_compatible(
                    old(self)@.version_major,
                    source_major,
                ) {
                    res == Err::<(), GrufError>(GrufError::InvalidVersion) && final(self)@
                        == old(self)@
                } else if raw.data@.len() != raw.size_compressed_aligned {
                    res == Err::<(), GrufError>(GrufError::Serialization) && final(self)@
                        == old(self)@
                } else {
                    final(self)@.raw_stored(
                        old(self)@,
                        res,
                        relative_path@,
                        raw.size,
                        raw.size_compressed,
                        raw.entry_type,
                        raw.data@,
                    )
                },
            },
    {
        match source {
            ImportSource::Missing => Err(GrufError::EntryNotFound),
            ImportSource::Content(data) => self.add_file(relative_path, data.as_slice()),
            ImportSource::Raw(raw) => {
                if !self.accepts_raw_from_grf(source_major) {
                    return Err(GrufError::InvalidVersion);
                }
                if raw.data.len() != raw.size_compressed_aligned as usize {
                    return Err(GrufError::Serialization);
                }
                self.store_payload(
                    relative_path,
                    raw.size,
                    raw.size_compressed,
                    raw.entry_type,
                    raw.data.as_slice(),
                )
            },
        }
    }

    /// Imports the entry `relative_path` from a THOR archive. Content is
    /// added like a file. Stored bytes are copied as they are into an
    /// archive of version 2 or later, as a regular file whose footprint is
    /// its compressed size, if they are as many as that size.
    pub fn import_raw_entry_from_thor(&mut self, relative_path: String, source: ImportSource) -> (res:
        Result<(), GrufError>)
        requires
            old(self)@.wf(),
        ensures
            final(self)@.wf(),
            match source {
                ImportSource::Missing => res == Err::<(), GrufError>(GrufError::EntryNotFound)
                    && final(self)@ == old(self)@,
                ImportSource::Content(data) => final(self)@.file_added(
                    old(self)@,
                    res,
                    relative_path@,
                    data@,
                ),
                ImportSource::Raw(raw) => if old(self)@.version_major < 2 {
                    res == Err::<(), GrufError>(GrufError::InvalidVersion) && final(self)@
                        == old(self)@
                } else if raw.data@.len() != raw.size_compressed {
                    res == Err::<(), GrufError>(GrufError::Serialization) && final(self)@
                        == old(self)@
                } else {
                    final(self)@.raw_stored(
                        old(self)@,
                        res,
                        relative_path@,
                        raw.size,
                        raw.size_compressed,
                        ENTRY_TYPE_FILE,
                        raw.data@,
                    )
                },
            },
    {
        match source {
            ImportSource::Missing => Err(GrufError::EntryNotFound),
            ImportSource::Content(data) => self.add_file(relative_path, data.as_slice()),
            ImportSource::Raw(raw) => {
                if !self.accepts_raw_from_thor() {
                    return Err(GrufError::InvalidVersion);
                }
                if raw.data.len() != raw.size_compressed as usize {
                    return Err(GrufError::Serialization);
                }
                self.store_payload(
                    relative_path,
                    raw.size,
                    raw.size_compressed,
                    ENTRY_TYPE_FILE,
                    raw.data.as_slice(),
                )
            },
        }
    }

    /// Takes an entry found in an existing archive into the index and
    /// takes its place out of the free bytes.
    fn adopt_entry(&mut self, path: String, e: GenericFileEntry) -> (res: Result<(), GrufError>)
        requires
            old(self)@.wf(),
            old(self)@.exact(),
        ensures
            final(self)@.wf(),
            final(self)@.exact(),
            final(self)@.same_archive(old(self)@),
            final(self)@.image == old(self)@.image,
            match res {
                Ok(()) => old(self)@.adoptable(path@, e) && final(self)@.bindings
                    == old(self)@.bindings.push((path@, e)),
                Err(err) => {
                    &&& !old(self)@.adoptable(path@, e)
                    &&& final(self)@ == old(self)@
                    &&& if has_path(old(self)@.bindings, path@) || !sound_entry(
                        old(self)@.version_major,
                        old(self)@.image.len() as int,
                        e,
                    ) {
                        err == GrufError::Serialization
                    } else {
                        err == GrufError::Allocator(AllocError::OutOfSpace)
                    }
                },
            },
    {
        let ghost pre = self@;
        if e.offset < GRF_HEADER_SIZE as u64 || e.size_compressed > e.size_compressed_aligned
            || e.size_compressed_aligned as u64 > self.image.len() as u64 || e.offset
            > self.image.len() as u64 - e.size_compressed_aligned as u64 || (self.version_major == 1
            && e.size_compressed_aligned % 8 != 0) {
            return Err(GrufError::Serialization);
        }
        if self.entries.get(&path).is_some() {
            return Err(GrufError::Serialization);
        }
        assert(!has_path(pre.bindings, path@));
        match self.chunks.reserve_chunk(e.offset, e.size_compressed_aligned as usize) {
            Err(a) => Err(GrufError::Allocator(a)),
            Ok(()) => {
                let ghost name = path@;
                assert(pre.free.all_free(e.offset as int, e.size_compressed_aligned as int));
                assert(pre.adoptable(name, e));
                self.entries.insert(path, e);
                proof {
                    self@.lemma_adopt_wf(pre, name, e);
                }
                Ok(())
            },
        }
    }

    /// A builder for an archive that exists: `image` holds the file's bytes
    /// and `listing` the entries of its file table. The index is the
    /// listing, and the free bytes are all bytes behind the header that no
    /// listed payload holds, the old file table among them. Refused when
    /// the major version is neither 1 nor 2, when the file is shorter than
    /// a header, or when the listing is unsound.
    #[verifier::rlimit(40)]
    #[verifier::spinoff_prover]
    pub fn open(image: Vec<u8>, version_major: u32, version_minor: u32, listing: &Vec<IndexSlot>) -> (r:
        Result<Self, GrufError>)
        ensures
            r is Ok <==> ((version_major == 1 || version_major == 2) && image@.len()
                >= GRF_HEADER_SIZE && sound_listing(
                version_major,
                image@.len() as int,
                listed(listing@),
            )),
            match r {
                Ok(b) => {
                    &&& b@.wf()
                    &&& b@.exact()
                    &&& !b@.finished
                    &&& b@.version_major == version_major
                    &&& b@.version_minor == version_minor
                    &&& b@.image == image@
                    &&& b@.bindings == listed(listing@)
                },
                Err(e) => if version_major != 1 && version_major != 2 {
                    e == GrufError::InvalidVersion
                } else if e == GrufError::Serialization {
                    image@.len() < GRF_HEADER_SIZE || !sound_descriptors(
                        version_major,
                        image@.len() as int,
                        listed(listing@),
                    )
                } else {
                    e == GrufError::Allocator(AllocError::OutOfSpace) && !payloads_apart(
                        listed(listing@),
                    )
                },
            },
    {
        if version_major != 1 && version_major != 2 {
            return Err(GrufError::InvalidVersion);
        }
        if image.len() < GRF_HEADER_SIZE {
            return Err(GrufError::Serialization);
        }
        let ghost all = listed(listing@);
        let ghost file = image@;
        let mut b = GrfArchiveBuilder {
            image,
            finished: false,
            table_offset: 0,
            version_major,
            version_minor,
            entries: EntryIndex::new(),
            chunks: AvailableChunkList::new(GRF_HEADER_SIZE as u64, usize::MAX as u64),
        };
        assert(b@.bindings =~= all.subrange(0, 0));
        let mut i: usize = 0;
        while i < listing.len()
            invariant
                i <= listing@.len(),
                all == listed(listing@),
                b@.wf(),
                b@.exact(),
                !b@.finished,
                b@.version_major == version_major,
                version_major == 1 || version_major == 2,
                b@.version_minor == version_minor,
                b@.image == file,
                file == image@,
                b@.bindings == all.subrange(0, i as int),
            decreases listing@.len() - i,
        {
            let ghost pre = b@;
            match b.adopt_entry(listing[i].path.clone(), listing[i].entry) {
                Ok(()) => {
                    assert(b@.bindings =~= all.subrange(0, i + 1));
                },
                Err(e) => {
                    proof {
                        let path = all[i as int].0;
                        let x = all[i as int].1;
                        assert(listing@[i as int].path@ == path);
                        assert(!pre.adoptable(path, x));
                        if has_path(pre.bindings, path) {
                            if unique_paths(all) {
                                let j = choose|j: int|
                                    0 <= j < pre.bindings.len() && (#[trigger] pre.bindings[j]).0
                                        == path;
                                assert(pre.bindings[j] == all[j]);
                                assert(all[j].0 != all[i as int].0);
                                assert(false);
                            }
                        } else if sound_entry(version_major, file.len() as int, x) {
                            assert(!pre.free.all_free(
                                x.offset as int,
                                x.size_compressed_aligned as int,
                            ));
                            let p = choose|p: int|
                                x.offset <= p < x.offset + x.size_compressed_aligned
                                    && !#[trigger] pre.free.is_free(p);
                            assert(pre.in_use(p));
                            let j = choose|j: int|
                                0 <= j < pre.bindings.len() && (#[trigger] pre.bindings[j]).1.covers(
                                    p,
                                );
                            assert(pre.bindings[j] == all[j]);
                            if payloads_apart(all) {
                                assert(all[j].1.apart(all[i as int].1));
                                assert(all[j].1.covers(p) && x.covers(p));
                                assert(false);
                            }
                        } else {
                            assert(!sound_entry(
                                version_major,
                                file.len() as int,
                                (#[trigger] all[i as int]).1,
                            ));
                        }
                    }
                    return Err(e);
                },
            }
            i += 1;
        }
        proof {
            assert(all.subrange(0, i as int) =~= all);
            assert forall|j: int| 0 <= j < all.len() implies sound_entry(
                version_major,
                file.len() as int,
                (#[trigger] all[j]).1,
            ) by {
                assert(b@.entry_ok(b@.bindings[j].1));
            }
        }
        Ok(b)
    }

    /// Major version of the archive.
    pub fn version_major(&self) -> (r: u32)
        ensures
            r == self@.version_major,
    {
        self.version_major
    }

    /// Minor version of the archive.
    pub fn version_minor(&self) -> (r: u32)
        ensures
            r == self@.version_minor,
    {
        self.version_minor
    }

    /// Whether the file table and header have been written.
    pub fn is_finished(&self) -> (r: bool)
        ensures
            r == self@.finished,
    {
        self.finished
    }

    /// The archive's bytes as they stand.
    pub fn image(&self) -> (r: &Vec<u8>)
        ensures
            r@ == self@.image,
    {
        &self.image
    }

    /// Number of indexed entries.
    pub fn entry_count(&self) -> (r: usize)
        ensures
            r == self@.bindings.len(),
    {
        self.entries.len()
    }

    /// The binding at position `i` of the iteration order.
    pub fn entry_at(&self, i: usize) -> (r: &IndexSlot)
        requires
            i < self@.bindings.len(),
        ensures
            (r.path@, r.entry) == self@.bindings[i as int],
    {
        self.entries.slot(i)
    }

    /// Where the file table was put; zero before the archive is finished.
    pub fn table_offset(&self) -> (r: u64)
        ensures
            r == self@.table_offset,
    {
        self.table_offset
    }

    /// The descriptor bound to `path`.
    pub fn get_entry(&self, path: &String) -> (r: Option<GenericFileEntry>)
        requires
            self@.wf(),
        ensures
            r == if self@.entries().contains_key(path@) {
                Some(self@.entries()[path@])
            } else {
                None
            },
    {
        self.entries.get(path)
    }

    /// The free-space map.
    pub fn free_space(&self) -> (r: &AvailableChunkList)
        ensures
            r@ == self@.free,
    {
        &self.chunks
    }
}

} // verus!
