//! What a reader finds in a finished version 2 archive, stated over a
//! model of reading: the header is parsed, the table block is taken from
//! where the header points, inflated and split into rows, and a payload is
//! inflated from where its row points. Inflating is not part of this
//! library; the laws hold for every inflater that undoes the codec on the
//! streams in question.

use vstd::prelude::*;
use crate::archive::{has_path, lemma_map_of_at, position_of, unique_paths, Binding};
use crate::archive::GenericFileEntry;
use crate::builder::{framed_table, header_bytes, rows_fit, table_bytes, version_word};
use crate::builder::{ArchiveState, GRF_FILE_COUNT_BIAS, GRF_HEADER_MAGIC};
use crate::builder::{ENTRY_TYPE_FILE, GRF_HEADER_SIZE};
use crate::encoding::{le32, le32_value, lemma_le32_round_trip, win1252};
use crate::error::GrufError;
use crate::laws::{lemma_finished_archive_layout, lemma_table_200_reads_back, nul_free};
use crate::laws::{row_listed, rows_listed, rows_read};

verus! {

/// The fields of an archive header.
pub struct HeaderFields {
    pub version: u32,
    /// Offset of the table block from the end of the header.
    pub table_offset: u32,
    /// Number of entries plus the format's bias.
    pub file_count: u32,
}

/// The header at the start of `image`, if the file is long enough and
/// starts with the magic bytes.
pub open spec fn header_read(image: Seq<u8>) -> Option<HeaderFields> {
    if image.len() < GRF_HEADER_SIZE || image.subrange(0, 16) != GRF_HEADER_MAGIC@ {
        None
    } else {
        Some(
            HeaderFields {
                table_offset: le32_value(image.subrange(30, 34)) as u32,
                file_count: le32_value(image.subrange(38, 42)) as u32,
                version: le32_value(image.subrange(42, 46)) as u32,
            },
        )
    }
}

/// The compressed table of the version 2 archive `image`, taken from the
/// block that the header points to, together with the length that the
/// block states for the table.
pub open spec fn table_block_read(image: Seq<u8>) -> Option<(Seq<u8>, int)> {
    match header_read(image) {
        None => None,
        Some(h) => {
            let at = h.table_offset + GRF_HEADER_SIZE;
            if at + 8 > image.len() {
                None
            } else {
                let packed_len = le32_value(image.subrange(at, at + 4));
                let table_len = le32_value(image.subrange(at + 4, at + 8));
                if at + 8 + packed_len > image.len() {
                    None
                } else {
                    Some((image.subrange(at + 8, at + 8 + packed_len), table_len))
                }
            }
        },
    }
}

/// The rows that a reader with the inflater `inflate` lists for the version
/// 2 archive `image`. There is no listing when the header or the block is
/// cut short, the table does not inflate to its stated length, a row is cut
/// short, or the number of rows is not what the header says.
pub open spec fn listing_read(
    image: Seq<u8>,
    inflate: spec_fn(Seq<u8>) -> Option<Seq<u8>>,
) -> Option<Seq<(Seq<u8>, GenericFileEntry)>> {
    match (header_read(image), table_block_read(image)) {
        (Some(h), Some((packed, table_len))) => match inflate(packed) {
            Some(table) => match rows_read(table) {
                Some(rows) => if table.len() == table_len && rows.len() + GRF_FILE_COUNT_BIAS
                    == h.file_count {
                    Some(rows)
                } else {
                    None
                },
                None => None,
            },
            None => None,
        },
        _ => None,
    }
}

/// The compressed payload that a row with descriptor `e` points to.
pub open spec fn payload_read(image: Seq<u8>, e: GenericFileEntry) -> Seq<u8> {
    image.subrange(e.offset as int, e.offset + e.size_compressed)
}

/// The content that a reader with the inflater `inflate` gives for a row
/// with descriptor `e`.
pub open spec fn content_read(
    image: Seq<u8>,
    e: GenericFileEntry,
    inflate: spec_fn(Seq<u8>) -> Option<Seq<u8>>,
) -> Option<Seq<u8>> {
    inflate(payload_read(image, e))
}

/// A file that starts with a header reads back the header's fields.
pub proof fn lemma_header_reads_back(image: Seq<u8>, version: u32, table_offset: u32, count: u32)
    requires
        image.len() >= GRF_HEADER_SIZE,
        image.subrange(0, GRF_HEADER_SIZE as int) == header_bytes(version, table_offset, count),
    ensures
        header_read(image) == Some(HeaderFields { version, table_offset, file_count: count }),
{
    let h = header_bytes(version, table_offset, count);
    lemma_le32_round_trip(version);
    lemma_le32_round_trip(table_offset);
    lemma_le32_round_trip(count);
    lemma_le32_round_trip(0);
    assert(h.len() == 46);
    assert forall|i: int| 0 <= i < 46 implies image[i] == h[i] by {
        assert(image.subrange(0, GRF_HEADER_SIZE as int)[i] == image[i]);
    }
    assert(image.subrange(0, 16) =~= GRF_HEADER_MAGIC@);
    assert(image.subrange(30, 34) =~= le32(table_offset));
    assert(image.subrange(38, 42) =~= le32(count));
    assert(image.subrange(42, 46) =~= le32(version));
}

/// A file that holds a framed table at `at` reads back the compressed
/// table and the stated length.
pub proof fn lemma_block_reads_back(image: Seq<u8>, at: int, table_len: u32, packed: Seq<u8>)
    requires
        0 <= at,
        packed.len() <= u32::MAX,
        at + 8 + packed.len() <= image.len(),
        image.subrange(at, at + 8 + packed.len()) == framed_table(table_len, packed),
    ensures
        le32_value(image.subrange(at, at + 4)) == packed.len(),
        le32_value(image.subrange(at + 4, at + 8)) == table_len,
        image.subrange(at + 8, at + 8 + packed.len()) == packed,
{
    let block = framed_table(table_len, packed);
    lemma_le32_round_trip(packed.len() as u32);
    lemma_le32_round_trip(table_len);
    assert(block.len() == 8 + packed.len());
    assert forall|i: int| 0 <= i < block.len() implies image[at + i] == block[i] by {
        assert(image.subrange(at, at + 8 + packed.len())[i] == image[at + i]);
    }
    let a = le32(packed.len() as u32);
    let b = le32(table_len);
    assert(image.subrange(at, at + 4) =~= a) by {
        assert forall|j: int| 0 <= j < 4 implies image.subrange(at, at + 4)[j] == a[j] by {
            assert(block[j] == a[j]);
        }
    }
    assert(image.subrange(at + 4, at + 8) =~= b) by {
        assert forall|j: int| 0 <= j < 4 implies image.subrange(at + 4, at + 8)[j] == b[j] by {
            assert(block[4 + j] == b[j]);
        }
    }
    assert(image.subrange(at + 8, at + 8 + packed.len()) =~= packed) by {
        assert forall|j: int| 0 <= j < packed.len() implies image.subrange(
            at + 8,
            at + 8 + packed.len(),
        )[j] == packed[j] by {
            assert(block[8 + j] == packed[j]);
        }
    }
}

/// A reader lists what was indexed when a version 2 archive was finished.
/// Let the archive `s1` be finished into `s2`, its table having compressed
/// to `packed`, and let no path have a zero byte in its Windows-1252 form.
/// Then every reader whose inflater gives the table back for `packed`
/// lists, in order, one row for each binding of the index, with the
/// binding's path, sizes, type and offset; and the compressed payload that
/// each row points to is the one that was stored.
#[verifier::rlimit(40)]
#[verifier::spinoff_prover]
pub proof fn lemma_finished_archive_is_listed(
    s1: ArchiveState,
    s2: ArchiveState,
    packed: Seq<u8>,
    inflate: spec_fn(Seq<u8>) -> Option<Seq<u8>>,
)
    requires
        s1.wf(),
        s1.version_major == 2,
        rows_fit(2, s1.bindings),
        forall|i: int|
            0 <= i < s1.bindings.len() ==> nul_free(win1252((#[trigger] s1.bindings[i]).0)),
        s2.table_framed(
            s1,
            Ok::<(), GrufError>(()),
            table_bytes(2, s1.bindings).len() as int,
            packed,
        ),
        inflate(packed) == Some(table_bytes(2, s1.bindings)),
    ensures
        header_read(s2.image) == Some(
            HeaderFields {
                version: version_word(2, s1.version_minor),
                table_offset: (s2.table_offset - GRF_HEADER_SIZE) as u32,
                file_count: (s1.bindings.len() + GRF_FILE_COUNT_BIAS) as u32,
            },
        ),
        listing_read(s2.image, inflate) == Some(rows_listed(s1.bindings)),
        forall|i: int|
            0 <= i < s1.bindings.len() ==> payload_read(
                s2.image,
                (#[trigger] rows_listed(s1.bindings)[i]).1,
            ) == payload_read(s1.image, s1.bindings[i].1),
{
    let table = table_bytes(2, s1.bindings);
    let block = framed_table(table.len() as u32, packed);
    let at = s2.table_offset as int;
    let count = (s1.bindings.len() + GRF_FILE_COUNT_BIAS) as u32;
    let rel = (s2.table_offset - GRF_HEADER_SIZE) as u32;
    assert(s2.committed(s1, Ok::<(), GrufError>(()), block));
    lemma_finished_archive_layout(s1, s2, block);
    assert(block.len() == 8 + packed.len());
    assert(s2.image.len() >= at + block.len());
    lemma_header_reads_back(s2.image, version_word(2, s1.version_minor), rel, count);
    lemma_block_reads_back(s2.image, at, table.len() as u32, packed);
    lemma_table_200_reads_back(s1.bindings);
    assert(rows_listed(s1.bindings).len() + GRF_FILE_COUNT_BIAS == count);
    assert forall|i: int| 0 <= i < s1.bindings.len() implies payload_read(
        s2.image,
        (#[trigger] rows_listed(s1.bindings)[i]).1,
    ) == payload_read(s1.image, s1.bindings[i].1) by {
        let e = s1.bindings[i].1;
        assert(s1.entry_ok(e));
        assert(rows_listed(s1.bindings)[i] == row_listed(s1.bindings[i]));
        assert(s2.bindings[i] == s1.bindings[i]);
        assert(s2.content(e) == s1.content(e));
        assert(payload_read(s2.image, e) =~= s2.content(e).subrange(0, e.size_compressed as int));
        assert(payload_read(s1.image, e) =~= s1.content(e).subrange(0, e.size_compressed as int));
    }
}

/// A reader gives back what was added. If the content of `path` was added
/// as a file to a version 2 archive and compressed to `stream`, and the
/// archive is finished afterwards with the entry still as the add left it,
/// then the row of the entry states the content's length and the type of a
/// regular file, and every reader whose inflater gives `data` for `stream`
/// reads `data`.
pub proof fn lemma_added_content_reads_back(
    s0: ArchiveState,
    s1: ArchiveState,
    s2: ArchiveState,
    s3: ArchiveState,
    path: Seq<char>,
    data: Seq<u8>,
    stream: Seq<u8>,
    block: Seq<u8>,
    inflate: spec_fn(Seq<u8>) -> Option<Seq<u8>>,
)
    requires
        s0.wf(),
        s0.version_major == 2,
        data.len() <= u32::MAX,
        s1.add_ok(s0, path, data.len() as u32, stream),
        s2.wf(),
        s2.entries().contains_key(path),
        s2.entries()[path] == s1.entries()[path],
        s2.content(s2.entries()[path]) == s1.content(s1.entries()[path]),
        s3.committed(s2, Ok::<(), GrufError>(()), block),
        inflate(stream) == Some(data),
    ensures
        has_path(s3.bindings, path),
        ({
            let row = row_listed(s3.bindings[position_of(s3.bindings, path)]);
            &&& row.0 == win1252(path)
            &&& row.1.size == data.len()
            &&& row.1.entry_type == ENTRY_TYPE_FILE
            &&& content_read(s3.image, row.1, inflate) == Some(data)
        }),
{
    let k = position_of(s2.bindings, path);
    lemma_map_of_at(s2.bindings, k);
    let e = s2.bindings[k].1;
    assert(s2.entry_ok(e));
    assert(e.size_compressed == stream.len());
    assert(e.size_compressed_aligned == stream.len());
    lemma_finished_archive_layout(s2, s3, block);
    assert(s3.bindings[k] == s2.bindings[k]);
    assert(s3.content(e) == s2.content(e));
    assert(payload_read(s3.image, e) =~= s3.content(e));
    assert(s1.content(s1.entries()[path]) == stream);
}

/// A reader gives for an entry that was copied from a source archive what
/// it gives for the source. If the stored bytes of an entry of the archive
/// `source` were imported as they are under `path`, and the archive is
/// finished afterwards with the entry still as the import left it, then
/// the row of the entry states the source's size and type, and every
/// reader reads from it the content it reads from the source.
pub proof fn lemma_raw_import_reads_like_source(
    source: Seq<u8>,
    d: GenericFileEntry,
    s0: ArchiveState,
    s1: ArchiveState,
    s2: ArchiveState,
    s3: ArchiveState,
    path: Seq<char>,
    block: Seq<u8>,
    inflate: spec_fn(Seq<u8>) -> Option<Seq<u8>>,
)
    requires
        d.size_compressed <= d.size_compressed_aligned,
        d.offset + d.size_compressed_aligned <= source.len(),
        s0.wf(),
        s1.store_ok(
            s0,
            path,
            d.size,
            d.size_compressed,
            d.entry_type,
            source.subrange(d.offset as int, d.offset + d.size_compressed_aligned),
        ),
        s2.wf(),
        s2.entries().contains_key(path),
        s2.entries()[path] == s1.entries()[path],
        s2.content(s2.entries()[path]) == s1.content(s1.entries()[path]),
        s3.committed(s2, Ok::<(), GrufError>(()), block),
    ensures
        has_path(s3.bindings, path),
        ({
            let row = row_listed(s3.bindings[position_of(s3.bindings, path)]);
            &&& row.0 == win1252(path)
            &&& row.1.size == d.size
            &&& row.1.entry_type == d.entry_type
            &&& content_read(s3.image, row.1, inflate) == content_read(source, d, inflate)
        }),
{
    let k = position_of(s2.bindings, path);
    lemma_map_of_at(s2.bindings, k);
    let e = s2.bindings[k].1;
    let data = source.subrange(d.offset as int, d.offset + d.size_compressed_aligned);
    assert(s2.entry_ok(e));
    lemma_finished_archive_layout(s2, s3, block);
    assert(s3.bindings[k] == s2.bindings[k]);
    assert(s3.content(e) == data);
    assert(payload_read(s3.image, e) =~= s3.content(e).subrange(0, e.size_compressed as int));
    assert(payload_read(source, d) =~= data.subrange(0, d.size_compressed as int));
}

/// A reader finds the second of two contents added under one path, and
/// nothing of the first. If two files were added to a version 2 archive
/// under the same path, one after the other, and the archive is finished,
/// then every reader whose inflater undoes the codec on the table lists
/// one row for each binding of the index; the path is bound once, so one
/// row is the path's; that row states the second content's length; and a
/// reader whose inflater gives the second content for its stream reads
/// the second content from it.
pub proof fn lemma_overwrite_reads_back(
    s0: ArchiveState,
    s1: ArchiveState,
    s2: ArchiveState,
    s3: ArchiveState,
    path: Seq<char>,
    first: (Seq<u8>, Seq<u8>),
    second: (Seq<u8>, Seq<u8>),
    packed: Seq<u8>,
    inflate: spec_fn(Seq<u8>) -> Option<Seq<u8>>,
)
    requires
        s0.wf(),
        s1.wf(),
        s2.wf(),
        s0.version_major == 2,
        first.0.len() <= u32::MAX,
        second.0.len() <= u32::MAX,
        s1.add_ok(s0, path, first.0.len() as u32, first.1),
        s2.add_ok(s1, path, second.0.len() as u32, second.1),
        rows_fit(2, s2.bindings),
        forall|i: int|
            0 <= i < s2.bindings.len() ==> nul_free(win1252((#[trigger] s2.bindings[i]).0)),
        s3.table_framed(
            s2,
            Ok::<(), GrufError>(()),
            table_bytes(2, s2.bindings).len() as int,
            packed,
        ),
        inflate(packed) == Some(table_bytes(2, s2.bindings)),
        inflate(second.1) == Some(second.0),
    ensures
        listing_read(s3.image, inflate) == Some(rows_listed(s2.bindings)),
        s2.bindings.len() == s1.bindings.len(),
        has_path(s2.bindings, path),
        forall|i: int|
            0 <= i < s2.bindings.len() && i != position_of(s2.bindings, path) ==> (
            #[trigger] s2.bindings[i]).0 != path,
        ({
            let row = rows_listed(s2.bindings)[position_of(s2.bindings, path)];
            &&& row.0 == win1252(path)
            &&& row.1.size == second.0.len()
            &&& content_read(s3.image, row.1, inflate) == Some(second.0)
        }),
{
    assert(s1.entries().contains_key(path));
    assert(has_path(s1.bindings, path));
    assert(s2.entries().contains_key(path));
    assert(has_path(s2.bindings, path));
    let k = position_of(s2.bindings, path);
    lemma_map_of_at(s2.bindings, k);
    let e = s2.bindings[k].1;
    assert(s2.version_major == 2);
    lemma_finished_archive_is_listed(s2, s3, packed, inflate);
    assert(rows_listed(s2.bindings)[k] == row_listed(s2.bindings[k]));
    assert(payload_read(s2.image, e) =~= s2.content(e));
    assert(payload_read(s3.image, rows_listed(s2.bindings)[k].1) == payload_read(s2.image, e));
    assert forall|i: int| 0 <= i < s2.bindings.len() && i != k implies (
    #[trigger] s2.bindings[i]).0 != path by {
        if i < k {
            assert(s2.bindings[i].0 != s2.bindings[k].0);
        } else {
            assert(s2.bindings[k].0 != s2.bindings[i].0);
        }
    }
}

/// The bytes that the archive `source` stores for the descriptor `d`.
pub open spec fn source_bytes(source: Seq<u8>, d: GenericFileEntry) -> Seq<u8> {
    source.subrange(d.offset as int, d.offset + d.size_compressed_aligned)
}

/// Whether `states` are the states that a builder goes through while the
/// rows `rows` of the archive `source` are imported as they are, one after
/// the other, into it.
pub open spec fn imported_in_turn(
    states: Seq<ArchiveState>,
    rows: Seq<Binding>,
    source: Seq<u8>,
) -> bool {
    &&& states.len() == rows.len() + 1
    &&& forall|i: int| 0 <= i < states.len() ==> (#[trigger] states[i]).wf()
    &&& forall|i: int|
        0 <= i < rows.len() ==> states[i + 1].store_ok(
            states[i],
            (#[trigger] rows[i]).0,
            rows[i].1.size,
            rows[i].1.size_compressed,
            rows[i].1.entry_type,
            source_bytes(source, rows[i].1),
        )
}

/// Whether the first `k` bindings of the archive `s` are copies of the
/// first `k` rows of the archive `source`: same path, sizes and type, and
/// the same stored bytes.
pub open spec fn copies_rows(s: ArchiveState, rows: Seq<Binding>, source: Seq<u8>, k: int) -> bool {
    &&& s.bindings.len() == k
    &&& forall|i: int|
        0 <= i < k ==> {
            let e = (#[trigger] s.bindings[i]).1;
            &&& s.bindings[i].0 == rows[i].0
            &&& e.size == rows[i].1.size
            &&& e.size_compressed == rows[i].1.size_compressed
            &&& e.size_compressed_aligned == rows[i].1.size_compressed_aligned
            &&& e.entry_type == rows[i].1.entry_type
            &&& s.content(e) == source_bytes(source, rows[i].1)
        }
}

/// Importing the rows of an archive in turn into an empty index copies
/// them: after `k` imports the index holds the first `k` rows, in order.
#[verifier::rlimit(40)]
#[verifier::spinoff_prover]
pub proof fn lemma_imports_copy_rows(
    states: Seq<ArchiveState>,
    rows: Seq<Binding>,
    source: Seq<u8>,
    k: int,
)
    requires
        imported_in_turn(states, rows, source),
        states[0].bindings.len() == 0,
        unique_paths(rows),
        forall|i: int|
            0 <= i < rows.len() ==> (#[trigger] rows[i]).1.offset + rows[i].1.size_compressed_aligned
                <= source.len(),
        0 <= k <= rows.len(),
    ensures
        copies_rows(states[k], rows, source, k),
        states[k].version_major == states[0].version_major,
    decreases k,
{
    if k > 0 {
        lemma_imports_copy_rows(states, rows, source, k - 1);
        let s = states[k - 1];
        let t = states[k];
        let row = rows[k - 1];
        let path = row.0;
        let data = source_bytes(source, row.1);
        assert(s.wf() && t.wf());
        assert(t.store_ok(s, path, row.1.size, row.1.size_compressed, row.1.entry_type, data));
        assert(!has_path(s.bindings, path)) by {
            if has_path(s.bindings, path) {
                let j = position_of(s.bindings, path);
                assert(s.bindings[j].0 == rows[j].0);
                assert(rows[j].0 != rows[k - 1].0);
            }
        }
        let e = t.entries()[path];
        assert(t.bindings == s.bindings.push((path, e)));
        assert(t.bindings[k - 1] == (path, e));
        assert(data.len() == row.1.size_compressed_aligned);
        assert forall|i: int| 0 <= i < k implies {
            let x = (#[trigger] t.bindings[i]).1;
            &&& t.bindings[i].0 == rows[i].0
            &&& x.size == rows[i].1.size
            &&& x.size_compressed == rows[i].1.size_compressed
            &&& x.size_compressed_aligned == rows[i].1.size_compressed_aligned
            &&& x.entry_type == rows[i].1.entry_type
            &&& t.content(x) == source_bytes(source, rows[i].1)
        } by {
            if i < k - 1 {
                assert(t.bindings[i] == s.bindings[i]);
                assert(s.bindings[i].0 == rows[i].0);
                assert(rows[i].0 != rows[k - 1].0);
                assert(t.content(s.bindings[i].1) == s.content(s.bindings[i].1));
            }
        }
    }
}

/// A copy of an archive reads like the archive. Let the rows `rows` of the
/// version 2 archive `source`, no path twice among them, be imported as
/// they are, one after the other, into a fresh version 2 archive, and let
/// that archive be finished. Then every reader whose inflater undoes the
/// codec on the new table lists as many rows as were imported, in their
/// order, each with the path, size and type of the row it was copied
/// from, and reads from each the content it reads from the source.
#[verifier::rlimit(40)]
#[verifier::spinoff_prover]
pub proof fn lemma_copied_archive_reads_like_source(
    states: Seq<ArchiveState>,
    rows: Seq<Binding>,
    source: Seq<u8>,
    finished: ArchiveState,
    packed: Seq<u8>,
    inflate: spec_fn(Seq<u8>) -> Option<Seq<u8>>,
)
    requires
        imported_in_turn(states, rows, source),
        states[0].bindings.len() == 0,
        states[0].version_major == 2,
        unique_paths(rows),
        forall|i: int|
            0 <= i < rows.len() ==> (#[trigger] rows[i]).1.offset + rows[i].1.size_compressed_aligned
                <= source.len(),
        forall|i: int| 0 <= i < rows.len() ==> nul_free(win1252((#[trigger] rows[i]).0)),
        rows_fit(2, states.last().bindings),
        finished.table_framed(
            states.last(),
            Ok::<(), GrufError>(()),
            table_bytes(2, states.last().bindings).len() as int,
            packed,
        ),
        inflate(packed) == Some(table_bytes(2, states.last().bindings)),
    ensures
        listing_read(finished.image, inflate) matches Some(listing) && {
            &&& listing.len() == rows.len()
            &&& forall|i: int|
                0 <= i < rows.len() ==> {
                    &&& (#[trigger] listing[i]).0 == win1252(rows[i].0)
                    &&& listing[i].1.size == rows[i].1.size
                    &&& listing[i].1.entry_type == rows[i].1.entry_type
                    &&& content_read(finished.image, listing[i].1, inflate) == content_read(
                        source,
                        rows[i].1,
                        inflate,
                    )
                }
        },
{
    let last = states.last();
    let n = rows.len() as int;
    lemma_imports_copy_rows(states, rows, source, n);
    assert(last == states[n]);
    assert(copies_rows(last, rows, source, n));
    assert forall|i: int| 0 <= i < last.bindings.len() implies nul_free(
        win1252((#[trigger] last.bindings[i]).0),
    ) by {
        assert(last.bindings[i].0 == rows[i].0);
    }
    lemma_finished_archive_is_listed(last, finished, packed, inflate);
    let listing = rows_listed(last.bindings);
    assert forall|i: int| 0 <= i < rows.len() implies {
        &&& (#[trigger] listing[i]).0 == win1252(rows[i].0)
        &&& listing[i].1.size == rows[i].1.size
        &&& listing[i].1.entry_type == rows[i].1.entry_type
        &&& content_read(finished.image, listing[i].1, inflate) == content_read(
            source,
            rows[i].1,
            inflate,
        )
    } by {
        let e = last.bindings[i].1;
        let d = rows[i].1;
        assert(listing[i] == row_listed(last.bindings[i]));
        assert(last.bindings[i].0 == rows[i].0);
        assert(last.entry_ok(e));
        assert(payload_read(finished.image, listing[i].1) == payload_read(last.image, e));
        assert(payload_read(last.image, e) =~= last.content(e).subrange(
            0,
            e.size_compressed as int,
        ));
        assert(payload_read(source, d) =~= source_bytes(source, d).subrange(
            0,
            d.size_compressed as int,
        ));
    }
}

} // verus!
