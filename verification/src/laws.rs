//! Laws of the archive builder, stated over its mathematical model.

use vstd::prelude::*;
use crate::archive::{has_path, lemma_map_of_at, position_of, Binding, GenericFileEntry};
use crate::builder::{header_bytes, version_word, ArchiveState, GRF_FILE_COUNT_BIAS};
use crate::builder::{record_200, row_200, rows_fit, table_bytes, GRF_HEADER_SIZE};
use crate::encoding::{le32, le32_value, lemma_le32_round_trip, win1252};
use crate::error::GrufError;

verus! {

/// Between the header and the end of the used part of the file, every byte
/// is either free or held by an indexed payload, never both, and never by
/// two payloads.
pub proof fn lemma_ranges_partition(s: ArchiveState, p: int)
    requires
        s.wf(),
        s.covered(),
        GRF_HEADER_SIZE <= p < s.free.tail,
    ensures
        s.free.is_free(p) != s.in_use(p),
        forall|i: int, j: int|
            0 <= i < s.bindings.len() && 0 <= j < s.bindings.len() && (
            #[trigger] s.bindings[i]).1.covers(p) && (#[trigger] s.bindings[j]).1.covers(p) ==> i
                == j,
{
    if s.in_use(p) {
        let i = choose|i: int| 0 <= i < s.bindings.len() && (#[trigger] s.bindings[i]).1.covers(p);
        assert(s.entry_ok(s.bindings[i].1));
    }
    assert forall|i: int, j: int|
        0 <= i < s.bindings.len() && 0 <= j < s.bindings.len() && (#[trigger] s.bindings[i]).1.covers(
            p,
        ) && (#[trigger] s.bindings[j]).1.covers(p) implies i == j by {
        if i < j {
            assert(s.bindings[i].1.apart(s.bindings[j].1));
        } else if j < i {
            assert(s.bindings[j].1.apart(s.bindings[i].1));
        }
    }
}

/// When the free bytes are exactly the bytes that no payload holds, the
/// used part of the file has no gap.
pub proof fn lemma_exact_is_covered(s: ArchiveState)
    requires
        s.exact(),
    ensures
        s.covered(),
{
    assert forall|p: int| GRF_HEADER_SIZE <= p < s.free.tail implies #[trigger] s.free.is_free(p)
        || s.in_use(p) by {}
}

/// In a version 1 archive the footprint of every indexed payload is a
/// multiple of eight, and not smaller than its compressed size.
pub proof fn lemma_version_1_footprints(s: ArchiveState, path: Seq<char>)
    requires
        s.wf(),
        s.version_major == 1,
        s.entries().contains_key(path),
    ensures
        s.entries()[path].size_compressed_aligned % 8 == 0,
        s.entries()[path].size_compressed <= s.entries()[path].size_compressed_aligned,
{
    let k = position_of(s.bindings, path);
    lemma_map_of_at(s.bindings, k);
    assert(s.entry_ok(s.bindings[k].1));
}

/// Storing under the same path twice leaves one binding for it, with the
/// second payload as its stored bytes; every other binding is the one that
/// was there before the first store.
pub proof fn lemma_overwrite_keeps_one_binding(
    s0: ArchiveState,
    s1: ArchiveState,
    s2: ArchiveState,
    path: Seq<char>,
    first: (u32, u32, u8, Seq<u8>),
    second: (u32, u32, u8, Seq<u8>),
)
    requires
        s0.wf(),
        s1.wf(),
        s1.store_ok(s0, path, first.0, first.1, first.2, first.3),
        s2.store_ok(s1, path, second.0, second.1, second.2, second.3),
    ensures
        s2.entries() == s0.entries().insert(path, s2.entries()[path]),
        s2.entries()[path].size == second.0,
        s2.content(s2.entries()[path]) == second.3,
        s2.bindings.len() == s1.bindings.len(),
{
    let e1 = s1.entries()[path];
    let e2 = s2.entries()[path];
    assert(s1.entries().contains_key(path));
    assert(has_path(s1.bindings, path));
    assert(s0.entries().insert(path, e1).insert(path, e2) =~= s0.entries().insert(path, e2));
}

/// Bytes imported as they are stay as they are: after a raw store and the
/// writing of table and header, the path is bound to a descriptor with the
/// source's sizes and type, and the stored bytes are the source's.
pub proof fn lemma_raw_import_survives_finish(
    s0: ArchiveState,
    s1: ArchiveState,
    s2: ArchiveState,
    path: Seq<char>,
    source: GenericFileEntry,
    data: Seq<u8>,
    block: Seq<u8>,
)
    requires
        s0.wf(),
        s1.wf(),
        s1.store_ok(
            s0,
            path,
            source.size,
            source.size_compressed,
            source.entry_type,
            data,
        ),
        s2.committed(s1, Ok::<(), GrufError>(()), block),
    ensures
        s2.entries().contains_key(path),
        s2.entries()[path].size == source.size,
        s2.entries()[path].size_compressed == source.size_compressed,
        s2.entries()[path].entry_type == source.entry_type,
        s2.entries()[path].size_compressed_aligned == data.len(),
        s2.content(s2.entries()[path]) == data,
{
    assert(s1.entries().contains_key(path));
    assert(has_path(s1.bindings, path));
    let k = position_of(s1.bindings, path);
    lemma_map_of_at(s1.bindings, k);
    assert(s2.content(s1.bindings[k].1) == s1.content(s1.bindings[k].1));
}

/// A finished archive starts with a header that names the version, the
/// biased number of entries and the place of the table block; the table
/// block stands at that place; and every indexed payload stands where it
/// stood before the archive was finished.
pub proof fn lemma_finished_archive_layout(s1: ArchiveState, s2: ArchiveState, block: Seq<u8>)
    requires
        s1.wf(),
        s2.committed(s1, Ok::<(), GrufError>(()), block),
    ensures
        s2.image.subrange(0, GRF_HEADER_SIZE as int) == header_bytes(
            version_word(s1.version_major, s1.version_minor),
            (s2.table_offset - GRF_HEADER_SIZE) as u32,
            (s1.bindings.len() + GRF_FILE_COUNT_BIAS) as u32,
        ),
        s2.image.subrange(s2.table_offset as int, s2.table_offset + block.len()) == block,
        forall|i: int|
            0 <= i < s2.bindings.len() ==> s2.content((#[trigger] s2.bindings[i]).1) == s1.content(
                s1.bindings[i].1,
            ),
{
    let header = header_bytes(
        version_word(s1.version_major, s1.version_minor),
        (s2.table_offset - GRF_HEADER_SIZE) as u32,
        (s1.bindings.len() + GRF_FILE_COUNT_BIAS) as u32,
    );
    assert(header.len() == GRF_HEADER_SIZE);
    assert(s2.image.subrange(0, GRF_HEADER_SIZE as int) =~= header);
    assert(s2.image.subrange(s2.table_offset as int, s2.table_offset + block.len()) =~= block);
}

/// Position of the first zero byte of `b`, or its length if it has none.
pub open spec fn first_nul(b: Seq<u8>) -> int
    decreases b.len(),
{
    if b.len() == 0 || b[0] == 0 {
        0
    } else {
        1 + first_nul(b.drop_first())
    }
}

/// No byte of `b` is zero.
pub open spec fn nul_free(b: Seq<u8>) -> bool {
    forall|i: int| 0 <= i < b.len() ==> #[trigger] b[i] != 0
}

/// The descriptor that the seventeen bytes of a version 2 record stand
/// for.
pub open spec fn record_read(r: Seq<u8>) -> GenericFileEntry {
    GenericFileEntry {
        size_compressed: le32_value(r.subrange(0, 4)) as u32,
        size_compressed_aligned: le32_value(r.subrange(4, 8)) as u32,
        size: le32_value(r.subrange(8, 12)) as u32,
        entry_type: r[12],
        offset: (le32_value(r.subrange(13, 17)) + GRF_HEADER_SIZE) as u64,
    }
}

/// The rows that a version 2 table holds, read from its first byte on:
/// each row is a path up to its zero byte and a record of seventeen bytes.
/// There is no reading when the table ends inside a row.
pub open spec fn rows_read(t: Seq<u8>) -> Option<Seq<(Seq<u8>, GenericFileEntry)>>
    decreases t.len(),
{
    if t.len() == 0 {
        Some(Seq::empty())
    } else {
        let z = first_nul(t);
        if z < 0 || z + 18 > t.len() {
            None
        } else {
            match rows_read(t.subrange(z + 18, t.len() as int)) {
                Some(rest) => Some(
                    seq![(t.subrange(0, z), record_read(t.subrange(z + 1, z + 18)))] + rest,
                ),
                None => None,
            }
        }
    }
}

/// What a version 2 table lists for a binding: the path in Windows-1252,
/// and the descriptor with the compressed size in place of the footprint.
pub open spec fn row_listed(b: Binding) -> (Seq<u8>, GenericFileEntry) {
    (win1252(b.0), GenericFileEntry { size_compressed_aligned: b.1.size_compressed, ..b.1 })
}

/// The first zero byte behind bytes that hold none is the one that
/// follows them.
pub proof fn lemma_first_nul(a: Seq<u8>, rest: Seq<u8>)
    requires
        nul_free(a),
    ensures
        first_nul(a + seq![0u8] + rest) == a.len(),
    decreases a.len(),
{
    let t = a + seq![0u8] + rest;
    if a.len() == 0 {
        assert(t[0] == 0);
    } else {
        assert(t[0] == a[0]);
        assert(a[0] != 0);
        assert(t.drop_first() =~= a.drop_first() + seq![0u8] + rest);
        assert(nul_free(a.drop_first())) by {
            assert forall|i: int| 0 <= i < a.drop_first().len() implies #[trigger] a.drop_first()[i]
                != 0 by {
                assert(a[i + 1] != 0);
            }
        }
        lemma_first_nul(a.drop_first(), rest);
    }
}

/// A table is its first row followed by the table of the other bindings.
#[verifier::rlimit(40)]
#[verifier::spinoff_prover]
pub proof fn lemma_table_front(major: u32, s: Seq<Binding>)
    requires
        s.len() > 0,
    ensures
        table_bytes(major, s) == table_bytes(major, s.subrange(0, 1)) + table_bytes(
            major,
            s.drop_first(),
        ),
    decreases s.len(),
{
    let one = s.subrange(0, 1);
    assert(one.drop_last() =~= Seq::<Binding>::empty());
    assert(table_bytes(major, one.drop_last()) =~= Seq::<u8>::empty());
    if s.len() == 1 {
        assert(s.drop_first() =~= Seq::<Binding>::empty());
        assert(one =~= s);
        assert(table_bytes(major, s) =~= table_bytes(major, s) + Seq::<u8>::empty());
    } else {
        let init = s.drop_last();
        lemma_table_front(major, init);
        assert(init.subrange(0, 1) =~= one);
        assert(init.drop_first() =~= s.drop_first().drop_last());
        assert(s.drop_first().last() == s.last());
        let row = table_bytes(major, s) .subrange(
            table_bytes(major, init).len() as int,
            table_bytes(major, s).len() as int,
        );
        assert(table_bytes(major, s) =~= table_bytes(major, init) + row);
        assert(table_bytes(major, s.drop_first()) =~= table_bytes(major, init.drop_first()) + row);
        assert(table_bytes(major, s) =~= table_bytes(major, one) + table_bytes(
            major,
            s.drop_first(),
        ));
    }
}

/// The table of one binding is its row.
pub proof fn lemma_table_of_one(major: u32, s: Seq<Binding>)
    requires
        s.len() == 1,
    ensures
        table_bytes(major, s) == if major == 1 {
            crate::builder::row_1xx(s[0])
        } else {
            row_200(s[0])
        },
{
    assert(s.drop_last().len() == 0);
    assert(table_bytes(major, s.drop_last()) =~= Seq::<u8>::empty());
    assert(s.last() == s[0]);
    let row = if major == 1 {
        crate::builder::row_1xx(s[0])
    } else {
        row_200(s[0])
    };
    assert(table_bytes(major, s) =~= Seq::<u8>::empty() + row);
    assert(Seq::<u8>::empty() + row =~= row);
}

/// A version 2 record reads back as the descriptor it was written from,
/// with the compressed size in place of the footprint.
pub proof fn lemma_record_reads_back(e: GenericFileEntry)
    requires
        GRF_HEADER_SIZE <= e.offset,
        e.offset - GRF_HEADER_SIZE <= u32::MAX,
    ensures
        record_200(e).len() == 17,
        record_read(record_200(e)) == (GenericFileEntry {
            size_compressed_aligned: e.size_compressed,
            ..e
        }),
{
    let record = record_200(e);
    let rel = (e.offset - GRF_HEADER_SIZE) as u32;
    lemma_le32_round_trip(e.size_compressed);
    lemma_le32_round_trip(e.size);
    lemma_le32_round_trip(rel);
    assert(record.len() == 17);
    assert(record.subrange(0, 4) =~= le32(e.size_compressed));
    assert(record.subrange(4, 8) =~= le32(e.size_compressed));
    assert(record.subrange(8, 12) =~= le32(e.size));
    assert(record[12] == e.entry_type);
    assert(record.subrange(13, 17) =~= le32(rel));
}

/// Reading a table that starts with the row of `name` and `e` gives that
/// row first, and then what reading the rest gives.
#[verifier::rlimit(40)]
#[verifier::spinoff_prover]
pub proof fn lemma_read_first_row(name: Seq<u8>, e: GenericFileEntry, tail: Seq<u8>)
    requires
        nul_free(name),
        GRF_HEADER_SIZE <= e.offset,
        e.offset - GRF_HEADER_SIZE <= u32::MAX,
    ensures
        rows_read(name + seq![0u8] + record_200(e) + tail) == match rows_read(tail) {
            Some(rest) => Some(
                seq![
                    (
                        name,
                        GenericFileEntry { size_compressed_aligned: e.size_compressed, ..e },
                    ),
                ] + rest,
            ),
            None => None,
        },
{
    let record = record_200(e);
    let t = name + seq![0u8] + record + tail;
    let z = name.len() as int;
    lemma_record_reads_back(e);
    assert(t =~= name + seq![0u8] + (record + tail));
    lemma_first_nul(name, record + tail);
    assert(first_nul(t) == z);
    assert(t.len() == z + 18 + tail.len());
    assert(t.subrange(0, z) =~= name);
    assert(t.subrange(z + 1, z + 18) =~= record);
    assert(t.subrange(z + 18, t.len() as int) =~= tail);
}

/// A version 2 table is the row of its first binding followed by the
/// table of the other bindings.
pub proof fn lemma_table_200_front(s: Seq<Binding>)
    requires
        s.len() > 0,
    ensures
        table_bytes(2, s) == win1252(s[0].0) + seq![0u8] + record_200(s[0].1) + table_bytes(
            2,
            s.drop_first(),
        ),
{
    lemma_table_front(2, s);
    lemma_table_of_one(2, s.subrange(0, 1));
    assert(s.subrange(0, 1)[0] == s[0]);
    assert(row_200(s[0]) + table_bytes(2, s.drop_first()) =~= win1252(s[0].0) + seq![0u8]
        + record_200(s[0].1) + table_bytes(2, s.drop_first()));
}

/// The rows that a version 2 table lists for the bindings `s`.
pub open spec fn rows_listed(s: Seq<Binding>) -> Seq<(Seq<u8>, GenericFileEntry)> {
    Seq::new(s.len(), |i: int| row_listed(s[i]))
}

/// A version 2 table can be read back: when no path has a zero byte in its
/// Windows-1252 form, reading the table gives, in order, the path and the
/// descriptor that each row was written from.
#[verifier::rlimit(40)]
#[verifier::spinoff_prover]
pub proof fn lemma_table_200_reads_back(s: Seq<Binding>)
    requires
        rows_fit(2, s),
        forall|i: int| 0 <= i < s.len() ==> nul_free(win1252((#[trigger] s[i]).0)),
    ensures
        rows_read(table_bytes(2, s)) == Some(rows_listed(s)),
    decreases s.len(),
{
    if s.len() == 0 {
        assert(table_bytes(2, s).len() == 0);
        assert(rows_listed(s) =~= Seq::empty());
    } else {
        let b = s[0];
        let rest = s.drop_first();
        let tail = table_bytes(2, rest);
        assert(crate::builder::row_fits(2, b));
        assert(nul_free(win1252(b.0)));
        assert forall|i: int| 0 <= i < rest.len() implies crate::builder::row_fits(
            2,
            #[trigger] rest[i],
        ) && nul_free(win1252(rest[i].0)) by {
            assert(rest[i] == s[i + 1]);
        }
        lemma_table_200_reads_back(rest);
        lemma_table_200_front(s);
        lemma_read_first_row(win1252(b.0), b.1, tail);
        assert(rows_listed(s) =~= seq![row_listed(b)] + rows_listed(rest)) by {
            assert forall|i: int| 0 <= i < s.len() implies rows_listed(s)[i] == (seq![
                row_listed(b),
            ] + rows_listed(rest))[i] by {
                if i > 0 {
                    assert(rest[i - 1] == s[i]);
                }
            }
        }
    }
}

} // verus!
