use std::io::Read;

use grfpatch::archive::{GenericFileEntry, IndexSlot};
use grfpatch::builder::{
    determine_file_encryption, digit_count, encode_payload, write_at, write_grf_header,
    GrfArchiveBuilder, GrfFileEncryption, ImportSource, RawEntry, GRF_HEADER_SIZE,
};
use grfpatch::crypto::des_process_block;
use grfpatch::error::{AllocError, GrufError};

fn le32_at(bytes: &[u8], at: usize) -> u32 {
    u32::from_le_bytes([bytes[at], bytes[at + 1], bytes[at + 2], bytes[at + 3]])
}

fn inflate(bytes: &[u8]) -> Vec<u8> {
    let mut out = Vec::new();
    flate2::read::ZlibDecoder::new(bytes).read_to_end(&mut out).unwrap();
    out
}

/// Reads the header and the file table of a finished version 2 archive.
fn read_archive_200(image: &[u8]) -> Vec<(String, GenericFileEntry)> {
    assert_eq!(&image[0..16], b"Master of Magic\0");
    assert_eq!(&image[16..30], &[1u8, 2, 3, 4, 5, 6, 7, 8, 9, 10, 11, 12, 13, 14]);
    let table_offset = le32_at(image, 30) as usize + GRF_HEADER_SIZE;
    assert_eq!(le32_at(image, 34), 0);
    let count = le32_at(image, 38) as usize - 7;
    assert_eq!(le32_at(image, 42), 0x200);
    let packed_len = le32_at(image, table_offset) as usize;
    let table_len = le32_at(image, table_offset + 4) as usize;
    let table = inflate(&image[table_offset + 8..table_offset + 8 + packed_len]);
    assert_eq!(table.len(), table_len);
    let mut entries = Vec::new();
    let mut at = 0;
    while at < table.len() {
        let end = at + table[at..].iter().position(|b| *b == 0).unwrap();
        let path: String = table[at..end].iter().map(|b| *b as char).collect();
        let record = &table[end + 1..end + 18];
        entries.push((
            path,
            GenericFileEntry {
                size_compressed: le32_at(record, 0),
                size_compressed_aligned: le32_at(record, 4),
                size: le32_at(record, 8),
                entry_type: record[12],
                offset: le32_at(record, 13) as u64 + GRF_HEADER_SIZE as u64,
            },
        ));
        at = end + 18;
    }
    assert_eq!(entries.len(), count);
    entries
}

fn read_content(image: &[u8], entry: &GenericFileEntry) -> Vec<u8> {
    let start = entry.offset as usize;
    inflate(&image[start..start + entry.size_compressed as usize])
}

#[test]
fn test_add_file() {
    let test_content: Vec<(&str, Vec<u8>)> = vec![
        ("data\\file.gat", vec![0u8; 60]),
        ("data\\subfolder\\file.gnd", vec![0xCCu8; 341]),
        ("data\\file.gat", (0..129).collect()),
        ("data\\file2.gat", vec![3u8; 60]),
    ];
    let expected_content: Vec<(&str, Vec<u8>)> = vec![
        ("data\\file.gat", (0..129).collect()),
        ("data\\file2.gat", vec![3u8; 60]),
        ("data\\subfolder\\file.gnd", vec![0xCCu8; 341]),
    ];
    let mut builder = GrfArchiveBuilder::create(2, 0).unwrap();
    for (name, content) in &test_content {
        builder.add_file(name.to_string(), content.as_slice()).unwrap();
    }
    builder.finish().unwrap();
    let image = builder.image().clone();
    let entries = read_archive_200(&image);
    assert_eq!(entries.len(), 3);
    for (path, entry) in entries {
        let expected = expected_content.iter().find(|(name, _)| *name == path.as_str());
        assert!(expected.is_some());
        let expected_data = &expected.unwrap().1;
        assert_eq!(expected_data.len(), entry.size as usize);
        assert_eq!(expected_data, &read_content(&image, &entry));
        assert_eq!(entry.entry_type, 1);
    }
}

#[test]
fn fresh_archive_reserves_the_header() {
    let builder = GrfArchiveBuilder::create(2, 0).unwrap();
    assert_eq!(builder.image().len(), 46);
    assert!(builder.image().iter().all(|b| *b == 0));
    assert_eq!(builder.entry_count(), 0);
    assert_eq!(builder.free_space().tail(), 46);
    assert_eq!(builder.free_space().chunk_count(), 0);
    assert!(!builder.is_finished());
}

#[test]
fn unknown_major_version_is_refused() {
    assert!(matches!(GrfArchiveBuilder::create(3, 0), Err(GrufError::InvalidVersion)));
    assert!(matches!(GrfArchiveBuilder::create(0, 0), Err(GrufError::InvalidVersion)));
    assert!(GrfArchiveBuilder::create(1, 3).is_ok());
}

#[test]
fn finish_twice_is_finish_once() {
    let mut builder = GrfArchiveBuilder::create(2, 0).unwrap();
    builder.add_file("a.txt".to_string(), b"hello hello hello").unwrap();
    builder.finish().unwrap();
    let once = builder.image().clone();
    let tail = builder.free_space().tail();
    builder.finish().unwrap();
    assert_eq!(&once, builder.image());
    assert_eq!(tail, builder.free_space().tail());
    assert!(builder.is_finished());
}

#[test]
fn removed_range_is_reused_first_fit() {
    let mut builder = GrfArchiveBuilder::create(2, 0).unwrap();
    let payload = vec![7u8; 100];
    for name in ["e1", "e2", "e3"] {
        builder.store_payload(name.to_string(), 100, 100, 1, &payload).unwrap();
    }
    let e2 = builder.get_entry(&"e2".to_string()).unwrap();
    assert_eq!(e2.offset, 146);
    assert_eq!(builder.remove_file(&"e2".to_string()), Ok(true));
    assert_eq!(builder.free_space().chunk_count(), 1);
    let chunk = builder.free_space().chunk_at(0);
    assert_eq!((chunk.offset, chunk.size), (146, 100));
    builder.store_payload("e4".to_string(), 100, 100, 1, &payload).unwrap();
    assert_eq!(builder.get_entry(&"e4".to_string()).unwrap().offset, 146);
    assert_eq!(builder.free_space().chunk_count(), 0);
    assert_eq!(builder.remove_file(&"missing".to_string()), Ok(false));
}

#[test]
fn overwrite_at_the_tail_grows_in_place() {
    let mut builder = GrfArchiveBuilder::create(2, 0).unwrap();
    builder.store_payload("e".to_string(), 50, 50, 1, &[1u8; 50]).unwrap();
    let before = builder.get_entry(&"e".to_string()).unwrap();
    assert_eq!(builder.free_space().tail(), 96);
    assert_eq!(builder.image().len(), 96);
    builder.store_payload("e".to_string(), 80, 80, 1, &[2u8; 80]).unwrap();
    let after = builder.get_entry(&"e".to_string()).unwrap();
    assert_eq!(after.offset, before.offset);
    assert_eq!(builder.free_space().tail(), 126);
    assert_eq!(builder.image().len(), 126);
    assert_eq!(&builder.image()[46..126], &[2u8; 80]);
}

#[test]
fn overwrite_that_does_not_fit_moves_behind() {
    let mut builder = GrfArchiveBuilder::create(2, 0).unwrap();
    builder.store_payload("e1".to_string(), 50, 50, 1, &[1u8; 50]).unwrap();
    builder.store_payload("e2".to_string(), 50, 50, 1, &[2u8; 50]).unwrap();
    builder.store_payload("e1".to_string(), 200, 200, 1, &[3u8; 200]).unwrap();
    let e1 = builder.get_entry(&"e1".to_string()).unwrap();
    let e2 = builder.get_entry(&"e2".to_string()).unwrap();
    assert_eq!(e2.offset, 96);
    assert_eq!(e1.offset, 146);
    assert_eq!(builder.free_space().chunk_count(), 1);
    let chunk = builder.free_space().chunk_at(0);
    assert_eq!((chunk.offset, chunk.size), (46, 50));
    assert_eq!(&builder.image()[96..146], &[2u8; 50]);
    assert_eq!(builder.entry_count(), 2);
}

#[test]
fn store_refuses_what_breaks_the_descriptor() {
    let mut builder = GrfArchiveBuilder::create(1, 3).unwrap();
    assert_eq!(
        builder.store_payload("odd".to_string(), 5, 5, 1, &[0u8; 5]),
        Err(GrufError::Serialization)
    );
    assert_eq!(
        builder.store_payload("short".to_string(), 5, 9, 1, &[0u8; 8]),
        Err(GrufError::Serialization)
    );
    assert_eq!(builder.entry_count(), 0);
    assert_eq!(builder.store_payload("even".to_string(), 5, 5, 1, &[0u8; 8]), Ok(()));
}

#[test]
fn version_1_payloads_are_padded_to_eight() {
    let mut builder = GrfArchiveBuilder::create(1, 3).unwrap();
    builder.add_file("data\\a.txt".to_string(), &[9u8; 300]).unwrap();
    builder.add_file("data\\b.gat".to_string(), &[5u8; 77]).unwrap();
    for name in ["data\\a.txt", "data\\b.gat"] {
        let e = builder.get_entry(&name.to_string()).unwrap();
        assert_eq!(e.size_compressed_aligned % 8, 0);
        assert!(e.size_compressed <= e.size_compressed_aligned);
        assert!(e.size_compressed_aligned - e.size_compressed < 8);
        assert_eq!(e.entry_type, 1);
    }
    assert_eq!(builder.get_entry(&"data\\a.txt".to_string()).unwrap().size, 300);
    builder.finish().unwrap();
    let image = builder.image();
    assert_eq!(le32_at(image, 42), 0x103);
    assert_eq!(le32_at(image, 38), 9);
}

#[test]
fn digit_count_counts_decimal_digits() {
    assert_eq!(digit_count(0), 1);
    assert_eq!(digit_count(9), 1);
    assert_eq!(digit_count(10), 2);
    assert_eq!(digit_count(99), 2);
    assert_eq!(digit_count(100), 3);
    assert_eq!(digit_count(12345), 5);
    assert_eq!(digit_count(usize::MAX), usize::MAX.to_string().len());
}

#[test]
fn special_extensions_get_cycle_zero() {
    for name in ["a.gnd", "data\\x.gat", "b.act", "c.str", ".gat"] {
        assert_eq!(determine_file_encryption(name, 123456), GrfFileEncryption::Encrypted(0));
    }
    assert_eq!(determine_file_encryption("a.GAT", 123456), GrfFileEncryption::Encrypted(6));
    assert_eq!(determine_file_encryption("a.txt", 96), GrfFileEncryption::Encrypted(2));
    assert_eq!(determine_file_encryption("gat", 8), GrfFileEncryption::Encrypted(1));
    assert_eq!(determine_file_encryption("", 1000), GrfFileEncryption::Encrypted(4));
}

fn raw_entry(image: &[u8], entry: &GenericFileEntry) -> RawEntry {
    let start = entry.offset as usize;
    RawEntry {
        size: entry.size,
        size_compressed: entry.size_compressed,
        size_compressed_aligned: entry.size_compressed_aligned,
        entry_type: entry.entry_type,
        data: image[start..start + entry.size_compressed_aligned as usize].to_vec(),
    }
}

fn small_archive() -> Vec<u8> {
    let mut source = GrfArchiveBuilder::create(2, 0).unwrap();
    source.add_file("data\\one.txt".to_string(), &[1u8; 500]).unwrap();
    source.add_file("data\\two.bmp".to_string(), b"two two two two two").unwrap();
    source.add_file("data\\three.gat".to_string(), &(0..=255).collect::<Vec<u8>>()).unwrap();
    source.finish().unwrap();
    source.image().clone()
}

#[test]
fn test_import_raw_entry_from_grf() {
    let source = small_archive();
    let source_entries = read_archive_200(&source);
    assert!(source_entries.len() >= 2);
    let mut builder = GrfArchiveBuilder::create(2, 0).unwrap();
    for (path, entry) in &source_entries {
        builder
            .import_raw_entry_from_grf(2, path.clone(), ImportSource::Raw(raw_entry(&source, entry)))
            .unwrap();
    }
    builder.finish().unwrap();
    let output = builder.image().clone();
    let output_entries = read_archive_200(&output);
    assert_eq!(output_entries.len(), source_entries.len());
    for (path, entry) in output_entries {
        let (_, source_entry) = source_entries.iter().find(|(p, _)| *p == path).unwrap();
        let expected_content = read_content(&source, source_entry);
        assert_eq!(expected_content.len(), entry.size as usize);
        assert_eq!(expected_content, read_content(&output, &entry));
        let start = entry.offset as usize;
        let source_start = source_entry.offset as usize;
        let len = entry.size_compressed_aligned as usize;
        assert_eq!(&output[start..start + len], &source[source_start..source_start + len]);
    }
}

#[test]
fn import_of_a_missing_entry_is_refused() {
    let mut builder = GrfArchiveBuilder::create(2, 0).unwrap();
    assert_eq!(
        builder.import_raw_entry_from_grf(2, "x".to_string(), ImportSource::Missing),
        Err(GrufError::EntryNotFound)
    );
    assert_eq!(
        builder.import_raw_entry_from_thor("x".to_string(), ImportSource::Missing),
        Err(GrufError::EntryNotFound)
    );
    assert_eq!(builder.entry_count(), 0);
}

#[test]
fn raw_import_across_version_classes_is_refused() {
    let raw = RawEntry {
        size: 10,
        size_compressed: 8,
        size_compressed_aligned: 8,
        entry_type: 1,
        data: vec![0u8; 8],
    };
    let mut old = GrfArchiveBuilder::create(1, 3).unwrap();
    assert!(!old.accepts_raw_from_grf(2));
    assert!(old.accepts_raw_from_grf(1));
    assert!(!old.accepts_raw_from_thor());
    assert_eq!(
        old.import_raw_entry_from_grf(2, "x".to_string(), ImportSource::Raw(raw.clone())),
        Err(GrufError::InvalidVersion)
    );
    assert_eq!(
        old.import_raw_entry_from_thor("x".to_string(), ImportSource::Raw(raw.clone())),
        Err(GrufError::InvalidVersion)
    );
    assert_eq!(
        old.import_raw_entry_from_grf(1, "x".to_string(), ImportSource::Raw(raw.clone())),
        Ok(())
    );
    let mut new = GrfArchiveBuilder::create(2, 0).unwrap();
    assert_eq!(
        new.import_raw_entry_from_grf(1, "x".to_string(), ImportSource::Raw(raw.clone())),
        Err(GrufError::InvalidVersion)
    );
    assert_eq!(
        new.import_raw_entry_from_grf(1, "x".to_string(), ImportSource::Content(vec![1, 2, 3])),
        Ok(())
    );
    assert_eq!(new.get_entry(&"x".to_string()).unwrap().size, 3);
}

#[test]
fn raw_import_checks_the_length_of_the_bytes() {
    let raw = RawEntry {
        size: 10,
        size_compressed: 7,
        size_compressed_aligned: 9,
        entry_type: 3,
        data: vec![0u8; 7],
    };
    let mut builder = GrfArchiveBuilder::create(2, 0).unwrap();
    assert_eq!(
        builder.import_raw_entry_from_grf(2, "x".to_string(), ImportSource::Raw(raw.clone())),
        Err(GrufError::Serialization)
    );
    assert_eq!(
        builder.import_raw_entry_from_thor("x".to_string(), ImportSource::Raw(raw)),
        Ok(())
    );
    let e = builder.get_entry(&"x".to_string()).unwrap();
    assert_eq!((e.size, e.size_compressed, e.size_compressed_aligned, e.entry_type), (10, 7, 7, 1));
}

#[test]
fn grf_import_keeps_the_entry_type() {
    let raw = RawEntry {
        size: 10,
        size_compressed: 7,
        size_compressed_aligned: 9,
        entry_type: 3,
        data: vec![5u8; 9],
    };
    let mut builder = GrfArchiveBuilder::create(2, 0).unwrap();
    builder.import_raw_entry_from_grf(2, "x".to_string(), ImportSource::Raw(raw)).unwrap();
    let e = builder.get_entry(&"x".to_string()).unwrap();
    assert_eq!((e.size, e.size_compressed, e.size_compressed_aligned, e.entry_type), (10, 7, 9, 3));
    builder.finish().unwrap();
    let listed = read_archive_200(builder.image());
    assert_eq!(listed[0].1.entry_type, 3);
    assert_eq!(listed[0].1.size_compressed_aligned, 7);
}

#[test]
fn open_takes_over_an_existing_archive() {
    let image = small_archive();
    let listing: Vec<IndexSlot> = read_archive_200(&image)
        .into_iter()
        .map(|(path, entry)| IndexSlot { path, entry })
        .collect();
    let mut builder = GrfArchiveBuilder::open(image.clone(), 2, 0, &listing).unwrap();
    assert_eq!(builder.entry_count(), 3);
    assert_eq!(builder.image(), &image);
    let last_end = listing
        .iter()
        .map(|s| s.entry.offset + s.entry.size_compressed_aligned as u64)
        .max()
        .unwrap();
    assert_eq!(builder.free_space().tail(), last_end);
    assert_eq!(builder.free_space().chunk_count(), 0);
    assert_eq!(builder.remove_file(&"data\\two.bmp".to_string()), Ok(true));
    builder.add_file("data\\four.txt".to_string(), b"four").unwrap();
    builder.finish().unwrap();
    let entries = read_archive_200(builder.image());
    assert_eq!(entries.len(), 3);
    for (path, entry) in &entries {
        let content = read_content(builder.image(), entry);
        match path.as_str() {
            "data\\one.txt" => assert_eq!(content, vec![1u8; 500]),
            "data\\three.gat" => assert_eq!(content, (0..=255).collect::<Vec<u8>>()),
            "data\\four.txt" => assert_eq!(content, b"four".to_vec()),
            other => panic!("unexpected entry {}", other),
        }
    }
}

#[test]
fn open_refuses_an_unsound_listing() {
    let image = vec![0u8; 200];
    let entry = |offset: u64, len: u32| GenericFileEntry {
        offset,
        size: len,
        size_compressed: len,
        size_compressed_aligned: len,
        entry_type: 1,
    };
    let slot = |path: &str, e: GenericFileEntry| IndexSlot { path: path.to_string(), entry: e };
    let overlapping = vec![slot("a", entry(46, 50)), slot("b", entry(90, 20))];
    assert!(matches!(
        GrfArchiveBuilder::open(image.clone(), 2, 0, &overlapping),
        Err(GrufError::Allocator(AllocError::OutOfSpace))
    ));
    let twice = vec![slot("a", entry(46, 50)), slot("a", entry(100, 20))];
    assert!(matches!(
        GrfArchiveBuilder::open(image.clone(), 2, 0, &twice),
        Err(GrufError::Serialization)
    ));
    let beyond = vec![slot("a", entry(190, 50))];
    assert!(matches!(
        GrfArchiveBuilder::open(image.clone(), 2, 0, &beyond),
        Err(GrufError::Serialization)
    ));
    let in_header = vec![slot("a", entry(10, 50))];
    assert!(matches!(
        GrfArchiveBuilder::open(image.clone(), 2, 0, &in_header),
        Err(GrufError::Serialization)
    ));
    assert!(matches!(
        GrfArchiveBuilder::open(image.clone(), 7, 0, &Vec::new()),
        Err(GrufError::InvalidVersion)
    ));
    assert!(matches!(
        GrfArchiveBuilder::open(vec![0u8; 10], 2, 0, &Vec::new()),
        Err(GrufError::Serialization)
    ));
    let gap = vec![slot("b", entry(100, 20)), slot("a", entry(46, 50))];
    let builder = GrfArchiveBuilder::open(image, 2, 0, &gap).unwrap();
    assert_eq!(builder.free_space().chunk_count(), 1);
    let chunk = builder.free_space().chunk_at(0);
    assert_eq!((chunk.offset, chunk.size), (96, 4));
    assert_eq!(builder.free_space().tail(), 120);
}

#[test]
fn header_has_the_documented_layout() {
    let header = write_grf_header(0x200, 0x01020304, 10);
    assert_eq!(header.len(), 46);
    assert_eq!(&header[0..15], b"Master of Magic");
    assert_eq!(header[15], 0);
    assert_eq!(&header[16..30], &[1u8, 2, 3, 4, 5, 6, 7, 8, 9, 10, 11, 12, 13, 14]);
    assert_eq!(&header[30..34], &[4u8, 3, 2, 1]);
    assert_eq!(&header[34..38], &[0u8; 4]);
    assert_eq!(&header[38..42], &[10u8, 0, 0, 0]);
    assert_eq!(&header[42..46], &[0u8, 2, 0, 0]);
}

#[test]
fn write_at_fills_gaps_with_zeros() {
    let mut image = vec![1u8, 2, 3];
    write_at(&mut image, 5, &[9, 9]);
    assert_eq!(image, vec![1, 2, 3, 0, 0, 9, 9]);
    write_at(&mut image, 1, &[7]);
    assert_eq!(image, vec![1, 7, 3, 0, 0, 9, 9]);
    write_at(&mut image, 9, &[]);
    assert_eq!(image, vec![1, 7, 3, 0, 0, 9, 9, 0, 0]);
}

#[test]
fn version_2_payload_is_the_compressed_stream() {
    let stream = vec![1u8, 2, 3, 4, 5];
    assert_eq!(encode_payload(2, "a.txt", stream.clone()), stream);
    let padded = encode_payload(1, "a.txt", stream.clone());
    assert_eq!(padded.len(), 8);
    assert_ne!(&padded[0..5], &stream[..]);
}

/// Reads the rows of a version 1 file table the way a reader does.
fn read_table_1xx(table: &[u8]) -> Vec<(String, u32, u32, u32, u8, u32)> {
    let mut rows = Vec::new();
    let mut at = 0;
    while at < table.len() {
        let name_len = le32_at(table, at) as usize - 6;
        assert_eq!(&table[at + 4..at + 6], &[0u8, 0]);
        let mut name = table[at + 6..at + 6 + name_len].to_vec();
        for block in name.chunks_mut(8) {
            let mut swapped = [0u8; 8];
            for k in 0..8 {
                swapped[k] = (block[k] >> 4) | (block[k] << 4);
            }
            block.copy_from_slice(&des_process_block(&swapped));
        }
        let end = name.iter().position(|b| *b == 0).unwrap_or(name.len());
        let path: String = name[..end].iter().map(|b| *b as char).collect();
        let rest = at + 6 + name_len;
        assert_eq!(&table[rest..rest + 4], &[0u8; 4]);
        let record = &table[rest + 4..rest + 21];
        rows.push((
            path,
            le32_at(record, 0),
            le32_at(record, 4),
            le32_at(record, 8),
            record[12],
            le32_at(record, 13),
        ));
        at = rest + 21;
    }
    rows
}

#[test]
fn version_1_table_lists_every_entry() {
    let mut builder = GrfArchiveBuilder::create(1, 3).unwrap();
    builder.add_file("data\\monster.spr".to_string(), &[9u8; 300]).unwrap();
    builder.add_file("data\\map.gat".to_string(), &[5u8; 77]).unwrap();
    let first = builder.get_entry(&"data\\monster.spr".to_string()).unwrap();
    let second = builder.get_entry(&"data\\map.gat".to_string()).unwrap();
    assert!(builder.write_grf_table_200().is_ok());
    let table = builder.write_grf_table_1xx().unwrap();
    let rows = read_table_1xx(&table);
    assert_eq!(rows.len(), 2);
    for (row, (path, e)) in rows.iter().zip([("data\\monster.spr", first), ("data\\map.gat", second)]) {
        assert_eq!(row.0, path);
        assert_eq!(row.1, e.size_compressed + e.size + 0x02CB);
        assert_eq!(row.2, e.size_compressed_aligned + 0x92CB);
        assert_eq!(row.3, e.size);
        assert_eq!(row.4, 1);
        assert_eq!(row.5 as u64, e.offset - 46);
    }
    builder.finish().unwrap();
    let image = builder.image();
    let table_offset = le32_at(image, 30) as usize + 46;
    assert_eq!(&image[table_offset..table_offset + table.len()], &table[..]);
}

#[test]
fn a_path_outside_the_code_page_fails_the_finish() {
    let mut builder = GrfArchiveBuilder::create(2, 0).unwrap();
    builder.add_file("data\\\u{4e2d}.txt".to_string(), b"x").unwrap();
    let before = builder.image().clone();
    assert_eq!(builder.finish(), Err(GrufError::Serialization));
    assert!(builder.is_finished());
    assert_eq!(builder.image(), &before);
}

/// Marks every byte of the used part of the file as free or as held by an entry, and
/// fails if a byte is marked twice or not at all.
fn assert_partition(builder: &GrfArchiveBuilder, paths: &[&str]) {
    let tail = builder.free_space().tail() as usize;
    let mut owner = vec![0u8; tail];
    for i in 0..builder.free_space().chunk_count() {
        let chunk = builder.free_space().chunk_at(i);
        for p in chunk.offset..chunk.offset + chunk.size {
            owner[p as usize] += 1;
        }
    }
    for path in paths {
        if let Some(e) = builder.get_entry(&path.to_string()) {
            for p in e.offset..e.offset + e.size_compressed_aligned as u64 {
                owner[p as usize] += 1;
            }
        }
    }
    assert!(owner[..46].iter().all(|n| *n == 0));
    assert!(owner[46..].iter().all(|n| *n == 1));
}

#[test]
fn ranges_partition_the_file_after_every_step() {
    let paths = ["a", "b", "c", "d"];
    let mut builder = GrfArchiveBuilder::create(2, 0).unwrap();
    assert_partition(&builder, &paths);
    builder.add_file("a".to_string(), &[1u8; 4000]).unwrap();
    assert_partition(&builder, &paths);
    builder.add_file("b".to_string(), &(0..=255).cycle().take(3000).collect::<Vec<u8>>()).unwrap();
    assert_partition(&builder, &paths);
    builder.add_file("c".to_string(), b"cccc").unwrap();
    assert_partition(&builder, &paths);
    builder.add_file("a".to_string(), &(0..=255).rev().cycle().take(5000).collect::<Vec<u8>>()).unwrap();
    assert_partition(&builder, &paths);
    builder.remove_file(&"b".to_string()).unwrap();
    assert_partition(&builder, &paths);
    builder.add_file("d".to_string(), b"dd").unwrap();
    assert_partition(&builder, &paths);
    builder.add_file("c".to_string(), b"c").unwrap();
    assert_partition(&builder, &paths);
    builder.remove_file(&"a".to_string()).unwrap();
    builder.remove_file(&"c".to_string()).unwrap();
    builder.remove_file(&"d".to_string()).unwrap();
    assert_partition(&builder, &paths);
    assert_eq!(builder.free_space().tail(), 46);
    assert_eq!(builder.entry_count(), 0);
}

#[test]
fn overwritten_content_is_not_listed() {
    let mut builder = GrfArchiveBuilder::create(2, 0).unwrap();
    builder.add_file("p".to_string(), &[0xAAu8; 64]).unwrap();
    builder.add_file("p".to_string(), b"second content").unwrap();
    builder.finish().unwrap();
    let entries = read_archive_200(builder.image());
    assert_eq!(entries.len(), 1);
    assert_eq!(entries[0].0, "p");
    assert_eq!(entries[0].1.size, 14);
    assert_eq!(read_content(builder.image(), &entries[0].1), b"second content".to_vec());
}

#[test]
fn table_block_carries_both_lengths() {
    assert_eq!(
        grfpatch::builder::frame_table_200(5, &[1, 2, 3]),
        Ok(vec![3, 0, 0, 0, 5, 0, 0, 0, 1, 2, 3])
    );
}

#[test]
fn committing_writes_block_and_header() {
    let mut builder = GrfArchiveBuilder::create(2, 1).unwrap();
    builder.store_payload("a".to_string(), 4, 4, 1, &[7u8; 4]).unwrap();
    builder.commit_table(&[0xEE; 6]).unwrap();
    assert!(builder.is_finished());
    let image = builder.image();
    assert_eq!(image.len(), 56);
    assert_eq!(&image[46..50], &[7u8; 4]);
    assert_eq!(&image[50..56], &[0xEE; 6]);
    assert_eq!(le32_at(image, 30), 4);
    assert_eq!(le32_at(image, 38), 8);
    assert_eq!(le32_at(image, 42), 0x201);
    assert_eq!(builder.free_space().tail(), 56);
}

#[test]
fn compressed_content_is_stored_as_a_regular_file() {
    let mut builder = GrfArchiveBuilder::create(2, 0).unwrap();
    builder.add_compressed("x".to_string(), 1000, vec![1, 2, 3, 4, 5]).unwrap();
    let e = builder.get_entry(&"x".to_string()).unwrap();
    assert_eq!((e.offset, e.size, e.size_compressed, e.size_compressed_aligned, e.entry_type), (46, 1000, 5, 5, 1));
    assert_eq!(&builder.image()[46..51], &[1, 2, 3, 4, 5]);
    let mut old = GrfArchiveBuilder::create(1, 3).unwrap();
    old.add_compressed("x".to_string(), 1000, vec![1, 2, 3, 4, 5]).unwrap();
    let e = old.get_entry(&"x".to_string()).unwrap();
    assert_eq!((e.size, e.size_compressed, e.size_compressed_aligned), (1000, 5, 8));
    builder.finish_with_table(0, &[]).unwrap();
    assert_eq!(&builder.image()[51..59], &[0u8; 8]);
}

#[test]
fn index_keeps_the_order_of_first_insertion() {
    let entry = |offset: u64| GenericFileEntry {
        offset,
        size: 1,
        size_compressed: 1,
        size_compressed_aligned: 1,
        entry_type: 1,
    };
    let mut index = grfpatch::archive::EntryIndex::new();
    assert_eq!(index.insert("a".to_string(), entry(1)), None);
    assert_eq!(index.insert("b".to_string(), entry(2)), None);
    assert_eq!(index.insert("a".to_string(), entry(3)), Some(entry(1)));
    assert_eq!(index.len(), 2);
    assert_eq!(index.slot(0).path, "a");
    assert_eq!(index.slot(0).entry, entry(3));
    assert_eq!(index.get(&"b".to_string()), Some(entry(2)));
    assert_eq!(index.get(&"c".to_string()), None);
    assert_eq!(index.remove(&"a".to_string()), Some(entry(3)));
    assert_eq!(index.remove(&"a".to_string()), None);
    assert_eq!(index.len(), 1);
    assert_eq!(index.slot(0).path, "b");
}

#[test]
fn entries_are_listed_in_the_order_they_were_added() {
    let mut builder = GrfArchiveBuilder::create(2, 0).unwrap();
    assert_eq!(builder.table_offset(), 0);
    builder.store_payload("first".to_string(), 3, 3, 1, &[1, 2, 3]).unwrap();
    builder.store_payload("second".to_string(), 2, 2, 1, &[4, 5]).unwrap();
    builder.store_payload("first".to_string(), 1, 1, 1, &[6]).unwrap();
    assert_eq!(builder.entry_count(), 2);
    assert_eq!(builder.entry_at(0).path, "first");
    assert_eq!(builder.entry_at(0).entry.size, 1);
    assert_eq!(builder.entry_at(1).path, "second");
    builder.finish().unwrap();
    assert_eq!(builder.table_offset() as usize, le32_at(builder.image(), 30) as usize + 46);
    assert_eq!(builder.version_major(), 2);
    assert_eq!(builder.version_minor(), 0);
}

fn padded_entry() -> RawEntry {
    RawEntry {
        size: 10,
        size_compressed: 7,
        size_compressed_aligned: 9,
        entry_type: 3,
        data: vec![5u8; 9],
    }
}

#[test]
fn removal_frees_the_whole_footprint() {
    let mut builder = GrfArchiveBuilder::create(2, 0).unwrap();
    builder
        .import_raw_entry_from_grf(2, "x".to_string(), ImportSource::Raw(padded_entry()))
        .unwrap();
    builder.store_payload("y".to_string(), 4, 4, 1, &[1u8; 4]).unwrap();
    assert_eq!(builder.get_entry(&"y".to_string()).unwrap().offset, 55);
    assert_eq!(builder.remove_file(&"x".to_string()), Ok(true));
    assert_eq!(builder.free_space().chunk_count(), 1);
    let chunk = builder.free_space().chunk_at(0);
    assert_eq!((chunk.offset, chunk.size), (46, 9));
    assert_partition(&builder, &["x", "y"]);
}

#[test]
fn overwriting_frees_the_padding_too() {
    let mut builder = GrfArchiveBuilder::create(2, 0).unwrap();
    builder
        .import_raw_entry_from_grf(2, "x".to_string(), ImportSource::Raw(padded_entry()))
        .unwrap();
    builder.store_payload("y".to_string(), 4, 4, 1, &[1u8; 4]).unwrap();
    builder.store_payload("x".to_string(), 3, 3, 1, &[2u8; 3]).unwrap();
    assert_eq!(builder.get_entry(&"x".to_string()).unwrap().offset, 46);
    let chunk = builder.free_space().chunk_at(0);
    assert_eq!((chunk.offset, chunk.size), (49, 6));
    assert_partition(&builder, &["x", "y"]);
    builder.store_payload("x".to_string(), 20, 20, 1, &[3u8; 20]).unwrap();
    assert_eq!(builder.get_entry(&"x".to_string()).unwrap().offset, 59);
    let chunk = builder.free_space().chunk_at(0);
    assert_eq!((chunk.offset, chunk.size), (46, 9));
    assert_partition(&builder, &["x", "y"]);
}

#[test]
fn version_1_ranges_partition_the_file_after_every_step() {
    let paths = ["data\\a.txt", "data\\b.gat", "data\\c.spr"];
    let mut builder = GrfArchiveBuilder::create(1, 3).unwrap();
    builder.add_file(paths[0].to_string(), &[1u8; 333]).unwrap();
    assert_partition(&builder, &paths);
    builder.add_file(paths[1].to_string(), &(0..=255).collect::<Vec<u8>>()).unwrap();
    assert_partition(&builder, &paths);
    builder.add_file(paths[2].to_string(), b"c").unwrap();
    assert_partition(&builder, &paths);
    let first = builder.get_entry(&paths[0].to_string()).unwrap();
    assert!(first.size_compressed < first.size_compressed_aligned);
    builder.add_file(paths[0].to_string(), &(0..=255).rev().cycle().take(999).collect::<Vec<u8>>()).unwrap();
    assert_partition(&builder, &paths);
    builder.add_file(paths[1].to_string(), b"bb").unwrap();
    assert_partition(&builder, &paths);
    assert_eq!(builder.remove_file(&paths[2].to_string()), Ok(true));
    assert_partition(&builder, &paths);
    assert_eq!(builder.remove_file(&paths[0].to_string()), Ok(true));
    assert_eq!(builder.remove_file(&paths[1].to_string()), Ok(true));
    assert_partition(&builder, &paths);
    assert_eq!(builder.free_space().tail(), 46);
}
