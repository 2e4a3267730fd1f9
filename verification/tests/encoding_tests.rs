use grfpatch::crypto::{
    des_process_block, encrypt_file_content, encrypt_file_name, pad_to_block, S_TABLE_0, S_TABLE_1,
    S_TABLE_2, S_TABLE_3,
};
use grfpatch::encoding::{
    encode_win1252_char, push_bytes, push_le32, serialize_as_win1252_cstr_into,
    serialize_to_win1252,
};
use grfpatch::error::GrufError;

#[test]
fn integers_are_written_least_significant_byte_first() {
    let mut out = vec![0xAAu8];
    push_le32(&mut out, 0x12345678);
    push_le32(&mut out, 1);
    push_bytes(&mut out, &[7, 8]);
    assert_eq!(out, vec![0xAA, 0x78, 0x56, 0x34, 0x12, 1, 0, 0, 0, 7, 8]);
}

#[test]
fn code_page_covers_latin_1_and_the_redefined_range() {
    assert_eq!(encode_win1252_char('A'), Some(0x41));
    assert_eq!(encode_win1252_char('\\'), Some(0x5C));
    assert_eq!(encode_win1252_char('\u{e9}'), Some(0xE9));
    assert_eq!(encode_win1252_char('\u{ff}'), Some(0xFF));
    assert_eq!(encode_win1252_char('\u{a0}'), Some(0xA0));
    assert_eq!(encode_win1252_char('\u{20ac}'), Some(0x80));
    assert_eq!(encode_win1252_char('\u{2122}'), Some(0x99));
    assert_eq!(encode_win1252_char('\u{178}'), Some(0x9F));
    assert_eq!(encode_win1252_char('\u{81}'), Some(0x81));
    assert_eq!(encode_win1252_char('\u{80}'), None);
    assert_eq!(encode_win1252_char('\u{99}'), None);
    assert_eq!(encode_win1252_char('\u{100}'), None);
    assert_eq!(encode_win1252_char('\u{4e2d}'), None);
}

#[test]
fn paths_are_transcoded_one_byte_per_character() {
    assert_eq!(serialize_to_win1252("data\\caf\u{e9}.txt"), Ok(b"data\\caf\xe9.txt".to_vec()));
    assert_eq!(serialize_to_win1252(""), Ok(Vec::new()));
    assert_eq!(serialize_to_win1252("a\u{3b1}"), Err(GrufError::Serialization));
    let mut out = vec![1u8];
    assert_eq!(serialize_as_win1252_cstr_into(&mut out, "ab"), Ok(()));
    assert_eq!(out, vec![1, b'a', b'b', 0]);
    assert_eq!(serialize_as_win1252_cstr_into(&mut out, "\u{3b1}"), Err(GrufError::Serialization));
    assert_eq!(out, vec![1, b'a', b'b', 0]);
}

#[test]
fn the_cipher_is_its_own_inverse() {
    let blocks: [[u8; 8]; 4] = [
        [0; 8],
        [0xFF; 8],
        [1, 2, 3, 4, 5, 6, 7, 8],
        [0x78, 0x9C, 0xED, 0xC1, 0x01, 0x0D, 0x00, 0x00],
    ];
    for block in blocks {
        let once = des_process_block(&block);
        assert_ne!(once, block);
        assert_eq!(des_process_block(&once), block);
    }
}

#[test]
fn the_cipher_changes_the_left_half_only_after_permutation() {
    // Two blocks that differ in one bit stay different.
    let a = des_process_block(&[0, 0, 0, 0, 0, 0, 0, 0]);
    let b = des_process_block(&[0, 0, 0, 0, 0, 0, 0, 1]);
    assert_ne!(a, b);
}

#[test]
fn substitution_boxes_are_permutations_in_every_row() {
    for table in [S_TABLE_0, S_TABLE_1, S_TABLE_2, S_TABLE_3] {
        for high in [true, false] {
            for row in 0..4usize {
                let mut seen = [false; 16];
                for col in 0..16usize {
                    let index = ((row & 2) << 4) | (col << 1) | (row & 1);
                    let v = if high { table[index] >> 4 } else { table[index] & 0x0F };
                    seen[v as usize] = true;
                }
                assert!(seen.iter().all(|s| *s));
            }
        }
    }
}

fn substitute(b: u8) -> u8 {
    match b {
        0x00 => 0x2B,
        0x2B => 0x00,
        0x6C => 0x80,
        0x80 => 0x6C,
        0x01 => 0x68,
        0x68 => 0x01,
        0x48 => 0x77,
        0x77 => 0x48,
        0x60 => 0xFF,
        0xFF => 0x60,
        0xB9 => 0xC0,
        0xC0 => 0xB9,
        0xFE => 0xEB,
        0xEB => 0xFE,
        other => other,
    }
}

/// Undoes the scrambling of a payload the way a reader does.
fn decode_content(data: &mut [u8], cycle: usize) {
    let gap = if cycle == 0 {
        0
    } else if cycle < 3 {
        1
    } else if cycle < 5 {
        cycle + 1
    } else if cycle < 7 {
        cycle + 9
    } else {
        cycle + 15
    };
    let mut plain = 0usize;
    for (i, block) in data.chunks_exact_mut(8).enumerate() {
        let b: [u8; 8] = [block[0], block[1], block[2], block[3], block[4], block[5], block[6], block[7]];
        if i < 20 || (gap > 0 && i % gap == 0) {
            block.copy_from_slice(&des_process_block(&b));
            continue;
        }
        if gap == 0 {
            continue;
        }
        if plain != 0 && plain % 7 == 0 {
            block.copy_from_slice(&[b[3], b[4], b[6], b[0], b[1], b[2], b[5], substitute(b[7])]);
        }
        plain += 1;
    }
}

#[test]
fn scrambled_payloads_decode_to_what_they_were() {
    let original: Vec<u8> = (0..2003u32).map(|i| (i * 31 % 251) as u8).collect();
    for cycle in [0usize, 1, 2, 3, 4, 5, 7] {
        let mut data = original.clone();
        encrypt_file_content(&mut data, cycle);
        assert_eq!(data.len(), original.len());
        assert_ne!(data, original);
        assert_eq!(&data[2000..], &original[2000..]);
        decode_content(&mut data, cycle);
        assert_eq!(data, original);
    }
}

#[test]
fn cycle_decides_which_blocks_are_touched() {
    let original = vec![0x55u8; 8 * 40];
    let mut head_only = original.clone();
    encrypt_file_content(&mut head_only, 0);
    assert_eq!(&head_only[160..], &original[160..]);
    assert_ne!(&head_only[152..160], &original[152..160]);
    let mut spaced = original.clone();
    encrypt_file_content(&mut spaced, 3);
    // With three digits every fourth block is ciphered: 20, 24, 28, ...
    assert_ne!(&spaced[160..168], &original[160..168]);
    assert_eq!(&spaced[168..176], &original[168..176]);
    assert_ne!(&spaced[192..200], &original[192..200]);
    // Block 30 is the seventh that is not ciphered behind the head; it is shuffled,
    // which leaves a block of equal bytes as it is.
    assert_eq!(&spaced[240..248], &original[240..248]);
    let mut counted: Vec<u8> = (0..8 * 40u32).map(|i| i as u8).collect();
    let before = counted.clone();
    encrypt_file_content(&mut counted, 3);
    assert_eq!(&counted[232..240], &before[232..240]);
    assert_eq!(
        &counted[240..248],
        &[before[243], before[244], before[245], before[240], before[241], before[246], before[242], before[247]]
    );
}

#[test]
fn names_are_padded_and_scrambled_block_by_block() {
    let mut padded = b"data\\a.txt".to_vec();
    pad_to_block(&mut padded);
    assert_eq!(padded, b"data\\a.txt\0\0\0\0\0\0".to_vec());
    let mut whole = vec![1u8; 16];
    pad_to_block(&mut whole);
    assert_eq!(whole.len(), 16);
    let scrambled = encrypt_file_name(b"data\\a.txt");
    assert_eq!(scrambled.len(), 16);
    assert_ne!(scrambled, padded);
    let mut decoded = Vec::new();
    for block in scrambled.chunks(8) {
        let mut swapped = [0u8; 8];
        for k in 0..8 {
            swapped[k] = (block[k] >> 4) | (block[k] << 4);
        }
        decoded.extend_from_slice(&des_process_block(&swapped));
    }
    assert_eq!(decoded, padded);
    assert!(encrypt_file_name(b"").is_empty());
}
