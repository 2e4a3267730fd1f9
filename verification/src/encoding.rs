//! Byte-level encodings shared by the table and header writers:
//! little-endian integers and Windows-1252 paths.

use vstd::prelude::*;
use vstd::string::*;
use crate::error::GrufError;

verus! {

/// The four bytes of `v`, least significant first.
pub open spec fn le32(v: u32) -> Seq<u8> {
    seq![
        (v % 256) as u8,
        ((v / 256) % 256) as u8,
        ((v / 65536) % 256) as u8,
        ((v / 16777216) % 256) as u8,
    ]
}

/// The number that four little-endian bytes stand for.
pub open spec fn le32_value(b: Seq<u8>) -> int {
    b[0] + 256 * b[1] + 65536 * b[2] + 16777216 * b[3]
}

/// Four little-endian bytes stand for the number they were made from.
pub proof fn lemma_le32_round_trip(v: u32)
    ensures
        le32(v).len() == 4,
        le32_value(le32(v)) == v,
{
}

/// Appends `v` as four little-endian bytes.
pub fn push_le32(out: &mut Vec<u8>, v: u32)
    ensures
        final(out)@ == old(out)@ + le32(v),
{
    out.push((v % 256) as u8);
    out.push(((v / 256) % 256) as u8);
    out.push(((v / 65536) % 256) as u8);
    out.push(((v / 16777216) % 256) as u8);
    assert(out@ =~= old(out)@ + le32(v));
}

/// Appends every byte of `data`.
pub fn push_bytes(out: &mut Vec<u8>, data: &[u8])
    ensures
        final(out)@ == old(out)@ + data@,
{
    let mut i: usize = 0;
    while i < data.len()
        invariant
            i <= data.len(),
            out@ == old(out)@ + data@.subrange(0, i as int),
        decreases data.len() - i,
    {
        out.push(data[i]);
        assert(out@ =~= old(out)@ + data@.subrange(0, i + 1));
        i += 1;
    }
    assert(data@.subrange(0, data@.len() as int) =~= data@);
}

/// The Windows-1252 byte for the code point `u`, if there is one. The
/// printable range beyond ASCII that the code page redefines, `0x80..=0x9F`,
/// is looked up by code point; the five bytes the code page leaves open
/// stand for the control characters of the same number.
pub open spec fn win1252_byte(u: u32) -> Option<u8> {
    if u < 0x80 || (0xA0 <= u <= 0xFF) {
        Some(u as u8)
    } else if u == 0x81 || u == 0x8D || u == 0x8F || u == 0x90 || u == 0x9D {
        Some(u as u8)
    } else if u == 0x20AC {
        Some(0x80u8)
    } else if u == 0x201A {
        Some(0x82u8)
    } else if u == 0x0192 {
        Some(0x83u8)
    } else if u == 0x201E {
        Some(0x84u8)
    } else if u == 0x2026 {
        Some(0x85u8)
    } else if u == 0x2020 {
        Some(0x86u8)
    } else if u == 0x2021 {
        Some(0x87u8)
    } else if u == 0x02C6 {
        Some(0x88u8)
    } else if u == 0x2030 {
        Some(0x89u8)
    } else if u == 0x0160 {
        Some(0x8Au8)
    } else if u == 0x2039 {
        Some(0x8Bu8)
    } else if u == 0x0152 {
        Some(0x8Cu8)
    } else if u == 0x017D {
        Some(0x8Eu8)
    } else if u == 0x2018 {
        Some(0x91u8)
    } else if u == 0x2019 {
        Some(0x92u8)
    } else if u == 0x201C {
        Some(0x93u8)
    } else if u == 0x201D {
        Some(0x94u8)
    } else if u == 0x2022 {
        Some(0x95u8)
    } else if u == 0x2013 {
        Some(0x96u8)
    } else if u == 0x2014 {
        Some(0x97u8)
    } else if u == 0x02DC {
        Some(0x98u8)
    } else if u == 0x2122 {
        Some(0x99u8)
    } else if u == 0x0161 {
        Some(0x9Au8)
    } else if u == 0x203A {
        Some(0x9Bu8)
    } else if u == 0x0153 {
        Some(0x9Cu8)
    } else if u == 0x017E {
        Some(0x9Eu8)
    } else if u == 0x0178 {
        Some(0x9Fu8)
    } else {
        None
    }
}

/// Whether every character of `s` has a Windows-1252 byte.
pub open spec fn win1252_representable(s: Seq<char>) -> bool {
    forall|i: int| 0 <= i < s.len() ==> win1252_byte(#[trigger] s[i] as u32) is Some
}

/// `s` in Windows-1252, one byte per character.
pub open spec fn win1252(s: Seq<char>) -> Seq<u8> {
    Seq::new(s.len(), |i: int| win1252_byte(s[i] as u32).unwrap())
}

/// The Windows-1252 byte of one character.
pub fn encode_win1252_char(c: char) -> (r: Option<u8>)
    ensures
        r == win1252_byte(c as u32),
{
    let u: u32 = c as u32;
    if u < 0x80 || (0xA0 <= u && u <= 0xFF) {
        Some(u as u8)
    } else if u == 0x81 || u == 0x8D || u == 0x8F || u == 0x90 || u == 0x9D {
        Some(u as u8)
    } else if u == 0x20AC {
        Some(0x80u8)
    } else if u == 0x201A {
        Some(0x82u8)
    } else if u == 0x0192 {
        Some(0x83u8)
    } else if u == 0x201E {
        Some(0x84u8)
    } else if u == 0x2026 {
        Some(0x85u8)
    } else if u == 0x2020 {
        Some(0x86u8)
    } else if u == 0x2021 {
        Some(0x87u8)
    } else if u == 0x02C6 {
        Some(0x88u8)
    } else if u == 0x2030 {
        Some(0x89u8)
    } else if u == 0x0160 {
        Some(0x8Au8)
    } else if u == 0x2039 {
        Some(0x8Bu8)
    } else if u == 0x0152 {
        Some(0x8Cu8)
    } else if u == 0x017D {
        Some(0x8Eu8)
    } else if u == 0x2018 {
        Some(0x91u8)
    } else if u == 0x2019 {
        Some(0x92u8)
    } else if u == 0x201C {
        Some(0x93u8)
    } else if u == 0x201D {
        Some(0x94u8)
    } else if u == 0x2022 {
        Some(0x95u8)
    } else if u == 0x2013 {
        Some(0x96u8)
    } else if u == 0x2014 {
        Some(0x97u8)
    } else if u == 0x02DC {
        Some(0x98u8)
    } else if u == 0x2122 {
        Some(0x99u8)
    } else if u == 0x0161 {
        Some(0x9Au8)
    } else if u == 0x203A {
        Some(0x9Bu8)
    } else if u == 0x0153 {
        Some(0x9Cu8)
    } else if u == 0x017E {
        Some(0x9Eu8)
    } else if u == 0x0178 {
        Some(0x9Fu8)
    } else {
        None
    }
}

/// Transcodes `path` to Windows-1252. Fails with a serialization error
/// exactly when some character has no byte in that code page.
pub fn serialize_to_win1252(path: &str) -> (r: Result<Vec<u8>, GrufError>)
    ensures
        match r {
            Ok(v) => win1252_representable(path@) && v@ == win1252(path@),
            Err(e) => e == GrufError::Serialization && !win1252_representable(path@),
        },
{
    let n: usize = path.unicode_len();
    let mut out: Vec<u8> = Vec::new();
    let mut i: usize = 0;
    while i < n
        invariant
            n == path@.len(),
            i <= n,
            out@.len() == i,
            forall|j: int| 0 <= j < i ==> win1252_byte(#[trigger] path@[j] as u32) == Some(out@[j]),
        decreases n - i,
    {
        match encode_win1252_char(path.get_char(i)) {
            Some(b) => {
                out.push(b);
            },
            None => {
                return Err(GrufError::Serialization);
            },
        }
        i += 1;
    }
    assert(out@ =~= win1252(path@));
    Ok(out)
}

/// Appends `path` in Windows-1252 followed by a NUL byte. Nothing is
/// appended when the path cannot be transcoded.
pub fn serialize_as_win1252_cstr_into(out: &mut Vec<u8>, path: &str) -> (r: Result<(), GrufError>)
    ensures
        match r {
            Ok(()) => win1252_representable(path@) && final(out)@ == old(out)@ + win1252(path@)
                + seq![0u8],
            Err(e) => e == GrufError::Serialization && !win1252_representable(path@) && final(out)@
                == old(out)@,
        },
{
    match serialize_to_win1252(path) {
        Ok(v) => {
            push_bytes(out, v.as_slice());
            out.push(0u8);
            Ok(())
        },
        Err(e) => Err(e),
    }
}

} // verus!
