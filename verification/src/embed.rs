//! Settings carried inside the patcher's executable.
//!
//! The settings follow the program's own bytes as a bundle: a nonce of
//! twelve bytes and the settings, compressed with gzip and sealed with
//! AES-256-GCM. Behind the bundle stand its length as four little-endian
//! bytes and a marker of four bytes.

use vstd::prelude::*;
use vstd::slice::slice_subrange;
use crate::encoding::{le32, le32_value, push_bytes, push_le32};
use crate::zlib::holds;

verus! {

/// The four bytes that end a file with embedded settings.
pub const CONFIG_MARKER: [u8; 4] = [0x4b, 0x43, 0x46, 0x47];

/// The key under which the settings are sealed, shared by the program that
/// embeds them and the one that reads them.
pub const ENCRYPTION_KEY: [u8; 32] = [
    0x6b, 0x70, 0x61, 0x74, 0x63, 0x68, 0x65, 0x72,
    0x5f, 0x73, 0x65, 0x63, 0x72, 0x65, 0x74, 0x5f,
    0x6b, 0x65, 0x79, 0x5f, 0x33, 0x32, 0x5f, 0x62,
    0x79, 0x74, 0x65, 0x73, 0x21, 0x21, 0x21, 0x21,
];

/// Length of the nonce in front of the sealed settings.
pub const NONCE_SIZE: usize = 12;

/// Length of what follows the bundle: its length and the marker.
pub const FOOTER_SIZE: usize = 8;

/// Why settings could not be embedded or read.
#[derive(Clone, Copy, Debug, PartialEq, Eq, Structural)]
pub enum EmbedError {
    /// The file is too short to end with a length and a marker.
    TooSmall,
    /// The file does not end with the marker.
    NoMarker,
    /// The length in front of the marker is zero or exceeds the file.
    InvalidSize,
    /// The bundle is too short to hold a nonce.
    TooShort,
    /// The bundle is longer than its 32-bit length field can say.
    TooLarge,
    /// The system's random source gave no nonce.
    Entropy,
    /// The compressor reported a failure.
    Compress,
    /// The cipher refused to seal.
    Encrypt,
    /// The cipher refused to open: wrong key, or bytes tampered with.
    Decrypt,
    /// The opened bundle is not a gzip stream.
    Decompress,
}

/// What the compressor makes of `data` at its best compression level: the
/// gzip stream, or nothing where the encoder reports an error.
pub uninterp spec fn gzip_stream(data: Seq<u8>) -> Option<Seq<u8>>;

/// The content of the gzip stream `data`, if it is one.
pub uninterp spec fn gunzipped(data: Seq<u8>) -> Option<Seq<u8>>;

/// What AES-256-GCM makes of `plaintext` under `key` and `nonce`, without
/// associated data, if it seals it.
pub uninterp spec fn aes256gcm_sealed(key: Seq<u8>, nonce: Seq<u8>, plaintext: Seq<u8>) -> Option<
    Seq<u8>,
>;

/// What AES-256-GCM recovers from `ciphertext` under `key` and `nonce`,
/// without associated data, if the authentication tag holds.
pub uninterp spec fn aes256gcm_opened(key: Seq<u8>, nonce: Seq<u8>, ciphertext: Seq<u8>) -> Option<
    Seq<u8>,
>;

/// Compresses `data` with `flate2::write::GzEncoder` at
/// `Compression::best()`, collecting the stream in memory. The header the
/// encoder writes carries no time and no file name, so what it yields, the
/// stream or an error, is a function of the input; it is named
/// `gzip_stream(data)`. `None` stands for an error reported by the encoder.
#[verifier::external_body]
pub(crate) fn compress_data(data: &[u8]) -> (r: Option<Vec<u8>>)
    ensures
        holds(r, gzip_stream(data@)),
{
    let mut encoder = flate2::write::GzEncoder::new(Vec::new(), flate2::Compression::best());
    match std::io::Write::write_all(&mut encoder, data) {
        Ok(()) => encoder.finish().ok(),
        Err(_) => None,
    }
}

/// Decompresses `data` with `flate2::read::GzDecoder`, reading to the end
/// of the first gzip member. What comes out, or that the decoder reports an
/// error, is named `gunzipped(data)`.
#[verifier::external_body]
pub(crate) fn decompress_data(data: &[u8]) -> (r: Option<Vec<u8>>)
    ensures
        holds(r, gunzipped(data@)),
{
    let mut decoder = flate2::read::GzDecoder::new(data);
    let mut out = Vec::new();
    match std::io::Read::read_to_end(&mut decoder, &mut out) {
        Ok(_) => Some(out),
        Err(_) => None,
    }
}

/// Seals `plaintext` with `aes_gcm::Aes256Gcm` through `Aead::encrypt`,
/// without associated data. What comes out, or that the cipher refuses, is
/// named `aes256gcm_sealed(key, nonce, plaintext)`.
#[verifier::external_body]
pub(crate) fn seal(key: &[u8; 32], nonce: &[u8; 12], plaintext: &[u8]) -> (r: Option<Vec<u8>>)
    ensures
        holds(r, aes256gcm_sealed(key@, nonce@, plaintext@)),
{
    let cipher = <aes_gcm::Aes256Gcm as aes_gcm::KeyInit>::new(
        aes_gcm::Key::<aes_gcm::Aes256Gcm>::from_slice(key),
    );
    aes_gcm::aead::Aead::encrypt(&cipher, aes_gcm::Nonce::from_slice(nonce), plaintext).ok()
}

/// Opens `ciphertext` with `aes_gcm::Aes256Gcm` through `Aead::decrypt`,
/// without associated data. What comes out, or that the cipher refuses, is
/// named `aes256gcm_opened(key, nonce, ciphertext)`.
#[verifier::external_body]
pub(crate) fn unseal(key: &[u8; 32], nonce: &[u8; 12], ciphertext: &[u8]) -> (r: Option<Vec<u8>>)
    ensures
        holds(r, aes256gcm_opened(key@, nonce@, ciphertext@)),
{
    let cipher = <aes_gcm::Aes256Gcm as aes_gcm::KeyInit>::new(
        aes_gcm::Key::<aes_gcm::Aes256Gcm>::from_slice(key),
    );
    aes_gcm::aead::Aead::decrypt(&cipher, aes_gcm::Nonce::from_slice(nonce), ciphertext).ok()
}

/// Twelve bytes from the system's random source, asked of
/// `rand::rngs::OsRng` through `RngCore::try_fill_bytes`, which reports a
/// failure of the source instead of panicking. Nothing is known of the
/// bytes. `None` stands for a failure of the source.
#[verifier::external_body]
pub(crate) fn fresh_nonce() -> (r: Option<[u8; 12]>) {
    let mut nonce = [0u8; 12];
    match rand::RngCore::try_fill_bytes(&mut rand::rngs::OsRng, &mut nonce) {
        Ok(()) => Some(nonce),
        Err(_) => None,
    }
}

/// The bundle for the settings `config` under `nonce`, or why there is
/// none.
pub open spec fn sealed_bundle(config: Seq<u8>, nonce: Seq<u8>) -> Result<Seq<u8>, EmbedError> {
    match gzip_stream(config) {
        None => Err(EmbedError::Compress),
        Some(packed) => match aes256gcm_sealed(ENCRYPTION_KEY@, nonce, packed) {
            Some(sealed) => Ok(nonce + sealed),
            None => Err(EmbedError::Encrypt),
        },
    }
}

/// The settings inside `bundle`, or why they cannot be read.
pub open spec fn opened_bundle(bundle: Seq<u8>) -> Result<Seq<u8>, EmbedError> {
    if bundle.len() < NONCE_SIZE {
        Err(EmbedError::TooShort)
    } else {
        match aes256gcm_opened(
            ENCRYPTION_KEY@,
            bundle.subrange(0, NONCE_SIZE as int),
            bundle.subrange(NONCE_SIZE as int, bundle.len() as int),
        ) {
            None => Err(EmbedError::Decrypt),
            Some(packed) => match gunzipped(packed) {
                None => Err(EmbedError::Decompress),
                Some(config) => Ok(config),
            },
        }
    }
}

/// Whether a vector, if there is one, holds the bytes that `expected` names,
/// and an error is the one that `expected` names.
pub open spec fn yields(r: Result<Vec<u8>, EmbedError>, expected: Result<Seq<u8>, EmbedError>) -> bool {
    match r {
        Ok(v) => expected == Ok::<Seq<u8>, EmbedError>(v@),
        Err(e) => expected == Err::<Seq<u8>, EmbedError>(e),
    }
}

/// Compresses and seals the settings `config` under `nonce`, and puts the
/// nonce in front.
pub fn seal_config(config: &[u8], nonce: &[u8; 12]) -> (r: Result<Vec<u8>, EmbedError>)
    ensures
        yields(r, sealed_bundle(config@, nonce@)),
{
    let packed = match compress_data(config) {
        Some(packed) => packed,
        None => {
            return Err(EmbedError::Compress);
        },
    };
    match seal(&ENCRYPTION_KEY, nonce, packed.as_slice()) {
        Some(sealed) => {
            let mut bundle: Vec<u8> = Vec::new();
            push_bytes(&mut bundle, nonce);
            push_bytes(&mut bundle, sealed.as_slice());
            assert(bundle@ =~= nonce@ + sealed@);
            Ok(bundle)
        },
        None => Err(EmbedError::Encrypt),
    }
}

/// Reads the settings out of a bundle: the first twelve bytes are the
/// nonce, the rest is opened and decompressed.
pub fn open_bundle(bundle: &[u8]) -> (r: Result<Vec<u8>, EmbedError>)
    ensures
        yields(r, opened_bundle(bundle@)),
{
    if bundle.len() < NONCE_SIZE {
        return Err(EmbedError::TooShort);
    }
    let nonce: [u8; 12] = [
        bundle[0],
        bundle[1],
        bundle[2],
        bundle[3],
        bundle[4],
        bundle[5],
        bundle[6],
        bundle[7],
        bundle[8],
        bundle[9],
        bundle[10],
        bundle[11],
    ];
    assert(nonce@ =~= bundle@.subrange(0, NONCE_SIZE as int));
    let sealed = slice_subrange(bundle, NONCE_SIZE, bundle.len());
    match unseal(&ENCRYPTION_KEY, &nonce, sealed) {
        None => Err(EmbedError::Decrypt),
        Some(packed) => match decompress_data(packed.as_slice()) {
            None => Err(EmbedError::Decompress),
            Some(config) => Ok(config),
        },
    }
}

/// A file made of a program's bytes, a bundle, the bundle's length and the
/// marker.
pub open spec fn embedded(exe: Seq<u8>, bundle: Seq<u8>) -> Seq<u8> {
    exe + bundle + le32(bundle.len() as u32) + CONFIG_MARKER@
}

/// Where the bundle lies in `file`, as its start and its length, or why the
/// file holds none. The checks are made in this order: the file has room
/// for length and marker; it ends with the marker; the length is positive
/// and no more than what stands in front of it; the bundle has room for a
/// nonce.
pub open spec fn bundle_location(file: Seq<u8>) -> Result<(int, int), EmbedError> {
    let n = file.len() as int;
    if n < FOOTER_SIZE {
        Err(EmbedError::TooSmall)
    } else if file.subrange(n - 4, n) != CONFIG_MARKER@ {
        Err(EmbedError::NoMarker)
    } else {
        let size = le32_value(file.subrange(n - 8, n - 4));
        if size == 0 || size > n - FOOTER_SIZE {
            Err(EmbedError::InvalidSize)
        } else if size < NONCE_SIZE {
            Err(EmbedError::TooShort)
        } else {
            Ok((n - FOOTER_SIZE - size, size))
        }
    }
}

/// Finds the bundle at the end of `file`.
pub fn locate_bundle(file: &[u8]) -> (r: Result<(usize, usize), EmbedError>)
    ensures
        match r {
            Ok((start, len)) => bundle_location(file@) == Ok::<(int, int), EmbedError>(
                (start as int, len as int),
            ) && start + len + FOOTER_SIZE == file@.len(),
            Err(e) => bundle_location(file@) == Err::<(int, int), EmbedError>(e),
        },
{
    let n: usize = file.len();
    if n < FOOTER_SIZE {
        return Err(EmbedError::TooSmall);
    }
    let ghost tail = file@.subrange(n - 4, n as int);
    assert(tail[0] == file@[n - 4] && tail[1] == file@[n - 3] && tail[2] == file@[n - 2] && tail[3]
        == file@[n - 1]);
    if file[n - 4] != CONFIG_MARKER[0] || file[n - 3] != CONFIG_MARKER[1] || file[n - 2]
        != CONFIG_MARKER[2] || file[n - 1] != CONFIG_MARKER[3] {
        return Err(EmbedError::NoMarker);
    }
    assert(tail =~= CONFIG_MARKER@);
    let ghost field = file@.subrange(n - 8, n - 4);
    assert(field[0] == file@[n - 8] && field[1] == file@[n - 7] && field[2] == file@[n - 6]
        && field[3] == file@[n - 5]);
    let size: u64 = file[n - 8] as u64 + 256 * (file[n - 7] as u64) + 65536 * (file[n - 6] as u64)
        + 16777216 * (file[n - 5] as u64);
    if size == 0 || size > (n - FOOTER_SIZE) as u64 {
        return Err(EmbedError::InvalidSize);
    }
    if size < NONCE_SIZE as u64 {
        return Err(EmbedError::TooShort);
    }
    Ok((n - FOOTER_SIZE - size as usize, size as usize))
}

/// Reads the settings embedded at the end of `file`: the bundle is
/// located, opened and decompressed.
pub fn extract_embedded_config(file: &[u8]) -> (r: Result<Vec<u8>, EmbedError>)
    ensures
        yields(
            r,
            match bundle_location(file@) {
                Ok((start, len)) => opened_bundle(file@.subrange(start, start + len)),
                Err(e) => Err(e),
            },
        ),
{
    let n: usize = file.len();
    match locate_bundle(file) {
        Ok((start, len)) => open_bundle(slice_subrange(file, start, n - FOOTER_SIZE)),
        Err(e) => Err(e),
    }
}

/// Puts `bundle`, its length and the marker behind the program's bytes
/// `exe`. Refused when the bundle is longer than its length field can say.
pub fn append_bundle(exe: &[u8], bundle: &[u8]) -> (r: Result<Vec<u8>, EmbedError>)
    ensures
        match r {
            Ok(v) => bundle@.len() <= u32::MAX && v@ == embedded(exe@, bundle@),
            Err(e) => e == EmbedError::TooLarge && bundle@.len() > u32::MAX,
        },
{
    if bundle.len() > u32::MAX as usize {
        return Err(EmbedError::TooLarge);
    }
    let mut out: Vec<u8> = Vec::new();
    push_bytes(&mut out, exe);
    push_bytes(&mut out, bundle);
    push_le32(&mut out, bundle.len() as u32);
    push_bytes(&mut out, &CONFIG_MARKER);
    Ok(out)
}

/// Whether `file` is the program `exe` followed by the bundle that the
/// settings `config` make under `nonce`, its length and the marker.
pub open spec fn embeds(file: Seq<u8>, exe: Seq<u8>, config: Seq<u8>, nonce: Seq<u8>) -> bool {
    match sealed_bundle(config, nonce) {
        Ok(bundle) => bundle.len() <= u32::MAX && file == embedded(exe, bundle),
        Err(_) => false,
    }
}

/// Embeds the settings `config` behind the program's bytes `exe`, sealed
/// under `nonce`.
pub fn embed_with_nonce(exe: &[u8], config: &[u8], nonce: &[u8; 12]) -> (r: Result<
    Vec<u8>,
    EmbedError,
>)
    ensures
        match sealed_bundle(config@, nonce@) {
            Ok(bundle) => match r {
                Ok(v) => bundle.len() <= u32::MAX && v@ == embedded(exe@, bundle),
                Err(e) => e == EmbedError::TooLarge && bundle.len() > u32::MAX,
            },
            Err(e) => r == Err::<Vec<u8>, EmbedError>(e),
        },
{
    match seal_config(config, nonce) {
        Ok(bundle) => append_bundle(exe, bundle.as_slice()),
        Err(e) => Err(e),
    }
}

/// Embeds the settings `config` behind the program's bytes `exe`, sealed
/// under a nonce drawn at random. Whatever the nonce, a file that comes
/// out is the program followed by a bundle, its length and the marker.
pub fn embed_config_in_exe(exe: &[u8], config: &[u8]) -> (r: Result<Vec<u8>, EmbedError>)
    ensures
        match r {
            Ok(v) => exists|nonce: Seq<u8>|
                nonce.len() == NONCE_SIZE && #[trigger] embeds(v@, exe@, config@, nonce),
            Err(e) => e == EmbedError::Entropy || e == EmbedError::Compress || e
                == EmbedError::Encrypt || e == EmbedError::TooLarge,
        },
{
    let nonce = match fresh_nonce() {
        Some(nonce) => nonce,
        None => {
            return Err(EmbedError::Entropy);
        },
    };
    let r = embed_with_nonce(exe, config, &nonce);
    proof {
        if r is Ok {
            assert(embeds(r->Ok_0@, exe@, config@, nonce@));
        }
    }
    r
}

/// A bundle that was embedded is found again where it was put: behind the
/// program's bytes, with its own length.
pub proof fn lemma_embedded_bundle_is_located(exe: Seq<u8>, bundle: Seq<u8>)
    requires
        NONCE_SIZE <= bundle.len() <= u32::MAX,
    ensures
        bundle_location(embedded(exe, bundle)) == Ok::<(int, int), EmbedError>(
            (exe.len() as int, bundle.len() as int),
        ),
        embedded(exe, bundle).subrange(exe.len() as int, (exe.len() + bundle.len()) as int) == bundle,
{
    let file = embedded(exe, bundle);
    let n = file.len() as int;
    let v = bundle.len() as u32;
    assert(n == exe.len() + bundle.len() + 8);
    assert(file.subrange(n - 4, n) =~= CONFIG_MARKER@);
    assert(file.subrange(n - 8, n - 4) =~= le32(v));
    assert(le32_value(le32(v)) == v);
    assert(file.subrange(exe.len() as int, (exe.len() + bundle.len()) as int) =~= bundle);
}

} // verus!
