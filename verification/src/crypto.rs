//! The reversible scrambling that version 1 archives apply to stored
//! payloads and to the names in the file table.
//!
//! Both work on blocks of eight bytes. A block is either put through one
//! round of a DES-shaped cipher without a key, which is its own inverse, or
//! has its bytes shuffled.

use vstd::prelude::*;

verus! {

/// Masks of the bits of a byte, most significant first.
pub const BIT_MASK: [u8; 8] = [0x80, 0x40, 0x20, 0x10, 0x08, 0x04, 0x02, 0x01];

/// Initial permutation: output bit `i` is input bit `IP_TABLE[i]`, bits
/// counted from zero, most significant first.
pub const IP_TABLE: [u8; 64] = [
    57, 49, 41, 33, 25, 17, 9, 1, 59, 51, 43, 35, 27, 19, 11, 3,
    61, 53, 45, 37, 29, 21, 13, 5, 63, 55, 47, 39, 31, 23, 15, 7,
    56, 48, 40, 32, 24, 16, 8, 0, 58, 50, 42, 34, 26, 18, 10, 2,
    60, 52, 44, 36, 28, 20, 12, 4, 62, 54, 46, 38, 30, 22, 14, 6,
];

/// Final permutation, the inverse of the initial one.
pub const FP_TABLE: [u8; 64] = [
    39, 7, 47, 15, 55, 23, 63, 31, 38, 6, 46, 14, 54, 22, 62, 30,
    37, 5, 45, 13, 53, 21, 61, 29, 36, 4, 44, 12, 52, 20, 60, 28,
    35, 3, 43, 11, 51, 19, 59, 27, 34, 2, 42, 10, 50, 18, 58, 26,
    33, 1, 41, 9, 49, 17, 57, 25, 32, 0, 40, 8, 48, 16, 56, 24,
];

/// Transposition applied to the 32 bits that leave the substitution boxes.
pub const TP_TABLE: [u8; 32] = [
    15, 6, 19, 20, 28, 11, 27, 16, 0, 14, 22, 25, 4, 17, 30, 9,
    1, 7, 23, 13, 31, 26, 2, 8, 18, 12, 29, 5, 21, 10, 3, 24,
];

/// Substitution boxes 1 and 2, packed: the high nibble is the first box's
/// output for a six-bit input, the low nibble the second's.
pub const S_TABLE_0: [u8; 64] = [
    0xef, 0x03, 0x41, 0xfd, 0xd8, 0x74, 0x1e, 0x47, 0x26, 0xef, 0xfb, 0x22, 0xb3, 0xd8, 0x84, 0x1e,
    0x39, 0xac, 0xa7, 0x60, 0x62, 0xc1, 0xcd, 0xba, 0x5c, 0x96, 0x90, 0x59, 0x05, 0x3b, 0x7a, 0x85,
    0x40, 0xfd, 0x1e, 0xc8, 0xe7, 0x8a, 0x8b, 0x21, 0xda, 0x43, 0x64, 0x9f, 0x2d, 0x14, 0xb1, 0x72,
    0xf5, 0x5b, 0xc8, 0xb6, 0x9c, 0x37, 0x76, 0xec, 0x39, 0xa0, 0xa3, 0x05, 0x52, 0x6e, 0x0f, 0xd9,
];

/// Substitution boxes 3 and 4, packed: the high nibble is the first box's
/// output for a six-bit input, the low nibble the second's.
pub const S_TABLE_1: [u8; 64] = [
    0xa7, 0xdd, 0x0d, 0x78, 0x9e, 0x0b, 0xe3, 0x95, 0x60, 0x36, 0x36, 0x4f, 0xf9, 0x60, 0x5a, 0xa3,
    0x11, 0x24, 0xd2, 0x87, 0xc8, 0x52, 0x75, 0xec, 0xbb, 0xc1, 0x4c, 0xba, 0x24, 0xfe, 0x8f, 0x19,
    0xda, 0x13, 0x66, 0xaf, 0x49, 0xd0, 0x90, 0x06, 0x8c, 0x6a, 0xfb, 0x91, 0x37, 0x8d, 0x0d, 0x78,
    0xbf, 0x49, 0x11, 0xf4, 0x23, 0xe5, 0xce, 0x3b, 0x55, 0xbc, 0xa2, 0x57, 0xe8, 0x22, 0x74, 0xce,
];

/// Substitution boxes 5 and 6, packed: the high nibble is the first box's
/// output for a six-bit input, the low nibble the second's.
pub const S_TABLE_2: [u8; 64] = [
    0x2c, 0xea, 0xc1, 0xbf, 0x4a, 0x24, 0x1f, 0xc2, 0x79, 0x47, 0xa2, 0x7c, 0xb6, 0xd9, 0x68, 0x15,
    0x80, 0x56, 0x5d, 0x01, 0x33, 0xfd, 0xf4, 0xae, 0xde, 0x30, 0x07, 0x9b, 0xe5, 0x83, 0x9b, 0x68,
    0x49, 0xb4, 0x2e, 0x83, 0x1f, 0xc2, 0xb5, 0x7c, 0xa2, 0x19, 0xd8, 0xe5, 0x7c, 0x2f, 0x83, 0xda,
    0xf7, 0x6b, 0x90, 0xfe, 0xc4, 0x01, 0x5a, 0x97, 0x61, 0xa6, 0x3d, 0x40, 0x0b, 0x58, 0xe6, 0x3d,
];

/// Substitution boxes 7 and 8, packed: the high nibble is the first box's
/// output for a six-bit input, the low nibble the second's.
pub const S_TABLE_3: [u8; 64] = [
    0x4d, 0xd1, 0xb2, 0x0f, 0x28, 0xbd, 0xe4, 0x78, 0xf6, 0x4a, 0x0f, 0x93, 0x8b, 0x17, 0xd1, 0xa4,
    0x3a, 0xec, 0xc9, 0x35, 0x93, 0x56, 0x7e, 0xcb, 0x55, 0x20, 0xa0, 0xfe, 0x6c, 0x89, 0x17, 0x62,
    0x17, 0x62, 0x4b, 0xb1, 0xb4, 0xde, 0xd1, 0x87, 0xc9, 0x14, 0x3c, 0x4a, 0x7e, 0xa8, 0xe2, 0x7d,
    0xa0, 0x9f, 0xf6, 0x5c, 0x6a, 0x09, 0x8d, 0xf0, 0x0f, 0xe3, 0x53, 0x25, 0x95, 0x36, 0x28, 0xcb,
];

/// Number of leading blocks of a payload that are always ciphered.
pub const HEADER_BLOCKS: usize = 20;

/// Among the blocks that are not ciphered, every block whose running number
/// is a positive multiple of this is shuffled.
pub const SHUFFLE_PERIOD: usize = 7;

/// Whether bit `j` of `b`, counted from the most significant bit of the
/// first byte, is set.
pub open spec fn bit_set(b: Seq<u8>, j: int) -> bool {
    b[j / 8] & BIT_MASK[j % 8] != 0
}

/// The block in which, for each `i` below `upto`, bit `i` of the bytes from
/// `shift` on is bit `table[i]` of `src`; all other bits are clear.
pub open spec fn permuted(src: Seq<u8>, table: Seq<u8>, shift: int, upto: nat) -> Seq<u8>
    decreases upto,
{
    if upto == 0 {
        Seq::new(8, |k: int| 0u8)
    } else {
        let i = upto - 1;
        let prev = permuted(src, table, shift, i as nat);
        let j = table[i] as int;
        if j < 64 && bit_set(src, j) {
            prev.update(shift + i / 8, prev[shift + i / 8] | BIT_MASK[i % 8])
        } else {
            prev
        }
    }
}

/// Copies bits of `src` as `table` directs into a block that is otherwise
/// zero, starting at byte `shift` of the result.
fn permute<const N: usize>(src: &[u8; 8], table: &[u8; N], shift: usize) -> (out: [u8; 8])
    requires
        shift * 8 + N <= 64,
    ensures
        out@ == permuted(src@, table@, shift as int, N as nat),
{
    let mut out: [u8; 8] = [0u8; 8];
    assert(out@ =~= permuted(src@, table@, shift as int, 0));
    let mut i: usize = 0;
    while i < N
        invariant
            i <= N,
            shift * 8 + N <= 64,
            out@ == permuted(src@, table@, shift as int, i as nat),
        decreases N - i,
    {
        let j: usize = table[i] as usize;
        if j < 64 && src[j / 8] & BIT_MASK[j % 8] != 0 {
            let k: usize = shift + i / 8;
            let v: u8 = out[k] | BIT_MASK[i % 8];
            out[k] = v;
        }
        i += 1;
    }
    out
}

/// The low six bits of `v`.
fn low6(v: u8) -> (r: u8)
    ensures
        r == v & 0x3f,
        r < 64,
{
    let r: u8 = v & 0x3f;
    assert(v & 0x3f < 64) by (bit_vector);
    r
}

/// The eight six-bit groups that the expansion step reads from the right
/// half of `b`, bytes 4 to 7, each group overlapping its neighbours by two
/// bits.
pub open spec fn expanded(b: Seq<u8>) -> Seq<u8> {
    seq![
        ((b[7] << 5) | (b[4] >> 3)) & 0x3f,
        ((b[4] << 1) | (b[5] >> 7)) & 0x3f,
        ((b[4] << 5) | (b[5] >> 3)) & 0x3f,
        ((b[5] << 1) | (b[6] >> 7)) & 0x3f,
        ((b[5] << 5) | (b[6] >> 3)) & 0x3f,
        ((b[6] << 1) | (b[7] >> 7)) & 0x3f,
        ((b[6] << 5) | (b[7] >> 3)) & 0x3f,
        ((b[7] << 1) | (b[4] >> 7)) & 0x3f,
    ]
}

/// The four bytes that the substitution boxes give for the six-bit groups
/// `e`, followed by four zero bytes.
pub open spec fn substituted(e: Seq<u8>) -> Seq<u8> {
    seq![
        (S_TABLE_0[e[0] as int] & 0xf0) | (S_TABLE_0[e[1] as int] & 0x0f),
        (S_TABLE_1[e[2] as int] & 0xf0) | (S_TABLE_1[e[3] as int] & 0x0f),
        (S_TABLE_2[e[4] as int] & 0xf0) | (S_TABLE_2[e[5] as int] & 0x0f),
        (S_TABLE_3[e[6] as int] & 0xf0) | (S_TABLE_3[e[7] as int] & 0x0f),
        0u8,
        0u8,
        0u8,
        0u8,
    ]
}

/// The round function: the left half of `b` is combined by exclusive or
/// with the transposed substitution of the expanded right half; the right
/// half stays.
pub open spec fn round_of(b: Seq<u8>) -> Seq<u8> {
    let t = permuted(substituted(expanded(b)), TP_TABLE@, 4, 32);
    seq![b[0] ^ t[4], b[1] ^ t[5], b[2] ^ t[6], b[3] ^ t[7], b[4], b[5], b[6], b[7]]
}

/// One block through the cipher: initial permutation, one round, final
/// permutation.
pub open spec fn des_block(b: Seq<u8>) -> Seq<u8> {
    permuted(round_of(permuted(b, IP_TABLE@, 0, 64)), FP_TABLE@, 0, 64)
}

fn round_function(b: &[u8; 8]) -> (out: [u8; 8])
    ensures
        out@ == round_of(b@),
{
    let e0 = low6((b[7] << 5) | (b[4] >> 3));
    let e1 = low6((b[4] << 1) | (b[5] >> 7));
    let e2 = low6((b[4] << 5) | (b[5] >> 3));
    let e3 = low6((b[5] << 1) | (b[6] >> 7));
    let e4 = low6((b[5] << 5) | (b[6] >> 3));
    let e5 = low6((b[6] << 1) | (b[7] >> 7));
    let e6 = low6((b[6] << 5) | (b[7] >> 3));
    let e7 = low6((b[7] << 1) | (b[4] >> 7));
    let s: [u8; 8] = [
        (S_TABLE_0[e0 as usize] & 0xf0) | (S_TABLE_0[e1 as usize] & 0x0f),
        (S_TABLE_1[e2 as usize] & 0xf0) | (S_TABLE_1[e3 as usize] & 0x0f),
        (S_TABLE_2[e4 as usize] & 0xf0) | (S_TABLE_2[e5 as usize] & 0x0f),
        (S_TABLE_3[e6 as usize] & 0xf0) | (S_TABLE_3[e7 as usize] & 0x0f),
        0u8,
        0u8,
        0u8,
        0u8,
    ];
    assert(s@ =~= substituted(expanded(b@)));
    let t = permute(&s, &TP_TABLE, 4);
    let out: [u8; 8] = [b[0] ^ t[4], b[1] ^ t[5], b[2] ^ t[6], b[3] ^ t[7], b[4], b[5], b[6], b[7]];
    assert(out@ =~= round_of(b@));
    out
}

/// Puts one block through the cipher.
pub fn des_process_block(b: &[u8; 8]) -> (out: [u8; 8])
    ensures
        out@ == des_block(b@),
{
    let p = permute(b, &IP_TABLE, 0);
    let r = round_function(&p);
    permute(&r, &FP_TABLE, 0)
}

/// The byte that the shuffle writes in place of `b`: seven pairs of values
/// are exchanged, every other value stays.
pub open spec fn substitute(b: u8) -> u8 {
    if b == 0x00 {
        0x2Bu8
    } else if b == 0x2B {
        0x00u8
    } else if b == 0x6C {
        0x80u8
    } else if b == 0x80 {
        0x6Cu8
    } else if b == 0x01 {
        0x68u8
    } else if b == 0x68 {
        0x01u8
    } else if b == 0x48 {
        0x77u8
    } else if b == 0x77 {
        0x48u8
    } else if b == 0x60 {
        0xFFu8
    } else if b == 0xFF {
        0x60u8
    } else if b == 0xB9 {
        0xC0u8
    } else if b == 0xC0 {
        0xB9u8
    } else if b == 0xFE {
        0xEBu8
    } else if b == 0xEB {
        0xFEu8
    } else {
        b
    }
}

/// The shuffle that the writer applies to a block.
pub open spec fn shuffled_block(b: Seq<u8>) -> Seq<u8> {
    seq![b[3], b[4], b[5], b[0], b[1], b[6], b[2], substitute(b[7])]
}

/// The shuffle that a reader applies to a block to undo the writer's.
pub open spec fn unshuffled_block(b: Seq<u8>) -> Seq<u8> {
    seq![b[3], b[4], b[6], b[0], b[1], b[2], b[5], substitute(b[7])]
}

/// A reader's shuffle restores every block that the writer shuffled.
pub proof fn lemma_shuffle_round_trip(b: Seq<u8>)
    requires
        b.len() == 8,
    ensures
        unshuffled_block(shuffled_block(b)) == b,
{
    assert(unshuffled_block(shuffled_block(b)) =~= b);
}

fn substitute_byte(b: u8) -> (r: u8)
    ensures
        r == substitute(b),
{
    if b == 0x00 {
        0x2B
    } else if b == 0x2B {
        0x00
    } else if b == 0x6C {
        0x80
    } else if b == 0x80 {
        0x6C
    } else if b == 0x01 {
        0x68
    } else if b == 0x68 {
        0x01
    } else if b == 0x48 {
        0x77
    } else if b == 0x77 {
        0x48
    } else if b == 0x60 {
        0xFF
    } else if b == 0xFF {
        0x60
    } else if b == 0xB9 {
        0xC0
    } else if b == 0xC0 {
        0xB9
    } else if b == 0xFE {
        0xEB
    } else if b == 0xEB {
        0xFE
    } else {
        b
    }
}

fn shuffle_block(b: &[u8; 8]) -> (out: [u8; 8])
    ensures
        out@ == shuffled_block(b@),
{
    let out: [u8; 8] = [b[3], b[4], b[5], b[0], b[1], b[6], b[2], substitute_byte(b[7])];
    assert(out@ =~= shuffled_block(b@));
    out
}

/// Distance between ciphered blocks behind the always-ciphered head, for a
/// payload with cycle `cycle`. Zero means that only the head is ciphered.
pub open spec fn cipher_gap(cycle: int) -> int {
    if cycle == 0 {
        0
    } else if cycle < 3 {
        1
    } else if cycle < 5 {
        cycle + 1
    } else if cycle < 7 {
        cycle + 9
    } else {
        cycle + 15
    }
}

/// Whether block `i` of a payload is ciphered.
pub open spec fn is_ciphered(i: int, gap: int) -> bool {
    i < HEADER_BLOCKS || (gap > 0 && i % gap == 0)
}

/// Number of blocks behind the head and before block `i` that are not
/// ciphered.
pub open spec fn plain_rank(i: int, gap: int) -> int
    decreases i,
{
    if i <= HEADER_BLOCKS {
        0
    } else if is_ciphered(i - 1, gap) {
        plain_rank(i - 1, gap)
    } else {
        plain_rank(i - 1, gap) + 1
    }
}

/// Whether block `i` of a payload is shuffled.
pub open spec fn is_shuffled(i: int, gap: int) -> bool {
    gap > 0 && !is_ciphered(i, gap) && plain_rank(i, gap) != 0 && plain_rank(i, gap)
        % (SHUFFLE_PERIOD as int) == 0
}

/// Byte `p` of the scrambled form of `data`. Bytes behind the last whole
/// block stay as they are.
pub open spec fn scrambled_byte(data: Seq<u8>, gap: int, p: int) -> u8 {
    let i = p / 8;
    let block = data.subrange(8 * i, 8 * i + 8);
    if 8 * i + 8 > data.len() {
        data[p]
    } else if is_ciphered(i, gap) {
        des_block(block)[p % 8]
    } else if is_shuffled(i, gap) {
        shuffled_block(block)[p % 8]
    } else {
        data[p]
    }
}

/// The scrambled form of a payload with cycle `cycle`.
pub open spec fn scrambled(data: Seq<u8>, cycle: int) -> Seq<u8> {
    Seq::new(data.len(), |p: int| scrambled_byte(data, cipher_gap(cycle), p))
}

/// The eight bytes of `data` from `at` on.
fn read_block(data: &Vec<u8>, at: usize) -> (b: [u8; 8])
    requires
        at + 8 <= data@.len(),
        at + 8 <= usize::MAX,
    ensures
        b@ == data@.subrange(at as int, at + 8),
{
    let b: [u8; 8] = [
        data[at],
        data[at + 1],
        data[at + 2],
        data[at + 3],
        data[at + 4],
        data[at + 5],
        data[at + 6],
        data[at + 7],
    ];
    assert(b@ =~= data@.subrange(at as int, at + 8));
    b
}

/// Overwrites the eight bytes of `data` from `at` on with `b`.
fn write_block(data: &mut Vec<u8>, at: usize, b: &[u8; 8])
    requires
        at + 8 <= old(data)@.len(),
        at + 8 <= usize::MAX,
    ensures
        final(data)@.len() == old(data)@.len(),
        forall|p: int|
            0 <= p < old(data)@.len() ==> #[trigger] final(data)@[p] == if at <= p < at + 8 {
                b@[p - at]
            } else {
                old(data)@[p]
            },
{
    let mut k: usize = 0;
    while k < 8
        invariant
            k <= 8,
            at + 8 <= data@.len(),
            at + 8 <= usize::MAX,
            data@.len() == old(data)@.len(),
            forall|p: int|
                0 <= p < data@.len() ==> #[trigger] data@[p] == if at <= p < at + k {
                    b@[p - at]
                } else {
                    old(data)@[p]
                },
        decreases 8 - k,
    {
        data.set(at + k, b[k]);
        k += 1;
    }
}

/// Scrambles a stored payload in place. The first twenty blocks of eight
/// bytes are ciphered. With a cycle of zero nothing else is touched.
/// Otherwise the cycle fixes the distance between the ciphered blocks that
/// follow, and every seventh of the remaining blocks is shuffled. Bytes
/// behind the last whole block are left alone.
#[verifier::rlimit(40)]
#[verifier::spinoff_prover]
pub fn encrypt_file_content(data: &mut Vec<u8>, cycle: usize)
    ensures
        final(data)@ == scrambled(old(data)@, cycle as int),
{
    let gap: usize = if cycle == 0 {
        0
    } else if cycle < 3 {
        1
    } else if cycle < 5 {
        cycle + 1
    } else if cycle < 7 {
        cycle + 9
    } else if cycle <= usize::MAX - 15 {
        cycle + 15
    } else {
        usize::MAX
    };
    let ghost g = cipher_gap(cycle as int);
    let ghost orig = data@;
    let blocks: usize = data.len() / 8;
    proof {
        // A gap beyond every block number selects no block, like the exact
        // one.
        assert(gap == g || (gap == usize::MAX && g > usize::MAX));
    }
    let mut i: usize = 0;
    let mut rank: usize = 0;
    while i < blocks
        invariant
            i <= blocks,
            blocks == orig.len() / 8,
            orig.len() <= usize::MAX,
            data@.len() == orig.len(),
            gap == g || (gap == usize::MAX && g > usize::MAX),
            g >= 0,
            rank == plain_rank(i as int, g),
            rank <= i,
            forall|p: int| 0 <= p < 8 * i ==> #[trigger] data@[p] == scrambled_byte(orig, g, p),
            forall|p: int| 8 * i <= p < orig.len() ==> #[trigger] data@[p] == orig[p],
        decreases blocks - i,
    {
        let at: usize = i * 8;
        let ciphered: bool = i < HEADER_BLOCKS || (gap > 0 && i % gap == 0);
        proof {
            if gap != g && i >= HEADER_BLOCKS {
                vstd::arithmetic::div_mod::lemma_small_mod(i as nat, gap as nat);
                vstd::arithmetic::div_mod::lemma_small_mod(i as nat, g as nat);
            }
            assert(ciphered == is_ciphered(i as int, g));
        }
        let block = read_block(data, at);
        assert(block@ =~= orig.subrange(8 * i, 8 * i + 8));
        if ciphered {
            let out = des_process_block(&block);
            write_block(data, at, &out);
        } else {
            if gap > 0 && rank != 0 && rank % SHUFFLE_PERIOD == 0 {
                let out = shuffle_block(&block);
                write_block(data, at, &out);
            }
            rank += 1;
        }
        proof {
            assert forall|p: int| 0 <= p < 8 * (i + 1) implies #[trigger] data@[p]
                == scrambled_byte(orig, g, p) by {
                if p >= 8 * i {
                    assert(p / 8 == i);
                    assert(p % 8 == p - at);
                }
            }
        }
        i += 1;
    }
    assert(data@ =~= scrambled(orig, cycle as int)) by {
        assert forall|p: int| 0 <= p < orig.len() implies data@[p] == scrambled_byte(
            orig,
            g,
            p,
        ) by {
            if p >= 8 * blocks {
                assert(p / 8 >= blocks);
                assert(8 * (p / 8) + 8 > orig.len());
            }
        }
    }
}

/// `b` with its two nibbles exchanged.
pub open spec fn swap_nibbles(b: u8) -> u8 {
    (b >> 4) | (b << 4)
}

/// Length of a name once it is filled up to whole blocks.
pub open spec fn padded_len(n: int) -> int {
    if n % 8 == 0 {
        n
    } else {
        n + 8 - n % 8
    }
}

/// `name` followed by zero bytes up to the next multiple of eight.
pub open spec fn zero_padded(name: Seq<u8>) -> Seq<u8> {
    Seq::new(padded_len(name.len() as int) as nat, |p: int| if p < name.len() {
        name[p]
    } else {
        0u8
    })
}

/// The scrambled form of a name: it is filled up with zero bytes to whole
/// blocks, every block is ciphered, and the nibbles of every byte are
/// exchanged.
pub open spec fn scrambled_name(name: Seq<u8>) -> Seq<u8> {
    let padded = zero_padded(name);
    Seq::new(
        padded.len(),
        |p: int| swap_nibbles(des_block(padded.subrange(8 * (p / 8), 8 * (p / 8) + 8))[p % 8]),
    )
}

/// Appends zero bytes to `data` until its length is a multiple of eight.
pub fn pad_to_block(data: &mut Vec<u8>)
    requires
        old(data)@.len() + 8 <= usize::MAX,
    ensures
        final(data)@ == zero_padded(old(data)@),
{
    let ghost orig = data@;
    while data.len() % 8 != 0
        invariant
            orig.len() + 8 <= usize::MAX,
            orig.len() <= data@.len() <= padded_len(orig.len() as int),
            forall|p: int| 0 <= p < orig.len() ==> data@[p] == orig[p],
            forall|p: int| orig.len() <= p < data@.len() ==> data@[p] == 0u8,
        decreases padded_len(orig.len() as int) - data@.len(),
    {
        data.push(0u8);
    }
    assert(data@ =~= zero_padded(orig));
}

/// Scrambles a Windows-1252 name for the file table.
#[verifier::rlimit(40)]
#[verifier::spinoff_prover]
pub fn encrypt_file_name(name: &[u8]) -> (r: Vec<u8>)
    requires
        name@.len() + 8 <= usize::MAX,
    ensures
        r@ == scrambled_name(name@),
{
    let mut data: Vec<u8> = Vec::new();
    let mut k: usize = 0;
    while k < name.len()
        invariant
            k <= name.len(),
            data@ == name@.subrange(0, k as int),
        decreases name.len() - k,
    {
        data.push(name[k]);
        assert(data@ =~= name@.subrange(0, k + 1));
        k += 1;
    }
    assert(data@ =~= name@);
    pad_to_block(&mut data);
    let ghost padded = data@;
    let blocks: usize = data.len() / 8;
    let mut i: usize = 0;
    while i < blocks
        invariant
            i <= blocks,
            blocks * 8 == padded.len(),
            padded.len() <= usize::MAX,
            data@.len() == padded.len(),
            forall|p: int|
                0 <= p < 8 * i ==> #[trigger] data@[p] == swap_nibbles(
                    des_block(padded.subrange(8 * (p / 8), 8 * (p / 8) + 8))[p % 8],
                ),
            forall|p: int| 8 * i <= p < padded.len() ==> #[trigger] data@[p] == padded[p],
        decreases blocks - i,
    {
        let at: usize = i * 8;
        let block = read_block(&data, at);
        assert(block@ =~= padded.subrange(8 * i, 8 * i + 8));
        let c = des_process_block(&block);
        let out: [u8; 8] = [
            (c[0] >> 4) | (c[0] << 4),
            (c[1] >> 4) | (c[1] << 4),
            (c[2] >> 4) | (c[2] << 4),
            (c[3] >> 4) | (c[3] << 4),
            (c[4] >> 4) | (c[4] << 4),
            (c[5] >> 4) | (c[5] << 4),
            (c[6] >> 4) | (c[6] << 4),
            (c[7] >> 4) | (c[7] << 4),
        ];
        write_block(&mut data, at, &out);
        proof {
            assert forall|p: int| 0 <= p < 8 * (i + 1) implies #[trigger] data@[p] == swap_nibbles(
                des_block(padded.subrange(8 * (p / 8), 8 * (p / 8) + 8))[p % 8],
            ) by {
                if p >= 8 * i {
                    assert(p / 8 == i);
                    assert(p % 8 == p - at);
                }
            }
        }
        i += 1;
    }
    assert(data@ =~= scrambled_name(name@));
    data
}

} // verus!
