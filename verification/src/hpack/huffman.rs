//! The RFC 7541 Appendix B Huffman code, and the encoder and decoder built on
//! it.
//!
//! [`CODES`] lists the code. It is canonical: the codes of one length are
//! consecutive numbers, taken by the symbols in ascending order, and each length
//! starts where the previous one stopped. [`FIRST`], [`COUNT`] and [`SYMBOLS`]
//! say so level by level, and the proofs below hold the two descriptions to each
//! other.
//!
//! Decoding uses a nibble-indexed state machine. The code is a complete prefix
//! code over 257 symbols, so its tree has exactly 256 internal nodes; each is a
//! state, and each state holds the 16 transitions for the next four bits.

use crate::hpack::HpackError;
use crate::octets::{buffered, put_u8};
use crate::text::{decimal, push_decimal};
use bytes::BytesMut;
use vstd::prelude::*;
use vstd::string::StringExecFns;

verus! {

/// The end-of-string symbol. It is only ever a padding prefix: a string that
/// decodes it is malformed (RFC 7541 §5.2).
pub const EOS: u16 = 256;

/// `(code, bit length)` per symbol, indexed by the symbol's octet value, with
/// [`EOS`] last; the code is aligned to the least significant bit.
pub const CODES: [(u32, u8); 257] = [
    (0x1ff8, 13), (0x7fffd8, 23), (0xfffffe2, 28), (0xfffffe3, 28), (0xfffffe4, 28), (0xfffffe5, 28),
    (0xfffffe6, 28), (0xfffffe7, 28), (0xfffffe8, 28), (0xffffea, 24), (0x3ffffffc, 30), (0xfffffe9, 28),
    (0xfffffea, 28), (0x3ffffffd, 30), (0xfffffeb, 28), (0xfffffec, 28), (0xfffffed, 28), (0xfffffee, 28),
    (0xfffffef, 28), (0xffffff0, 28), (0xffffff1, 28), (0xffffff2, 28), (0x3ffffffe, 30), (0xffffff3, 28),
    (0xffffff4, 28), (0xffffff5, 28), (0xffffff6, 28), (0xffffff7, 28), (0xffffff8, 28), (0xffffff9, 28),
    (0xffffffa, 28), (0xffffffb, 28), (0x14, 6), (0x3f8, 10), (0x3f9, 10), (0xffa, 12),
    (0x1ff9, 13), (0x15, 6), (0xf8, 8), (0x7fa, 11), (0x3fa, 10), (0x3fb, 10),
    (0xf9, 8), (0x7fb, 11), (0xfa, 8), (0x16, 6), (0x17, 6), (0x18, 6),
    (0x0, 5), (0x1, 5), (0x2, 5), (0x19, 6), (0x1a, 6), (0x1b, 6),
    (0x1c, 6), (0x1d, 6), (0x1e, 6), (0x1f, 6), (0x5c, 7), (0xfb, 8),
    (0x7ffc, 15), (0x20, 6), (0xffb, 12), (0x3fc, 10), (0x1ffa, 13), (0x21, 6),
    (0x5d, 7), (0x5e, 7), (0x5f, 7), (0x60, 7), (0x61, 7), (0x62, 7),
    (0x63, 7), (0x64, 7), (0x65, 7), (0x66, 7), (0x67, 7), (0x68, 7),
    (0x69, 7), (0x6a, 7), (0x6b, 7), (0x6c, 7), (0x6d, 7), (0x6e, 7),
    (0x6f, 7), (0x70, 7), (0x71, 7), (0x72, 7), (0xfc, 8), (0x73, 7),
    (0xfd, 8), (0x1ffb, 13), (0x7fff0, 19), (0x1ffc, 13), (0x3ffc, 14), (0x22, 6),
    (0x7ffd, 15), (0x3, 5), (0x23, 6), (0x4, 5), (0x24, 6), (0x5, 5),
    (0x25, 6), (0x26, 6), (0x27, 6), (0x6, 5), (0x74, 7), (0x75, 7),
    (0x28, 6), (0x29, 6), (0x2a, 6), (0x7, 5), (0x2b, 6), (0x76, 7),
    (0x2c, 6), (0x8, 5), (0x9, 5), (0x2d, 6), (0x77, 7), (0x78, 7),
    (0x79, 7), (0x7a, 7), (0x7b, 7), (0x7ffe, 15), (0x7fc, 11), (0x3ffd, 14),
    (0x1ffd, 13), (0xffffffc, 28), (0xfffe6, 20), (0x3fffd2, 22), (0xfffe7, 20), (0xfffe8, 20),
    (0x3fffd3, 22), (0x3fffd4, 22), (0x3fffd5, 22), (0x7fffd9, 23), (0x3fffd6, 22), (0x7fffda, 23),
    (0x7fffdb, 23), (0x7fffdc, 23), (0x7fffdd, 23), (0x7fffde, 23), (0xffffeb, 24), (0x7fffdf, 23),
    (0xffffec, 24), (0xffffed, 24), (0x3fffd7, 22), (0x7fffe0, 23), (0xffffee, 24), (0x7fffe1, 23),
    (0x7fffe2, 23), (0x7fffe3, 23), (0x7fffe4, 23), (0x1fffdc, 21), (0x3fffd8, 22), (0x7fffe5, 23),
    (0x3fffd9, 22), (0x7fffe6, 23), (0x7fffe7, 23), (0xffffef, 24), (0x3fffda, 22), (0x1fffdd, 21),
    (0xfffe9, 20), (0x3fffdb, 22), (0x3fffdc, 22), (0x7fffe8, 23), (0x7fffe9, 23), (0x1fffde, 21),
    (0x7fffea, 23), (0x3fffdd, 22), (0x3fffde, 22), (0xfffff0, 24), (0x1fffdf, 21), (0x3fffdf, 22),
    (0x7fffeb, 23), (0x7fffec, 23), (0x1fffe0, 21), (0x1fffe1, 21), (0x3fffe0, 22), (0x1fffe2, 21),
    (0x7fffed, 23), (0x3fffe1, 22), (0x7fffee, 23), (0x7fffef, 23), (0xfffea, 20), (0x3fffe2, 22),
    (0x3fffe3, 22), (0x3fffe4, 22), (0x7ffff0, 23), (0x3fffe5, 22), (0x3fffe6, 22), (0x7ffff1, 23),
    (0x3ffffe0, 26), (0x3ffffe1, 26), (0xfffeb, 20), (0x7fff1, 19), (0x3fffe7, 22), (0x7ffff2, 23),
    (0x3fffe8, 22), (0x1ffffec, 25), (0x3ffffe2, 26), (0x3ffffe3, 26), (0x3ffffe4, 26), (0x7ffffde, 27),
    (0x7ffffdf, 27), (0x3ffffe5, 26), (0xfffff1, 24), (0x1ffffed, 25), (0x7fff2, 19), (0x1fffe3, 21),
    (0x3ffffe6, 26), (0x7ffffe0, 27), (0x7ffffe1, 27), (0x3ffffe7, 26), (0x7ffffe2, 27), (0xfffff2, 24),
    (0x1fffe4, 21), (0x1fffe5, 21), (0x3ffffe8, 26), (0x3ffffe9, 26), (0xffffffd, 28), (0x7ffffe3, 27),
    (0x7ffffe4, 27), (0x7ffffe5, 27), (0xfffec, 20), (0xfffff3, 24), (0xfffed, 20), (0x1fffe6, 21),
    (0x3fffe9, 22), (0x1fffe7, 21), (0x1fffe8, 21), (0x7ffff3, 23), (0x3fffea, 22), (0x3fffeb, 22),
    (0x1ffffee, 25), (0x1ffffef, 25), (0xfffff4, 24), (0xfffff5, 24), (0x3ffffea, 26), (0x7ffff4, 23),
    (0x3ffffeb, 26), (0x7ffffe6, 27), (0x3ffffec, 26), (0x3ffffed, 26), (0x7ffffe7, 27), (0x7ffffe8, 27),
    (0x7ffffe9, 27), (0x7ffffea, 27), (0x7ffffeb, 27), (0xffffffe, 28), (0x7ffffec, 27), (0x7ffffed, 27),
    (0x7ffffee, 27), (0x7ffffef, 27), (0x7fffff0, 27), (0x3ffffee, 26), (0x3fffffff, 30),
];

/// The symbols in the order of their codes: shorter codes first, and codes of
/// one length in numeric order.
pub const SYMBOLS: [u16; 257] = [
    48, 49, 50, 97, 99, 101, 105, 111, 115, 116, 32, 37, 45, 46, 47, 51,
    52, 53, 54, 55, 56, 57, 61, 65, 95, 98, 100, 102, 103, 104, 108, 109,
    110, 112, 114, 117, 58, 66, 67, 68, 69, 70, 71, 72, 73, 74, 75, 76,
    77, 78, 79, 80, 81, 82, 83, 84, 85, 86, 87, 89, 106, 107, 113, 118,
    119, 120, 121, 122, 38, 42, 44, 59, 88, 90, 33, 34, 40, 41, 63, 39,
    43, 124, 35, 62, 0, 36, 64, 91, 93, 126, 94, 125, 60, 96, 123, 92,
    195, 208, 128, 130, 131, 162, 184, 194, 224, 226, 153, 161, 167, 172, 176, 177,
    179, 209, 216, 217, 227, 229, 230, 129, 132, 133, 134, 136, 146, 154, 156, 160,
    163, 164, 169, 170, 173, 178, 181, 185, 186, 187, 189, 190, 196, 198, 228, 232,
    233, 1, 135, 137, 138, 139, 140, 141, 143, 147, 149, 150, 151, 152, 155, 157,
    158, 165, 166, 168, 174, 175, 180, 182, 183, 188, 191, 197, 231, 239, 9, 142,
    144, 145, 148, 159, 171, 206, 215, 225, 236, 237, 199, 207, 234, 235, 192, 193,
    200, 201, 202, 205, 210, 213, 218, 219, 238, 240, 242, 243, 255, 203, 204, 211,
    212, 214, 221, 222, 223, 241, 244, 245, 246, 247, 248, 250, 251, 252, 253, 254,
    2, 3, 4, 5, 6, 7, 8, 11, 12, 14, 15, 16, 17, 18, 19, 20,
    21, 23, 24, 25, 26, 27, 28, 29, 30, 31, 127, 220, 249, 10, 13, 22,
    256,
];

/// The first code of each length.
pub const FIRST: [u32; 31] = [
    0, 0, 0, 0, 0, 0, 20, 92,
    248, 508, 1016, 2042, 4090, 8184, 16380, 32764,
    65534, 131068, 262136, 524272, 1048550, 2097116, 4194258, 8388568,
    16777194, 33554412, 67108832, 134217694, 268435426, 536870910, 1073741820,
];

/// How many codes each length has.
pub const COUNT: [u32; 31] = [
    0, 0, 0, 0, 0, 10, 26, 32, 6, 0, 5, 3, 2, 6, 2, 3,
    0, 0, 0, 3, 8, 13, 26, 29, 12, 4, 15, 19, 29, 0, 4,
];

/// Where the symbols of each length start in [`SYMBOLS`].
pub const OFFSET: [u32; 31] = [
    0, 0, 0, 0, 0, 0, 10, 36, 68, 74, 74, 79, 82, 84, 90, 92,
    95, 95, 95, 95, 98, 106, 119, 145, 174, 186, 190, 205, 224, 253, 253,
];

/// How many bit strings of each length are a proper prefix of some code: the
/// internal nodes of the code tree, level by level.
pub const INNER: [u32; 31] = [
    1, 2, 4, 8, 16, 22, 18, 4, 2, 4, 3, 3, 4, 2, 2, 1,
    2, 4, 8, 13, 18, 23, 20, 11, 10, 16, 17, 15, 1, 2, 0,
];

/// Where the states of each level start.
pub const BASE: [u32; 31] = [
    0, 1, 3, 7, 15, 31, 53, 71, 75, 77, 81, 84, 87, 91, 93, 95,
    96, 98, 102, 110, 123, 141, 164, 184, 195, 205, 221, 238, 253, 254, 256,
];

// ---------------------------------------------------------------------------
// The code tree
// ---------------------------------------------------------------------------

/// The first code of length `n`.
pub open spec fn first(n: int) -> int {
    FIRST@[n] as int
}

/// One past the last code of length `n`.
pub open spec fn end(n: int) -> int {
    FIRST@[n] + COUNT@[n]
}

/// `c` is a complete code of `n` bits.
pub open spec fn is_code(c: int, n: int) -> bool {
    1 <= n <= 30 && first(n) <= c < end(n)
}

/// The symbol a complete code stands for.
pub open spec fn symbol(c: int, n: int) -> u16 {
    SYMBOLS@[OFFSET@[n] + c - first(n)]
}

/// `c` is a string of `n` bits that some code properly extends.
pub open spec fn is_node(c: int, n: int) -> bool {
    0 <= n < 30 && end(n) <= c < end(n) + INNER@[n]
}

/// The tables describe a tree: every child of an internal node of one level is
/// a code or an internal node of the next, and nothing else is.
pub open spec fn level_ok(n: int) -> bool {
    &&& first(n) == 2 * end(n - 1)
    &&& 2 * INNER@[n - 1] == COUNT@[n] + INNER@[n]
    &&& BASE@[n] == BASE@[n - 1] + INNER@[n - 1]
    &&& OFFSET@[n] == OFFSET@[n - 1] + COUNT@[n - 1]
    &&& (n < 30 ==> INNER@[n] > 0)
    &&& (n < 5 ==> COUNT@[n] == 0)
}

spec fn levels_ok(n: nat) -> bool
    decreases n,
{
    n == 0 || (level_ok(n as int) && levels_ok((n - 1) as nat))
}

proof fn lemma_levels_upto(m: nat, n: nat)
    requires
        levels_ok(m),
        1 <= n <= m,
    ensures
        level_ok(n as int),
    decreases m,
{
    if n < m {
        lemma_levels_upto((m - 1) as nat, n);
    }
}

/// Every level of the tables fits the one above it.
proof fn lemma_level(n: int)
    requires
        1 <= n <= 30,
    ensures
        level_ok(n),
{
    assert(levels_ok(30)) by {
        reveal_with_fuel(levels_ok, 31);
    }
    lemma_levels_upto(30, n as nat);
}

/// The root and the last level.
proof fn lemma_level_ends()
    ensures
        end(0) == 0,
        INNER@[0] == 1,
        BASE@[0] == 0,
        OFFSET@[0] == 0,
        INNER@[30] == 0,
        BASE@[30] == 256,
        OFFSET@[30] + COUNT@[30] == 257,
{
}

/// A symbol's code lies among the codes of its length, at the symbol's place.
pub open spec fn symbol_ok(s: int) -> bool {
    let (code, len) = CODES@[s];
    &&& 5 <= len <= 30
    &&& is_code(code as int, len as int)
    &&& symbol(code as int, len as int) == s
}

spec fn symbols_ok(from: nat, to: nat) -> bool
    decreases to,
{
    to <= from || (symbol_ok(to - 1) && symbols_ok(from, (to - 1) as nat))
}

proof fn lemma_symbols_upto(from: nat, to: nat, s: nat)
    requires
        symbols_ok(from, to),
        from <= s < to,
    ensures
        symbol_ok(s as int),
    decreases to,
{
    if s + 1 < to {
        lemma_symbols_upto(from, (to - 1) as nat, s);
    }
}

/// The listed code is the canonical one.
pub proof fn lemma_symbol(s: int)
    requires
        0 <= s <= 256,
    ensures
        symbol_ok(s),
{
    if s < 64 {
        assert(symbols_ok(0, 64)) by {
            reveal_with_fuel(symbols_ok, 66);
        }
        lemma_symbols_upto(0, 64, s as nat);
    } else if s < 128 {
        assert(symbols_ok(64, 128)) by {
            reveal_with_fuel(symbols_ok, 66);
        }
        lemma_symbols_upto(64, 128, s as nat);
    } else if s < 192 {
        assert(symbols_ok(128, 192)) by {
            reveal_with_fuel(symbols_ok, 66);
        }
        lemma_symbols_upto(128, 192, s as nat);
    } else {
        assert(symbols_ok(192, 257)) by {
            reveal_with_fuel(symbols_ok, 67);
        }
        lemma_symbols_upto(192, 257, s as nat);
    }
}

// ---------------------------------------------------------------------------
// Bits
// ---------------------------------------------------------------------------

/// Bit `j` of an octet, counting from the least significant.
pub open spec fn bit8(b: u8, j: int) -> bool {
    (if j == 7 {
        b / 128
    } else if j == 6 {
        b / 64
    } else if j == 5 {
        b / 32
    } else if j == 4 {
        b / 16
    } else if j == 3 {
        b / 8
    } else if j == 2 {
        b / 4
    } else if j == 1 {
        b / 2
    } else {
        b
    }) % 2 == 1
}

/// The bits of an octet string, most significant first.
pub open spec fn bits_of(s: Seq<u8>) -> Seq<bool> {
    Seq::new(8 * s.len(), |i: int| bit8(s[i / 8], 7 - i % 8))
}

/// The bits of a four-bit number, most significant first.
pub open spec fn nibble_bits(v: u8) -> Seq<bool> {
    seq![bit8(v, 3), bit8(v, 2), bit8(v, 1), bit8(v, 0)]
}

/// A bit as a number.
pub open spec fn as_bit(b: bool) -> int {
    if b {
        1
    } else {
        0
    }
}

/// The octet eight bits spell, most significant first.
pub open spec fn octet_of(b: Seq<bool>) -> u8 {
    (128 * as_bit(b[0]) + 64 * as_bit(b[1]) + 32 * as_bit(b[2]) + 16 * as_bit(b[3]) + 8 * as_bit(
        b[4],
    ) + 4 * as_bit(b[5]) + 2 * as_bit(b[6]) + as_bit(b[7])) as u8
}

/// The octets a whole number of octets' worth of bits spells.
pub open spec fn octets_of(bits: Seq<bool>) -> Seq<u8> {
    Seq::new(bits.len() / 8, |i: int| octet_of(bits.subrange(8 * i, 8 * i + 8)))
}

/// `n` one bits.
pub open spec fn ones(n: nat) -> Seq<bool> {
    Seq::new(n, |i: int| true)
}

/// How many bits are missing to a whole number of octets.
pub open spec fn padding(bits: nat) -> nat {
    ((8 - bits % 8) % 8) as nat
}

/// Eight bits and the number they spell.
proof fn lemma_spelled(
    o: u8,
    b7: u8,
    b6: u8,
    b5: u8,
    b4: u8,
    b3: u8,
    b2: u8,
    b1: u8,
    b0: u8,
)
    by (bit_vector)
    requires
        b7 <= 1 && b6 <= 1 && b5 <= 1 && b4 <= 1 && b3 <= 1 && b2 <= 1 && b1 <= 1 && b0 <= 1,
        o == 128 * b7 + 64 * b6 + 32 * b5 + 16 * b4 + 8 * b3 + 4 * b2 + 2 * b1 + b0,
    ensures
        (o / 128) % 2 == b7,
        (o / 64) % 2 == b6,
        (o / 32) % 2 == b5,
        (o / 16) % 2 == b4,
        (o / 8) % 2 == b3,
        (o / 4) % 2 == b2,
        (o / 2) % 2 == b1,
        o % 2 == b0,
{
}

/// An octet's bits spell the octet.
proof fn lemma_octet_bits(b: Seq<bool>)
    requires
        b.len() == 8,
    ensures
        forall|j: int| 0 <= j < 8 ==> bit8(octet_of(b), 7 - j) == #[trigger] b[j],
{
    let o = octet_of(b);
    lemma_spelled(
        o,
        as_bit(b[0]) as u8,
        as_bit(b[1]) as u8,
        as_bit(b[2]) as u8,
        as_bit(b[3]) as u8,
        as_bit(b[4]) as u8,
        as_bit(b[5]) as u8,
        as_bit(b[6]) as u8,
        as_bit(b[7]) as u8,
    );
    assert(bit8(o, 7) == b[0]);
    assert(bit8(o, 6) == b[1]);
    assert(bit8(o, 5) == b[2]);
    assert(bit8(o, 4) == b[3]);
    assert(bit8(o, 3) == b[4]);
    assert(bit8(o, 2) == b[5]);
    assert(bit8(o, 1) == b[6]);
    assert(bit8(o, 0) == b[7]);
}

/// Packing bits into octets and reading the octets' bits is the identity.
pub proof fn lemma_bits_of_octets(bits: Seq<bool>)
    requires
        bits.len() % 8 == 0,
    ensures
        bits_of(octets_of(bits)) == bits,
{
    let s = octets_of(bits);
    assert forall|i: int| 0 <= i < bits.len() implies bits_of(s)[i] == bits[i] by {
        let k = i / 8;
        let chunk = bits.subrange(8 * k, 8 * k + 8);
        lemma_octet_bits(chunk);
        assert(chunk[i % 8] == bits[i]);
    }
    assert(bits_of(s) =~= bits);
}

/// An octet's bits are those of its two halves.
proof fn lemma_halves(b: u8)
    ensures
        forall|j: int|
            0 <= j < 8 ==> #[trigger] (nibble_bits(b / 16) + nibble_bits(b % 16))[j] == bit8(
                b,
                7 - j,
            ),
{
    let h = nibble_bits(b / 16) + nibble_bits(b % 16);
    assert({
        &&& ((b / 16) / 8) % 2 == (b / 128) % 2
        &&& ((b / 16) / 4) % 2 == (b / 64) % 2
        &&& ((b / 16) / 2) % 2 == (b / 32) % 2
        &&& ((b % 16) / 8) % 2 == (b / 8) % 2
        &&& ((b % 16) / 4) % 2 == (b / 4) % 2
        &&& ((b % 16) / 2) % 2 == (b / 2) % 2
        &&& (b % 16) % 2 == b % 2
    }) by (bit_vector);
    assert(h[0] == bit8(b, 7));
    assert(h[1] == bit8(b, 6));
    assert(h[2] == bit8(b, 5));
    assert(h[3] == bit8(b, 4));
    assert(h[4] == bit8(b, 3));
    assert(h[5] == bit8(b, 2));
    assert(h[6] == bit8(b, 1));
    assert(h[7] == bit8(b, 0));
}

/// The bits of a string with one octet more.
proof fn lemma_bits_push(s: Seq<u8>, b: u8)
    ensures
        bits_of(s.push(b)) == bits_of(s) + (nibble_bits(b / 16) + nibble_bits(b % 16)),
{
    let l = bits_of(s.push(b));
    let h = nibble_bits(b / 16) + nibble_bits(b % 16);
    let r = bits_of(s) + h;
    lemma_halves(b);
    assert forall|i: int| 0 <= i < l.len() implies l[i] == r[i] by {
        if i < 8 * s.len() {
            assert(s.push(b)[i / 8] == s[i / 8]);
        } else {
            let j = i - 8 * s.len();
            assert(i / 8 == s.len() && i % 8 == j);
            assert(r[i] == h[j]);
            assert(h[j] == bit8(b, 7 - j));
        }
    }
    assert(l =~= r);
}

// ---------------------------------------------------------------------------
// Encoding
// ---------------------------------------------------------------------------

/// The bits of a symbol's code, most significant first.
pub open spec fn code_bits(s: int) -> Seq<bool> {
    let (code, len) = CODES@[s];
    Seq::new(len as nat, |i: int| (code >> ((len - 1 - i) as u32)) & 1u32 == 1u32)
}

/// The codes of a string, one after the other.
pub open spec fn string_bits(src: Seq<u8>) -> Seq<bool>
    decreases src.len(),
{
    if src.len() == 0 {
        Seq::empty()
    } else {
        string_bits(src.drop_last()) + code_bits(src.last() as int)
    }
}

/// How many octets a string occupies once coded.
pub open spec fn coded_len(src: Seq<u8>) -> nat {
    (string_bits(src).len() + 7) / 8
}

/// The coded form of a string: its codes, with the last octet filled up with
/// one bits, the start of the EOS code (§5.2).
pub open spec fn coded(src: Seq<u8>) -> Seq<u8> {
    octets_of(string_bits(src) + ones(padding(string_bits(src).len())))
}

/// How many octets `src` occupies once Huffman-coded.
pub fn exact_len(src: &[u8]) -> (n: u128)
    ensures
        n == coded_len(src@),
{
    let mut bits: u128 = 0;
    let mut i: usize = 0;
    while i < src.len()
        invariant
            i <= src@.len(),
            bits == string_bits(src@.take(i as int)).len(),
            bits <= 30 * i,
        decreases src@.len() - i,
    {
        let len = CODES[src[i] as usize].1 as u128;
        proof {
            lemma_symbol(src@[i as int] as int);
            assert(src@.take(i + 1).drop_last() =~= src@.take(i as int));
        }
        bits = bits + len;
        i += 1;
    }
    assert(src@.take(i as int) =~= src@);
    (bits + 7) / 8
}

/// How many octets `src` occupies once Huffman-coded, held at the largest
/// `usize`.
pub fn encoded_len(src: &[u8]) -> (n: usize)
    ensures
        n == (if coded_len(src@) > usize::MAX {
            usize::MAX as nat
        } else {
            coded_len(src@)
        }),
{
    let n = exact_len(src);
    if n > usize::MAX as u128 {
        usize::MAX
    } else {
        n as usize
    }
}

/// Packs bits into octets as they come.
struct Packer {
    acc: u8,
    nbits: u8,
}

impl Packer {
    /// Appends one bit, writing the octet out when it is full.
    fn push(&mut self, bit: bool, out: &mut BytesMut, start: Ghost<Seq<u8>>, done: Ghost<Seq<bool>>)
        requires
            old(self).holds(start@, buffered(*old(out)), done@),
        ensures
            final(self).holds(start@, buffered(*final(out)), done@.push(bit)),
    {
        let b: u8 = if bit {
            1
        } else {
            0
        };
        let ghost before = buffered(*out);
        let ghost old_acc = self.acc;
        let ghost full = done@.push(bit);
        self.acc = self.acc * 2 + b;
        self.nbits = self.nbits + 1;
        proof {
            let k = self.nbits as int;
            let tail = full.skip(full.len() - k);
            assert(tail.drop_last() =~= done@.skip(done@.len() - (k - 1)));
            assert(tail.last() == bit);
            reveal_with_fuel(number, 2);
        }
        if self.nbits == 8 {
            put_u8(out, self.acc);
            proof {
                let tail = full.skip(full.len() - 8);
                lemma_number_octet(tail);
                let whole = octets_of(full);
                assert(full.len() / 8 == done@.len() / 8 + 1);
                assert(octets_of(full) =~= octets_of(done@).push(self.acc)) by {
                    assert forall|i: int| 0 <= i < done@.len() / 8 implies octets_of(full)[i]
                        == octets_of(done@)[i] by {
                        assert(full.subrange(8 * i, 8 * i + 8) =~= done@.subrange(
                            8 * i,
                            8 * i + 8,
                        ));
                    }
                    let i = (done@.len() / 8) as int;
                    assert(full.subrange(8 * i, 8 * i + 8) =~= tail);
                }
                assert(full.skip(full.len() as int) =~= Seq::empty());
            }
            self.acc = 0;
            self.nbits = 0;
        } else {
            proof {
                assert(octets_of(full) =~= octets_of(done@)) by {
                    assert(full.len() / 8 == done@.len() / 8);
                    assert forall|i: int| 0 <= i < done@.len() / 8 implies octets_of(full)[i]
                        == octets_of(done@)[i] by {
                        assert(full.subrange(8 * i, 8 * i + 8) =~= done@.subrange(
                            8 * i,
                            8 * i + 8,
                        ));
                    }
                }
            }
        }
    }

    /// Of the bits `done`, the whole octets stand behind `start` in the buffer
    /// and the rest is held here.
    spec fn holds(self, start: Seq<u8>, buf: Seq<u8>, done: Seq<bool>) -> bool {
        &&& self.nbits < 8
        &&& self.nbits == done.len() % 8
        &&& self.acc == number(done.skip(done.len() - self.nbits))
        &&& buf == start + octets_of(done)
        &&& self.acc < (if self.nbits == 0 {
            1int
        } else if self.nbits == 1 {
            2
        } else if self.nbits == 2 {
            4
        } else if self.nbits == 3 {
            8
        } else if self.nbits == 4 {
            16
        } else if self.nbits == 5 {
            32
        } else if self.nbits == 6 {
            64
        } else {
            128
        })
    }
}

/// The number a bit string spells, most significant bit first.
spec fn number(b: Seq<bool>) -> int
    decreases b.len(),
{
    if b.len() == 0 {
        0
    } else {
        2 * number(b.drop_last()) + as_bit(b.last())
    }
}

/// Eight bits spell the octet made of them.
proof fn lemma_number_octet(b: Seq<bool>)
    requires
        b.len() == 8,
    ensures
        number(b) == octet_of(b),
{
    let b7 = b.drop_last();
    let b6 = b7.drop_last();
    let b5 = b6.drop_last();
    let b4 = b5.drop_last();
    let b3 = b4.drop_last();
    let b2 = b3.drop_last();
    let b1 = b2.drop_last();
    let b0 = b1.drop_last();
    assert(number(b0) == 0);
    assert(number(b1) == as_bit(b[0]));
    assert(number(b2) == 2 * number(b1) + as_bit(b[1]));
    assert(number(b3) == 2 * number(b2) + as_bit(b[2]));
    assert(number(b4) == 2 * number(b3) + as_bit(b[3]));
    assert(number(b5) == 2 * number(b4) + as_bit(b[4]));
    assert(number(b6) == 2 * number(b5) + as_bit(b[5]));
    assert(number(b7) == 2 * number(b6) + as_bit(b[6]));
}

/// Huffman-codes `src` into `out`.
pub fn encode(src: &[u8], out: &mut BytesMut)
    ensures
        buffered(*final(out)) == buffered(*old(out)) + coded(src@),
{
    let mut packer = Packer { acc: 0, nbits: 0 };
    let ghost start = buffered(*out);
    let ghost mut done: Seq<bool> = Seq::empty();
    let mut i: usize = 0;
    proof {
        assert(octets_of(done) =~= Seq::empty());
        assert(start + octets_of(done) =~= start);
        assert(src@.take(0) =~= Seq::empty());
    }
    while i < src.len()
        invariant
            i <= src@.len(),
            done == string_bits(src@.take(i as int)),
            packer.holds(start, buffered(*out), done),
        decreases src@.len() - i,
    {
        let (code, len) = CODES[src[i] as usize];
        let ghost s = src@[i as int] as int;
        let ghost bits = code_bits(s);
        let ghost head = done;
        proof {
            lemma_symbol(s);
            assert(head + bits.take(0) =~= head);
        }
        let mut k: u8 = 0;
        while k < len
            invariant
                k <= len,
                5 <= len <= 30,
                (code, len) == CODES@[s],
                bits == code_bits(s),
                done == head + bits.take(k as int),
                packer.holds(start, buffered(*out), done),
            decreases len - k,
        {
            let bit = (code >> ((len - 1 - k) as u32)) & 1 == 1;
            packer.push(bit, out, Ghost(start), Ghost(done));
            proof {
                assert(bits.take(k + 1) =~= bits.take(k as int).push(bit));
                done = done.push(bit);
                assert(done =~= head + bits.take(k + 1));
            }
            k += 1;
        }
        proof {
            assert(bits.take(k as int) =~= bits);
            assert(src@.take(i + 1).drop_last() =~= src@.take(i as int));
        }
        i += 1;
    }
    let ghost bits = done;
    let ghost pad = padding(bits.len());
    proof {
        assert(src@.take(i as int) =~= src@);
        assert(bits + ones(0) =~= bits);
    }
    let ghost mut n: nat = 0;
    while packer.nbits != 0
        invariant
            n <= pad,
            pad == padding(bits.len()),
            done == bits + ones(n),
            packer.holds(start, buffered(*out), done),
            done.len() == bits.len() + n,
        decreases pad - n,
    {
        assert(n < pad);
        packer.push(true, out, Ghost(start), Ghost(done));
        proof {
            assert(ones(n + 1) =~= ones(n).push(true));
            done = done.push(true);
            n = n + 1;
            assert(done =~= bits + ones(n));
        }
    }
    assert(n == pad);
}

// ---------------------------------------------------------------------------
// Decoding, bit by bit: what a coded string means
// ---------------------------------------------------------------------------

/// A decoder part of the way through a string: the symbols completed, and the
/// bits read since the last one.
#[verifier::ext_equal]
pub struct Walk {
    pub out: Seq<u8>,
    /// The number the bits since the last symbol spell.
    pub code: int,
    /// How many bits there are since the last symbol.
    pub len: int,
    /// Whether they are all ones, as padding must be.
    pub ones: bool,
    /// Whether the EOS symbol was read, which ends the string as malformed.
    pub eos: bool,
}

/// A decoder between symbols.
pub open spec fn at_root(out: Seq<u8>) -> Walk {
    Walk { out, code: 0, len: 0, ones: true, eos: false }
}

/// Reads one bit.
pub open spec fn step(w: Walk, b: bool) -> Walk {
    let c = 2 * w.code + as_bit(b);
    let n = w.len + 1;
    if w.eos {
        w
    } else if !is_code(c, n) {
        Walk { code: c, len: n, ones: w.ones && b, ..w }
    } else if symbol(c, n) == EOS {
        Walk { eos: true, ..w }
    } else {
        at_root(w.out.push(symbol(c, n) as u8))
    }
}

/// Reads a string of bits.
pub open spec fn fed(w: Walk, bits: Seq<bool>) -> Walk
    decreases bits.len(),
{
    if bits.len() == 0 {
        w
    } else {
        step(fed(w, bits.drop_last()), bits.last())
    }
}

/// What a coded string decodes to: its symbols, when no EOS symbol occurs in it
/// and the bits left over are at most seven ones; otherwise why it is malformed.
pub open spec fn decoded_bits(bits: Seq<bool>) -> Result<Seq<u8>, Seq<char>> {
    let w = fed(at_root(Seq::empty()), bits);
    if w.eos {
        Err("huffman string contains the EOS symbol"@)
    } else if w.len > 7 {
        Err("huffman padding is "@ + decimal(w.len as nat) + " bits, more than the 7 allowed"@)
    } else if !w.ones {
        Err("huffman padding is not a prefix of the EOS code"@)
    } else {
        Ok(w.out)
    }
}

/// The state of a walk fits the tree.
pub open spec fn on_tree(w: Walk) -> bool {
    !w.eos ==> is_node(w.code, w.len) && (w.ones <==> w.code == end(w.len) + INNER@[w.len] - 1)
}

/// A step stays on the tree.
proof fn lemma_step(w: Walk, b: bool)
    requires
        on_tree(w),
    ensures
        on_tree(step(w, b)),
{
    lemma_level_ends();
    if !w.eos {
        lemma_level(w.len + 1);
    }
}

/// Reading a string in two parts.
proof fn lemma_fed_concat(w: Walk, a: Seq<bool>, b: Seq<bool>)
    ensures
        fed(w, a + b) == fed(fed(w, a), b),
    decreases b.len(),
{
    if b.len() == 0 {
        assert(a + b =~= a);
    } else {
        assert((a + b).drop_last() =~= a + b.drop_last());
        lemma_fed_concat(w, a, b.drop_last());
    }
}

/// Reading stays on the tree.
proof fn lemma_fed_on_tree(w: Walk, bits: Seq<bool>)
    requires
        on_tree(w),
    ensures
        on_tree(fed(w, bits)),
    decreases bits.len(),
{
    if bits.len() > 0 {
        lemma_fed_on_tree(w, bits.drop_last());
        lemma_step(fed(w, bits.drop_last()), bits.last());
    }
}

/// What was read before only stands in front of what is read after.
proof fn lemma_fed_prefix(w: Walk, bits: Seq<bool>)
    ensures
        ({
            let bare = fed(Walk { out: Seq::empty(), ..w }, bits);
            fed(w, bits) == Walk { out: w.out + bare.out, ..bare }
        }),
    decreases bits.len(),
{
    if bits.len() == 0 {
        assert(w.out + Seq::empty() =~= w.out);
    } else {
        lemma_fed_prefix(w, bits.drop_last());
        let bare = fed(Walk { out: Seq::empty(), ..w }, bits.drop_last());
        let c = 2 * bare.code + as_bit(bits.last());
        let s = symbol(c, bare.len + 1) as u8;
        assert(w.out + bare.out.push(s) =~= (w.out + bare.out).push(s));
    }
}

// ---------------------------------------------------------------------------
// Decoding: a nibble-indexed state machine
// ---------------------------------------------------------------------------

/// A state that no legal input can reach; marks a transition that must fail.
pub const INVALID: u16 = 65_535;

/// The root of the code tree: the state at every code boundary.
pub const ROOT: u16 = 0;

/// What consuming one nibble from a given state does.
#[derive(Clone, Copy, PartialEq, Eq, Debug, Structural)]
pub struct Transition {
    /// The state the four bits lead to, or [`INVALID`] if they decode the EOS
    /// symbol.
    pub next: u16,
    /// The symbol completed while consuming these bits, if any. At most one:
    /// the shortest code is five bits long.
    pub emit: Option<u8>,
}

/// The state a node of the tree is given.
pub open spec fn state_of(c: int, n: int) -> int {
    BASE@[n] + c - end(n)
}

/// The transition a nibble must cause at a node.
pub open spec fn transition_at(c: int, n: int, v: u8) -> Transition {
    let start = Walk {
        out: Seq::empty(),
        code: c,
        len: n,
        ones: c == end(n) + INNER@[n] - 1,
        eos: false,
    };
    let w = fed(start, nibble_bits(v));
    if w.eos {
        Transition { next: INVALID, emit: None }
    } else {
        Transition {
            next: state_of(w.code, w.len) as u16,
            emit: if w.out.len() == 0 {
                None
            } else {
                Some(w.out[0])
            },
        }
    }
}

/// The derived decoding table, plus the two facts about each state needed to
/// validate trailing padding.
pub struct DecodeTable {
    /// The sixteen transitions of each state, state after state.
    pub states: Vec<Transition>,
    /// Bits consumed since the last completed symbol, per state.
    pub depth: Vec<u8>,
    /// Whether those bits are all ones, per state.
    pub eos_prefix: Vec<bool>,
}

/// Levels grow downward: a node's state comes before every state of a deeper
/// level, and is one of the 256.
proof fn lemma_state_range(c: int, n: int)
    requires
        is_node(c, n),
    ensures
        0 <= state_of(c, n) < 256,
        0 <= BASE@[n] <= state_of(c, n) < BASE@[n + 1],
{
    lemma_level(n + 1);
    lemma_level_ends();
    lemma_base_bound(n + 1);
}

/// No level starts past the last state.
proof fn lemma_base_bound(n: int)
    requires
        0 <= n <= 30,
    ensures
        BASE@[n] <= 256,
    decreases 30 - n,
{
    lemma_level_ends();
    if n < 30 {
        lemma_level(n + 1);
        lemma_base_bound(n + 1);
    }
}

proof fn lemma_base_mono(a: int, b: int)
    requires
        0 <= a <= b <= 30,
    ensures
        BASE@[a] <= BASE@[b],
    decreases b - a,
{
    if a < b {
        lemma_level(b);
        lemma_base_mono(a, b - 1);
    }
}

/// At most one symbol completes in a nibble, and the walk after it is on the
/// tree.
proof fn lemma_nibble(c: int, n: int, v: u8)
    requires
        is_node(c, n),
    ensures
        ({
            let start = Walk {
                out: Seq::empty(),
                code: c,
                len: n,
                ones: c == end(n) + INNER@[n] - 1,
                eos: false,
            };
            let w = fed(start, nibble_bits(v));
            &&& on_tree(w)
            &&& w.out.len() <= 1
        }),
{
    let start = Walk {
        out: Seq::empty(),
        code: c,
        len: n,
        ones: c == end(n) + INNER@[n] - 1,
        eos: false,
    };
    let bits = nibble_bits(v);
    lemma_fed_on_tree(start, bits);
    let w1 = step(start, bits[0]);
    let w2 = step(w1, bits[1]);
    let w3 = step(w2, bits[2]);
    let w4 = step(w3, bits[3]);
    lemma_fed_four(start, bits);
    lemma_level(1);
    lemma_level(2);
    lemma_level(3);
    lemma_level(4);
}

/// Reading four bits is four steps.
proof fn lemma_fed_four(w: Walk, bits: Seq<bool>)
    requires
        bits.len() == 4,
    ensures
        fed(w, bits) == step(step(step(step(w, bits[0]), bits[1]), bits[2]), bits[3]),
{
    reveal_with_fuel(fed, 5);
    let b3 = bits.drop_last();
    let b2 = b3.drop_last();
    let b1 = b2.drop_last();
    assert(b1.drop_last().len() == 0);
}

/// Where a nibble's walk has got to.
#[derive(Clone, Copy)]
struct Place {
    code: u32,
    len: u8,
    emit: Option<u8>,
    eos: bool,
}

impl Place {
    /// This place is where `w` is.
    spec fn follows(self, w: Walk) -> bool {
        &&& self.eos == w.eos
        &&& self.code == w.code
        &&& self.len == w.len
        &&& self.emit == (if w.out.len() == 0 {
            None
        } else {
            Some(w.out.last())
        })
    }
}

impl DecodeTable {
    /// Every state holds the transitions its node calls for.
    pub open spec fn wf(self) -> bool {
        &&& self.states@.len() == 4096
        &&& self.depth@.len() == 256
        &&& self.eos_prefix@.len() == 256
        &&& forall|c: int, n: int, v: u8|
            #![trigger transition_at(c, n, v)]
            is_node(c, n) && v < 16 ==> self.states@[16 * state_of(c, n) + v] == transition_at(
                c,
                n,
                v,
            )
        &&& forall|c: int, n: int|
            #![trigger state_of(c, n)]
            is_node(c, n) ==> self.depth@[state_of(c, n)] == n && self.eos_prefix@[state_of(c, n)]
                == (c == end(n) + INNER@[n] - 1)
    }

    /// Walks one bit further.
    fn walk_bit(at: Place, bit: bool, w: Ghost<Walk>) -> (r: Place)
        requires
            at.follows(w@),
            on_tree(w@),
        ensures
            r.follows(step(w@, bit)),
            on_tree(step(w@, bit)),
    {
        proof {
            lemma_step(w@, bit);
        }
        if at.eos {
            return at;
        }
        proof {
            lemma_level(w@.len + 1);
            lemma_level_ends();
            lemma_first_bound(w@.len);
        }
        let c: u32 = 2 * at.code + if bit {
            1
        } else {
            0
        };
        let n: u8 = at.len + 1;
        let f = FIRST[n as usize];
        if f <= c && c - f < COUNT[n as usize] {
            proof {
                lemma_offset_bound(n as int);
            }
            let sym = SYMBOLS[(OFFSET[n as usize] + (c - f)) as usize];
            if sym == EOS {
                Place { eos: true, ..at }
            } else {
                Place { code: 0, len: 0, emit: Some(sym as u8), eos: false }
            }
        } else {
            Place { code: c, len: n, ..at }
        }
    }

    /// The transition of one nibble at one node, found by walking its bits.
    fn walk_nibble(code: u32, len: u8, nibble: u8) -> (t: Transition)
        requires
            is_node(code as int, len as int),
            nibble < 16,
        ensures
            t == transition_at(code as int, len as int, nibble),
    {
        let ghost w0 = Walk {
            out: Seq::empty(),
            code: code as int,
            len: len as int,
            ones: code == end(len as int) + INNER@[len as int] - 1,
            eos: false,
        };
        let ghost bits = nibble_bits(nibble);
        let ghost w1 = step(w0, bits[0]);
        let ghost w2 = step(w1, bits[1]);
        let ghost w3 = step(w2, bits[2]);
        let ghost w4 = step(w3, bits[3]);
        proof {
            lemma_nibble(code as int, len as int, nibble);
            lemma_fed_four(w0, bits);
        }
        let at = Place { code, len, emit: None, eos: false };
        let at = Self::walk_bit(at, nibble / 8 % 2 == 1, Ghost(w0));
        let at = Self::walk_bit(at, nibble / 4 % 2 == 1, Ghost(w1));
        let at = Self::walk_bit(at, nibble / 2 % 2 == 1, Ghost(w2));
        let at = Self::walk_bit(at, nibble % 2 == 1, Ghost(w3));
        if at.eos {
            return Transition { next: INVALID, emit: None };
        }
        proof {
            lemma_state_range(w4.code, w4.len);
            lemma_first_bound(w4.len);
        }
        let base = BASE[at.len as usize];
        let before = FIRST[at.len as usize] + COUNT[at.len as usize];
        Transition { next: (base + (at.code - before)) as u16, emit: at.emit }
    }

    /// Derives the state machine from the code.
    pub fn build() -> (t: DecodeTable)
        ensures
            t.wf(),
    {
        let mut t = DecodeTable { states: Vec::new(), depth: Vec::new(), eos_prefix: Vec::new() };
        let mut n: u8 = 0;
        proof {
            lemma_level_ends();
        }
        while n < 30
            invariant
                n <= 30,
                t.depth@.len() == BASE@[n as int],
                t.eos_prefix@.len() == BASE@[n as int],
                t.states@.len() == 16 * BASE@[n as int],
                forall|c: int, m: int, v: u8|
                    #![trigger transition_at(c, m, v)]
                    is_node(c, m) && m < n && v < 16 ==> t.states@[16 * state_of(c, m) + v]
                        == transition_at(c, m, v),
                forall|c: int, m: int|
                    #![trigger state_of(c, m)]
                    is_node(c, m) && m < n ==> t.depth@[state_of(c, m)] == m
                        && t.eos_prefix@[state_of(c, m)] == (c == end(m) + INNER@[m] - 1),
            decreases 30 - n,
        {
            proof {
                lemma_level(n + 1);
                lemma_first_bound(n as int);
                lemma_base_bound(n + 1);
            }
            let mut k: u32 = 0;
            while k < INNER[n as usize]
                invariant
                    n < 30,
                    k <= INNER@[n as int],
                    end(n as int) + INNER@[n as int] <= 0x4000_0000,
                    BASE@[n as int] + INNER@[n as int] <= 256,
                    t.depth@.len() == BASE@[n as int] + k,
                    t.eos_prefix@.len() == BASE@[n as int] + k,
                    t.states@.len() == 16 * (BASE@[n as int] + k),
                    forall|c: int, m: int, v: u8|
                        #![trigger transition_at(c, m, v)]
                        is_node(c, m) && (m < n || (m == n && c < end(m) + k)) && v < 16
                            ==> t.states@[16 * state_of(c, m) + v] == transition_at(c, m, v),
                    forall|c: int, m: int|
                        #![trigger state_of(c, m)]
                        is_node(c, m) && (m < n || (m == n && c < end(m) + k))
                            ==> t.depth@[state_of(c, m)] == m && t.eos_prefix@[state_of(c, m)] == (c
                            == end(m) + INNER@[m] - 1),
                decreases INNER@[n as int] - k,
            {
                let code = FIRST[n as usize] + COUNT[n as usize] + k;
                let ghost here = state_of(code as int, n as int);
                let ghost before = t;
                let mut v: u8 = 0;
                while v < 16
                    invariant
                        v <= 16,
                        n < 30,
                        k < INNER@[n as int],
                        code == end(n as int) + k,
                        is_node(code as int, n as int),
                        here == state_of(code as int, n as int),
                        here == BASE@[n as int] + k,
                        t.depth == before.depth,
                        t.eos_prefix == before.eos_prefix,
                        before.states@.len() == 16 * here,
                        t.states@.len() == 16 * here + v,
                        forall|i: int| 0 <= i < 16 * here ==> t.states@[i] == before.states@[i],
                        forall|u: u8|
                            #![trigger transition_at(code as int, n as int, u)]
                            u < v ==> t.states@[16 * here + u] == transition_at(
                                code as int,
                                n as int,
                                u,
                            ),
                    decreases 16 - v,
                {
                    let row = Self::walk_nibble(code, n, v);
                    t.states.push(row);
                    v += 1;
                }
                t.depth.push(n);
                t.eos_prefix.push(k == INNER[n as usize] - 1);
                proof {
                    assert forall|c: int, m: int, v: u8|
                        #![trigger transition_at(c, m, v)]
                        is_node(c, m) && (m < n || (m == n && c < end(m) + k + 1)) && v
                            < 16 implies t.states@[16 * state_of(c, m) + v] == transition_at(
                        c,
                        m,
                        v,
                    ) by {
                        lemma_state_range(c, m);
                        if m == n && c == code {
                        } else if m < n {
                            lemma_base_mono(m + 1, n as int);
                            assert(state_of(c, m) < here);
                        } else {
                            assert(state_of(c, m) < here);
                        }
                    }
                    assert forall|c: int, m: int|
                        #![trigger state_of(c, m)]
                        is_node(c, m) && (m < n || (m == n && c < end(m) + k
                            + 1)) implies t.depth@[state_of(c, m)] == m && t.eos_prefix@[state_of(
                        c,
                        m,
                    )] == (c == end(m) + INNER@[m] - 1) by {
                        lemma_state_range(c, m);
                        if m == n && c == code {
                        } else if m < n {
                            lemma_base_mono(m + 1, n as int);
                            assert(state_of(c, m) < here);
                        } else {
                            assert(state_of(c, m) < here);
                        }
                    }
                }
                k += 1;
            }
            n += 1;
        }
        t
    }

    /// Decodes the Huffman-coded octets `src`. Malformed are the EOS symbol
    /// occurring as an actual code, and trailing padding that is longer than
    /// seven bits or not all ones.
    pub fn decode(&self, src: &[u8]) -> (r: Result<Vec<u8>, HpackError>)
        requires
            self.wf(),
        ensures
            match r {
                Ok(out) => decoded_bits(bits_of(src@)) == Ok::<Seq<u8>, Seq<char>>(out@),
                Err(HpackError::Compression(text)) => decoded_bits(bits_of(src@)) == Err::<
                    Seq<u8>,
                    Seq<char>,
                >(text@),
                Err(HpackError::HeaderListTooLarge { .. }) => false,
            },
    {
        let mut out: Vec<u8> = Vec::new();
        let mut state: u16 = ROOT;
        let ghost mut w = at_root(Seq::empty());
        let mut i: usize = 0;
        proof {
            lemma_level_ends();
            assert(bits_of(src@.take(0)) =~= Seq::empty());
        }
        while i < src.len()
            invariant
                self.wf(),
                i <= src@.len(),
                !w.eos,
                on_tree(w),
                w == fed(at_root(Seq::empty()), bits_of(src@.take(i as int))),
                out@ == w.out,
                state == state_of(w.code, w.len),
            decreases src@.len() - i,
        {
            let byte = src[i];
            let ghost w0 = w;
            proof {
                assert(src@.take(i + 1) =~= src@.take(i as int).push(byte));
                lemma_bits_push(src@.take(i as int), byte);
                lemma_fed_concat(
                    at_root(Seq::empty()),
                    bits_of(src@.take(i as int)),
                    nibble_bits(byte / 16) + nibble_bits(byte % 16),
                );
                lemma_fed_concat(w0, nibble_bits(byte / 16), nibble_bits(byte % 16));
            }
            let mut half: u8 = 0;
            while half < 2
                invariant
                    self.wf(),
                    i < src@.len(),
                    byte == src@[i as int],
                    half <= 2,
                    !w.eos,
                    on_tree(w),
                    half == 0 ==> w == w0,
                    half == 1 ==> w == fed(w0, nibble_bits(byte / 16)),
                    half == 2 ==> w == fed(fed(w0, nibble_bits(byte / 16)), nibble_bits(byte % 16)),
                    fed(at_root(Seq::empty()), bits_of(src@.take(i + 1))) == fed(
                        fed(w0, nibble_bits(byte / 16)),
                        nibble_bits(byte % 16),
                    ),
                    out@ == w.out,
                    state == state_of(w.code, w.len),
                decreases 2 - half,
            {
                let nibble: u8 = if half == 0 {
                    byte / 16
                } else {
                    byte % 16
                };
                proof {
                    lemma_state_range(w.code, w.len);
                    lemma_nibble(w.code, w.len, nibble);
                    lemma_fed_prefix(w, nibble_bits(nibble));
                    assert(transition_at(w.code, w.len, nibble) == self.states@[16 * state_of(
                        w.code,
                        w.len,
                    ) + nibble]);
                    let bare = fed(Walk { out: Seq::empty(), ..w }, nibble_bits(nibble));
                    if !bare.eos {
                        lemma_state_range(bare.code, bare.len);
                    }
                }
                let t = self.states[state as usize * 16 + nibble as usize];
                let ghost next = fed(w, nibble_bits(nibble));
                if t.next == INVALID {
                    proof {
                        assert(next.eos);
                        if half == 0 {
                            lemma_eos_sticks(next, nibble_bits(byte % 16));
                        }
                        lemma_eos_total(src@, i + 1);
                    }
                    return Err(
                        HpackError::Compression(
                            String::from_str("huffman string contains the EOS symbol"),
                        ),
                    );
                }
                if let Some(sym) = t.emit {
                    out.push(sym);
                }
                state = t.next;
                proof {
                    w = next;
                    assert(out@ =~= w.out);
                }
                half += 1;
            }
            i += 1;
        }
        assert(src@.take(i as int) =~= src@);
        proof {
            lemma_state_range(w.code, w.len);
        }
        let depth = self.depth[state as usize];
        let eos_prefix = self.eos_prefix[state as usize];
        if depth > 7 {
            let mut text = String::from_str("huffman padding is ");
            push_decimal(&mut text, depth as u64);
            text.append(" bits, more than the 7 allowed");
            return Err(HpackError::Compression(text));
        }
        if !eos_prefix {
            return Err(
                HpackError::Compression(
                    String::from_str("huffman padding is not a prefix of the EOS code"),
                ),
            );
        }
        Ok(out)
    }
}

/// Codes and nodes of a level stay below 2^30.
proof fn lemma_first_bound(n: int)
    requires
        0 <= n <= 30,
    ensures
        end(n) + INNER@[n] <= 0x4000_0000,
        n < 30 ==> 2 * (end(n) + INNER@[n]) <= 0x4000_0000,
    decreases 30 - n,
{
    if n < 30 {
        lemma_level(n + 1);
        lemma_first_bound(n + 1);
    }
}

/// The symbols of a level lie within the list.
proof fn lemma_offset_bound(n: int)
    requires
        0 <= n <= 30,
    ensures
        OFFSET@[n] + COUNT@[n] <= 257,
    decreases 30 - n,
{
    lemma_level_ends();
    if n < 30 {
        lemma_level(n + 1);
        lemma_offset_bound(n + 1);
    }
}

/// Nothing follows an EOS symbol.
proof fn lemma_eos_sticks(w: Walk, bits: Seq<bool>)
    requires
        w.eos,
    ensures
        fed(w, bits) == w,
    decreases bits.len(),
{
    if bits.len() > 0 {
        lemma_eos_sticks(w, bits.drop_last());
    }
}

/// A string with an EOS symbol in a prefix of it is malformed for it.
proof fn lemma_eos_total(src: Seq<u8>, i: int)
    requires
        0 <= i <= src.len(),
        fed(at_root(Seq::empty()), bits_of(src.take(i))).eos,
    ensures
        fed(at_root(Seq::empty()), bits_of(src)).eos,
{
    let a = bits_of(src.take(i));
    let b = bits_of(src).skip(8 * i);
    assert(a + b =~= bits_of(src)) by {
        assert forall|k: int| 0 <= k < 8 * src.len() implies (a + b)[k] == bits_of(src)[k] by {
            if k < 8 * i {
                assert(src.take(i)[k / 8] == src[k / 8]);
            }
        }
    }
    lemma_fed_concat(at_root(Seq::empty()), a, b);
    lemma_eos_sticks(fed(at_root(Seq::empty()), a), b);
}

/// Decodes the Huffman-coded octets `src` with a table derived on the spot.
pub fn decode(src: &[u8]) -> (r: Result<Vec<u8>, HpackError>)
    ensures
        match r {
            Ok(out) => decoded_bits(bits_of(src@)) == Ok::<Seq<u8>, Seq<char>>(out@),
            Err(HpackError::Compression(text)) => decoded_bits(bits_of(src@)) == Err::<
                Seq<u8>,
                Seq<char>,
            >(text@),
            Err(HpackError::HeaderListTooLarge { .. }) => false,
        },
{
    DecodeTable::build().decode(src)
}

// ---------------------------------------------------------------------------
// Laws
// ---------------------------------------------------------------------------

/// One bit more of a number.
proof fn lemma_shift(c: u32, j: u32)
    requires
        j < 31,
    ensures
        c >> j == 2 * (c >> ((j + 1) as u32)) + (if (c >> j) & 1u32 == 1u32 {
            1int
        } else {
            0
        }),
{
    assert(j < 31 ==> c >> j == 2 * (c >> ((j + 1) as u32)) + (if (c >> j) & 1 == 1 {
        1u32
    } else {
        0u32
    })) by (bit_vector);
}

/// The first `k` bits of a code spell a number that is no code, unless they
/// are all of it.
proof fn lemma_code_prefix(s: int, k: int)
    requires
        0 <= s <= 256,
        0 <= k <= CODES@[s].1,
    ensures
        ({
            let (code, len) = CODES@[s];
            let v = (code >> ((len - k) as u32)) as int;
            &&& (k < len ==> end(k) <= v)
            &&& v < end(k) + INNER@[k]
            &&& (k == len ==> v == code)
        }),
    decreases CODES@[s].1 - k,
{
    lemma_symbol(s);
    let (code, len) = CODES@[s];
    if k == len {
        assert(code >> 0u32 == code) by (bit_vector);
    } else {
        lemma_code_prefix(s, k + 1);
        lemma_level(k + 1);
        lemma_shift(code, (len - (k + 1)) as u32);
    }
}

/// Reading the first `k` bits of a code from a code boundary.
proof fn lemma_feed_prefix(out: Seq<u8>, s: int, k: int)
    requires
        0 <= s <= 256,
        0 <= k < CODES@[s].1,
    ensures
        ({
            let (code, len) = CODES@[s];
            let w = fed(at_root(out), code_bits(s).take(k));
            &&& w.out == out
            &&& w.code == code >> ((len - k) as u32)
            &&& w.len == k
            &&& !w.eos
        }),
    decreases k,
{
    lemma_symbol(s);
    let (code, len) = CODES@[s];
    let bits = code_bits(s);
    if k == 0 {
        lemma_code_prefix(s, 0);
        lemma_level_ends();
    } else {
        lemma_feed_prefix(out, s, k - 1);
        lemma_code_prefix(s, k);
        lemma_shift(code, (len - k) as u32);
        assert(bits.take(k).drop_last() =~= bits.take(k - 1));
        assert(bits.take(k).last() == bits[k - 1]);
    }
}

/// Reading a symbol's code from a code boundary completes the symbol.
proof fn lemma_feed_symbol(out: Seq<u8>, s: u8)
    ensures
        fed(at_root(out), code_bits(s as int)) == at_root(out.push(s)),
{
    lemma_symbol(s as int);
    let (code, len) = CODES@[s as int];
    let bits = code_bits(s as int);
    lemma_feed_prefix(out, s as int, len - 1);
    lemma_code_prefix(s as int, len as int);
    lemma_shift(code, 0);
    assert(code >> 0u32 == code) by (bit_vector);
    assert(bits.drop_last() =~= bits.take(len - 1));
    assert(bits.last() == ((code >> 0u32) & 1u32 == 1u32));
}

/// Reading the codes of a string gives the string.
proof fn lemma_feed_string(src: Seq<u8>)
    ensures
        fed(at_root(Seq::empty()), string_bits(src)) == at_root(src),
    decreases src.len(),
{
    if src.len() == 0 {
        assert(src =~= Seq::empty());
    } else {
        let init = src.drop_last();
        lemma_feed_string(init);
        lemma_fed_concat(at_root(Seq::empty()), string_bits(init), code_bits(src.last() as int));
        lemma_feed_symbol(init, src.last());
        assert(init.push(src.last()) =~= src);
    }
}

/// Up to seven ones after a code boundary are padding.
proof fn lemma_feed_padding(out: Seq<u8>, n: nat)
    requires
        n <= 7,
    ensures
        ({
            let w = fed(at_root(out), ones(n));
            w.out == out && w.len == n && w.ones && !w.eos && on_tree(w)
        }),
    decreases n,
{
    lemma_level_ends();
    if n > 0 {
        lemma_feed_padding(out, (n - 1) as nat);
        assert(ones(n).drop_last() =~= ones((n - 1) as nat));
        lemma_level(n as int);
        lemma_step(fed(at_root(out), ones((n - 1) as nat)), true);
    }
}

/// Decoding what was coded gives the string back.
pub proof fn coding_round_trips(src: Seq<u8>)
    ensures
        decoded_bits(bits_of(coded(src))) == Ok::<Seq<u8>, Seq<char>>(src),
        coded(src).len() == coded_len(src),
{
    let bits = string_bits(src);
    let pad = padding(bits.len());
    lemma_bits_of_octets(bits + ones(pad));
    lemma_fed_concat(at_root(Seq::empty()), bits, ones(pad));
    lemma_feed_string(src);
    lemma_feed_padding(src, pad);
}

/// No code is a prefix of another: read to its length, the longer code is not
/// the shorter one.
pub proof fn no_code_is_a_prefix_of_another(a: int, b: int)
    requires
        0 <= a <= 256,
        0 <= b <= 256,
        a != b,
        CODES@[a].1 <= CODES@[b].1,
    ensures
        CODES@[b].0 >> ((CODES@[b].1 - CODES@[a].1) as u32) != CODES@[a].0,
{
    lemma_symbol(a);
    lemma_symbol(b);
    lemma_code_prefix(b, CODES@[a].1 as int);
}

/// A place in the list of symbols is the one its symbol's code points to.
spec fn place_ok(i: int) -> bool {
    let s = SYMBOLS@[i];
    &&& s <= 256
    &&& OFFSET@[CODES@[s as int].1 as int] + CODES@[s as int].0 - first(CODES@[s as int].1 as int)
        == i
}

spec fn places_ok(from: nat, to: nat) -> bool
    decreases to,
{
    to <= from || (place_ok(to - 1) && places_ok(from, (to - 1) as nat))
}

proof fn lemma_places_upto(from: nat, to: nat, i: nat)
    requires
        places_ok(from, to),
        from <= i < to,
    ensures
        place_ok(i as int),
    decreases to,
{
    if i + 1 < to {
        lemma_places_upto(from, (to - 1) as nat, i);
    }
}

proof fn lemma_place(i: int)
    requires
        0 <= i <= 256,
    ensures
        place_ok(i),
{
    if i < 64 {
        assert(places_ok(0, 64)) by {
            reveal_with_fuel(places_ok, 66);
        }
        lemma_places_upto(0, 64, i as nat);
    } else if i < 128 {
        assert(places_ok(64, 128)) by {
            reveal_with_fuel(places_ok, 66);
        }
        lemma_places_upto(64, 128, i as nat);
    } else if i < 192 {
        assert(places_ok(128, 192)) by {
            reveal_with_fuel(places_ok, 66);
        }
        lemma_places_upto(128, 192, i as nat);
    } else {
        assert(places_ok(192, 257)) by {
            reveal_with_fuel(places_ok, 67);
        }
        lemma_places_upto(192, 257, i as nat);
    }
}

proof fn lemma_offset_mono(a: int, b: int)
    requires
        0 <= a < b <= 30,
    ensures
        OFFSET@[a] + COUNT@[a] <= OFFSET@[b],
    decreases b - a,
{
    lemma_level(b);
    if a + 1 < b {
        lemma_offset_mono(a, b - 1);
    }
}

/// A complete code is the listed code of its symbol.
proof fn lemma_code_of_symbol(c: int, n: int)
    requires
        is_code(c, n),
    ensures
        symbol(c, n) <= 256,
        CODES@[symbol(c, n) as int].0 == c,
        CODES@[symbol(c, n) as int].1 == n,
{
    let i = OFFSET@[n] + c - first(n);
    lemma_offset_bound(n);
    lemma_place(i);
    let s = SYMBOLS@[i] as int;
    lemma_symbol(s);
    let m = CODES@[s].1 as int;
    if m < n {
        lemma_offset_mono(m, n);
    } else if n < m {
        lemma_offset_mono(n, m);
    }
}

/// Bit strings of one length that spell the same number are the same.
proof fn lemma_number_injective(a: Seq<bool>, b: Seq<bool>)
    requires
        a.len() == b.len(),
        number(a) == number(b),
    ensures
        a == b,
    decreases a.len(),
{
    if a.len() > 0 {
        assert(a.last() == b.last());
        lemma_number_injective(a.drop_last(), b.drop_last());
        assert(a =~= a.drop_last().push(a.last()));
        assert(b =~= b.drop_last().push(b.last()));
    } else {
        assert(a =~= b);
    }
}

/// The bits of a code spell it.
proof fn lemma_number_code(s: int, k: int)
    requires
        0 <= s <= 256,
        0 <= k <= CODES@[s].1,
    ensures
        number(code_bits(s).take(k)) == CODES@[s].0 >> ((CODES@[s].1 - k) as u32),
    decreases k,
{
    lemma_symbol(s);
    let (code, len) = CODES@[s];
    lemma_code_prefix(s, k);
    lemma_level_ends();
    if k > 0 {
        lemma_number_code(s, k - 1);
        lemma_shift(code, (len - k) as u32);
        assert(code_bits(s).take(k).drop_last() =~= code_bits(s).take(k - 1));
    }
}

/// What a walk has read is the codes of its symbols and the bits since.
proof fn lemma_walk_reads(bits: Seq<bool>)
    ensures
        ({
            let w = fed(at_root(Seq::empty()), bits);
            !w.eos ==> {
                &&& 0 <= w.len <= bits.len()
                &&& bits == string_bits(w.out) + bits.skip(bits.len() - w.len)
                &&& number(bits.skip(bits.len() - w.len)) == w.code
                &&& w.ones ==> bits.skip(bits.len() - w.len) == ones(w.len as nat)
            }
        }),
    decreases bits.len(),
{
    if bits.len() == 0 {
        assert(bits =~= string_bits(Seq::empty()) + bits.skip(0));
        assert(bits.skip(0) =~= ones(0));
    } else {
        let init = bits.drop_last();
        let b = bits.last();
        lemma_walk_reads(init);
        let v = fed(at_root(Seq::empty()), init);
        let w = step(v, b);
        if !w.eos {
            let tail = init.skip(init.len() - v.len);
            let grown = tail.push(b);
            assert(grown.drop_last() =~= tail);
            assert(!v.eos);
            assert(bits =~= init.push(b));
            assert(init.push(b) =~= string_bits(v.out) + grown);
            let c = 2 * v.code + as_bit(b);
            let n = v.len + 1;
            if is_code(c, n) {
                let s = symbol(c, n) as u8;
                lemma_code_of_symbol(c, n);
                lemma_number_code(s as int, n);
                assert(code_bits(s as int).take(n) =~= code_bits(s as int));
                assert(CODES@[s as int].0 >> 0u32 == CODES@[s as int].0) by {
                    let x = CODES@[s as int].0;
                    assert(x >> 0u32 == x) by (bit_vector);
                }
                lemma_number_injective(grown, code_bits(s as int));
                assert(v.out.push(s).drop_last() =~= v.out);
                assert(bits.skip(bits.len() as int) =~= Seq::empty());
                assert(bits =~= string_bits(w.out) + bits.skip(bits.len() as int));
                assert(ones(0) =~= Seq::empty());
            } else {
                assert(bits.skip(bits.len() - n) =~= grown);
                if w.ones {
                    assert(grown =~= ones(n as nat));
                }
            }
        }
    }
}

/// A string is accepted only where it is the codes of what it decodes to,
/// followed by at most seven ones.
pub proof fn only_codings_are_accepted(bits: Seq<bool>)
    requires
        decoded_bits(bits) is Ok,
    ensures
        ({
            let out = decoded_bits(bits)->Ok_0;
            let pad = (bits.len() - string_bits(out).len()) as nat;
            pad <= 7 && bits == string_bits(out) + ones(pad)
        }),
{
    lemma_walk_reads(bits);
    lemma_fed_on_tree(at_root(Seq::empty()), bits);
    lemma_level_ends();
}

} // verus!
