//! HPACK header compression (RFC 7541): encoder, decoder and their tables.
//!
//! Encoder and decoder each hold dynamic-table state that must stay in step
//! with the peer's: a single divergence corrupts every later header block, so a
//! compression fault is a connection error.

pub mod huffman;
pub mod static_table;

use crate::conn::{fault, ConnectionError, ErrorCode, Fault};
use crate::octets::{
    as_slice, buffered, from_vec, octets, put_slice, put_u8, same_octets, slice_of,
};
use crate::text::{decimal, push_decimal};
use bytes::{Bytes, BytesMut};
use huffman::{bits_of, coded, coded_len, decoded_bits, DecodeTable};
use static_table::{static_entries, ENTRIES};
use std::collections::VecDeque;
use vstd::prelude::*;
use vstd::string::StringExecFns;

verus! {

/// Per-entry overhead in the table's size accounting (RFC 7541 §4.1).
pub const ENTRY_OVERHEAD: usize = 32;

/// A header field. `sensitive` marks a field that must be sent with the
/// never-indexed representation so it is never placed in a dynamic table
/// (§7.1.3).
#[derive(PartialEq, Eq, Debug)]
pub struct Header {
    pub name: Bytes,
    pub value: Bytes,
    pub sensitive: bool,
}

/// What a header field says.
#[verifier::ext_equal]
pub struct HeaderModel {
    pub name: Seq<u8>,
    pub value: Seq<u8>,
    pub sensitive: bool,
}

impl View for Header {
    type V = HeaderModel;

    open spec fn view(&self) -> HeaderModel {
        HeaderModel {
            name: octets(self.name),
            value: octets(self.value),
            sensitive: self.sensitive,
        }
    }
}

/// The fields of a header list.
pub open spec fn headers_view(headers: Seq<Header>) -> Seq<HeaderModel> {
    Seq::new(headers.len(), |i: int| headers[i]@)
}

impl Clone for Header {
    fn clone(&self) -> (h: Self)
        ensures
            h@ == self@,
    {
        Header {
            name: self.name.clone(),
            value: self.value.clone(),
            sensitive: self.sensitive,
        }
    }
}

/// What a field costs against a table or list budget (§4.1).
pub open spec fn cost(name: Seq<u8>, value: Seq<u8>) -> nat {
    name.len() + value.len() + ENTRY_OVERHEAD as nat
}

impl Header {
    pub fn new(name: Bytes, value: Bytes) -> (h: Self)
        ensures
            h@ == (HeaderModel {
                name: octets(name),
                value: octets(value),
                sensitive: false,
            }),
    {
        Header { name, value, sensitive: false }
    }

    /// The same field, marked never-indexed (§7.1.3).
    pub fn sensitive(name: Bytes, value: Bytes) -> (h: Self)
        ensures
            h@ == (HeaderModel { name: octets(name), value: octets(value), sensitive: true }),
    {
        Header { name, value, sensitive: true }
    }

    /// This field's cost against `SETTINGS_MAX_HEADER_LIST_SIZE`.
    fn list_size(&self) -> (n: u128)
        ensures
            n == cost(self@.name, self@.value),
    {
        self.name.len() as u128 + self.value.len() as u128 + ENTRY_OVERHEAD as u128
    }
}

/// A copy of a header list.
pub fn clone_headers(headers: &[Header]) -> (r: Vec<Header>)
    ensures
        headers_view(r@) == headers_view(headers@),
{
    let mut r: Vec<Header> = Vec::new();
    let mut i: usize = 0;
    while i < headers.len()
        invariant
            i <= headers@.len(),
            r@.len() == i,
            forall|k: int| 0 <= k < i ==> (#[trigger] r@[k])@ == headers@[k]@,
        decreases headers@.len() - i,
    {
        r.push(headers[i].clone());
        i += 1;
    }
    assert(headers_view(r@) =~= headers_view(headers@));
    r
}

/// What can go wrong decoding a header block. A compression fault means the
/// shared table state is unknowable and the connection cannot continue; an
/// oversized list is a property of one message that the connection survives.
#[derive(Clone, Debug)]
pub enum HpackError {
    /// The block is malformed, or references a table entry that does not exist.
    Compression(String),
    /// The decoded list exceeded the limit. The block was still decoded to the
    /// end, so table state is intact.
    HeaderListTooLarge { size: usize, limit: usize },
}

/// What a decoding failure says.
#[verifier::ext_equal]
pub enum HpackFault {
    Compression(Seq<char>),
    HeaderListTooLarge { size: usize, limit: usize },
}

impl View for HpackError {
    type V = HpackFault;

    open spec fn view(&self) -> HpackFault {
        match self {
            HpackError::Compression(text) => HpackFault::Compression(text@),
            HpackError::HeaderListTooLarge { size, limit } => HpackFault::HeaderListTooLarge {
                size: *size,
                limit: *limit,
            },
        }
    }
}

impl HpackFault {
    /// The message this failure reads as.
    pub open spec fn text(self) -> Seq<char> {
        match self {
            HpackFault::Compression(why) => "HPACK compression error: "@ + why,
            HpackFault::HeaderListTooLarge { size, limit } => "header list of "@ + decimal(
                size as nat,
            ) + " octets exceeds the "@ + decimal(limit as nat) + "-octet limit"@,
        }
    }

    /// The connection fault this failure amounts to.
    pub open spec fn as_fault(self) -> Fault {
        fault(
            if self is Compression {
                ErrorCode::CompressionError
            } else {
                ErrorCode::EnhanceYourCalm
            },
            self.text(),
        )
    }
}

impl HpackError {
    /// The error as a message.
    pub fn message(&self) -> (s: String)
        ensures
            s@ == self@.text(),
    {
        let mut s = String::new();
        match self {
            HpackError::Compression(why) => {
                s.append("HPACK compression error: ");
                s.append(why.as_str());
            },
            HpackError::HeaderListTooLarge { size, limit } => {
                s.append("header list of ");
                push_decimal(&mut s, *size as u64);
                s.append(" octets exceeds the ");
                push_decimal(&mut s, *limit as u64);
                s.append("-octet limit");
            },
        }
        assert(s@ =~= self@.text());
        s
    }

    /// The connection error this failure is reported as.
    pub fn into_connection_error(self) -> (e: ConnectionError)
        ensures
            e@ == self@.as_fault(),
    {
        let code = match &self {
            HpackError::Compression(_) => ErrorCode::CompressionError,
            HpackError::HeaderListTooLarge { .. } => ErrorCode::EnhanceYourCalm,
        };
        ConnectionError::new(code, self.message())
    }
}

fn compression(msg: &str) -> (e: HpackError)
    ensures
        e@ == HpackFault::Compression(msg@),
{
    HpackError::Compression(String::from_str(msg))
}

// ---------------------------------------------------------------------------
// Integers (§5.1)
// ---------------------------------------------------------------------------

/// The largest number a prefix of this many bits can hold.
pub open spec fn mask(prefix_bits: int) -> nat {
    if prefix_bits == 4 {
        15
    } else if prefix_bits == 5 {
        31
    } else if prefix_bits == 6 {
        63
    } else {
        127
    }
}

/// The number the low bits of an octet hold.
pub open spec fn low_bits(first: u8, prefix_bits: int) -> nat {
    if prefix_bits == 4 {
        first as nat % 16
    } else if prefix_bits == 5 {
        first as nat % 32
    } else if prefix_bits == 6 {
        first as nat % 64
    } else {
        first as nat % 128
    }
}

/// What the `i`th continuation octet counts.
pub open spec fn weight(i: int) -> nat {
    if i == 0 {
        1
    } else if i == 1 {
        128
    } else if i == 2 {
        16_384
    } else if i == 3 {
        2_097_152
    } else {
        268_435_456
    }
}

/// The continuation octets of an integer, from the `i`th on: the value with
/// them added, and what follows. At most five are read.
pub open spec fn continued(value: nat, i: int, s: Seq<u8>) -> Result<(nat, Seq<u8>), Seq<char>>
    decreases 5 - i,
{
    if i < 0 || i > 4 {
        Err("integer continuation is too long"@)
    } else if s.len() == 0 {
        Err("block ended mid-representation"@)
    } else {
        let next = value + (s[0] as nat % 128) * weight(i);
        if next > u32::MAX {
            Err("integer overflows 32 bits"@)
        } else if s[0] < 128 {
            Ok((next, s.drop_first()))
        } else {
            continued(next, i + 1, s.drop_first())
        }
    }
}

/// The integer whose prefix is the low bits of `first`, and what follows it.
pub open spec fn int_of(first: u8, prefix_bits: int, s: Seq<u8>) -> Result<
    (nat, Seq<u8>),
    Seq<char>,
> {
    let low = low_bits(first, prefix_bits);
    if low < mask(prefix_bits) {
        Ok((low, s))
    } else {
        continued(low, 0, s)
    }
}

/// The continuation octets of an integer: seven bits each, low ones first, the
/// top bit set on all but the last.
pub open spec fn varint(n: nat) -> Seq<u8>
    decreases n,
{
    if n < 128 {
        seq![n as u8]
    } else {
        seq![(n % 128 + 128) as u8] + varint(n / 128)
    }
}

/// An integer's octets, with `high` in the bits of the first one that the
/// prefix leaves free.
pub open spec fn int_octets(value: nat, prefix_bits: int, high: u8) -> Seq<u8> {
    if value < mask(prefix_bits) {
        seq![(high + value) as u8]
    } else {
        seq![(high + mask(prefix_bits)) as u8] + varint((value - mask(prefix_bits)) as nat)
    }
}

/// Where reading a header block has got to.
pub struct Cursor<'a> {
    pub buf: &'a Bytes,
    pub pos: usize,
}

impl<'a> Cursor<'a> {
    /// The octets not read yet.
    pub open spec fn rest(self) -> Seq<u8> {
        octets(*self.buf).skip(self.pos as int)
    }

    /// The place lies within the block.
    pub open spec fn wf(self) -> bool {
        self.pos <= octets(*self.buf).len()
    }

    /// The start of a block.
    pub fn new(buf: &'a Bytes) -> (c: Self)
        ensures
            c.wf(),
            c.buf == buf,
            c.rest() == octets(*buf),
    {
        assert(octets(*buf).skip(0) =~= octets(*buf));
        Cursor { buf, pos: 0 }
    }

    /// Whether the whole block has been read.
    pub fn is_empty(&self) -> (b: bool)
        requires
            self.wf(),
        ensures
            b == (self.rest().len() == 0),
    {
        self.pos >= self.buf.len()
    }

    /// Reads one octet.
    pub fn next_byte(&mut self) -> (r: Result<u8, HpackError>)
        requires
            old(self).wf(),
        ensures
            final(self).wf(),
            final(self).buf == old(self).buf,
            match r {
                Ok(b) => old(self).rest().len() > 0 && b == old(self).rest()[0]
                    && final(self).rest() == old(self).rest().drop_first(),
                Err(e) => old(self).rest().len() == 0 && e@ == HpackFault::Compression(
                    "block ended mid-representation"@,
                ),
            },
    {
        if self.pos >= self.buf.len() {
            return Err(compression("block ended mid-representation"));
        }
        let b = as_slice(self.buf)[self.pos];
        self.pos = self.pos + 1;
        assert(self.rest() =~= old(self).rest().drop_first());
        Ok(b)
    }

    /// Reads `len` octets, without copying them.
    pub fn take(&mut self, len: usize) -> (r: Result<Bytes, HpackError>)
        requires
            old(self).wf(),
        ensures
            final(self).wf(),
            final(self).buf == old(self).buf,
            match r {
                Ok(b) => len <= old(self).rest().len() && octets(b) == old(self).rest().take(
                    len as int,
                ) && final(self).rest() == old(self).rest().skip(len as int),
                Err(e) => len > old(self).rest().len() && e@ == HpackFault::Compression(
                    "string of "@ + decimal(len as nat)
                        + " octets runs past the end of the block"@,
                ),
            },
    {
        if len > self.buf.len() - self.pos {
            let mut text = String::from_str("string of ");
            push_decimal(&mut text, len as u64);
            text.append(" octets runs past the end of the block");
            return Err(HpackError::Compression(text));
        }
        let end: usize = self.pos + len;
        let slice = slice_of(self.buf, self.pos, end);
        self.pos = end;
        assert(octets(slice) =~= old(self).rest().take(len as int));
        assert(self.rest() =~= old(self).rest().skip(len as int));
        Ok(slice)
    }
}

/// Decodes an integer whose `prefix_bits` low bits are already in `first`.
/// Bounded twice over: a continuation run that never terminates, and one that
/// terminates on a value of more than 32 bits.
pub fn decode_int(first: u8, prefix_bits: u32, cur: &mut Cursor) -> (r: Result<usize, HpackError>)
    requires
        4 <= prefix_bits <= 7,
        old(cur).wf(),
    ensures
        final(cur).wf(),
        final(cur).buf == old(cur).buf,
        match r {
            Ok(v) => v <= u32::MAX && int_of(first, prefix_bits as int, old(cur).rest()) == Ok::<
                (nat, Seq<u8>),
                Seq<char>,
            >((v as nat, final(cur).rest())),
            Err(e) => e@ is Compression && int_of(first, prefix_bits as int, old(cur).rest())
                == Err::<(nat, Seq<u8>), Seq<char>>(e@->Compression_0),
        },
{
    let mask: u64 = if prefix_bits == 4 {
        15
    } else if prefix_bits == 5 {
        31
    } else if prefix_bits == 6 {
        63
    } else {
        127
    };
    let mut value: u64 = if prefix_bits == 4 {
        first % 16
    } else if prefix_bits == 5 {
        first % 32
    } else if prefix_bits == 6 {
        first % 64
    } else {
        first % 128
    } as u64;
    if value < mask {
        return Ok(value as usize);
    }
    let mut i: u32 = 0;
    let mut weight: u64 = 1;
    while i < 5
        invariant
            i <= 5,
            cur.wf(),
            cur.buf == old(cur).buf,
            value <= u32::MAX,
            i < 5 ==> weight == self::weight(i as int),
            int_of(first, prefix_bits as int, old(cur).rest()) == continued(
                value as nat,
                i as int,
                cur.rest(),
            ),
        decreases 5 - i,
    {
        let byte = match cur.next_byte() {
            Ok(byte) => byte,
            Err(e) => return Err(e),
        };
        assert(weight <= 268_435_456);
        assert((byte % 128) as u64 * weight <= 127 * 268_435_456) by (nonlinear_arith)
            requires
                weight <= 268_435_456,
        ;
        assert((byte % 128) as u64 * weight >= 0) by (nonlinear_arith);
        value = value + (byte % 128) as u64 * weight;
        if value > u32::MAX as u64 {
            return Err(compression("integer overflows 32 bits"));
        }
        if byte < 128 {
            return Ok(value as usize);
        }
        i += 1;
        if i < 5 {
            weight = weight * 128;
        }
    }
    Err(compression("integer continuation is too long"))
}

/// None of these bits lie within the prefix.
pub open spec fn leaves_prefix_free(high: u8, prefix_bits: int) -> bool {
    if prefix_bits == 4 {
        high % 16 == 0
    } else if prefix_bits == 5 {
        high % 32 == 0
    } else if prefix_bits == 6 {
        high % 64 == 0
    } else {
        high % 128 == 0
    }
}

/// A prefix and the representation's bits do not overlap, so setting both is
/// adding them.
proof fn lemma_high_bits(high: u8, v: u8)
    ensures
        high % 16 == 0 && v <= 15 ==> high | v == high + v,
        high % 32 == 0 && v <= 31 ==> high | v == high + v,
        high % 64 == 0 && v <= 63 ==> high | v == high + v,
        high % 128 == 0 && v <= 127 ==> high | v == high + v,
{
    assert(high % 16 == 0 && v <= 15 ==> high | v == high + v) by (bit_vector);
    assert(high % 32 == 0 && v <= 31 ==> high | v == high + v) by (bit_vector);
    assert(high % 64 == 0 && v <= 63 ==> high | v == high + v) by (bit_vector);
    assert(high % 128 == 0 && v <= 127 ==> high | v == high + v) by (bit_vector);
}

/// Encodes `value` into `prefix_bits` low bits, with `high_bits` set in the
/// leading octet to select the representation.
pub fn encode_int(value: usize, prefix_bits: u32, high_bits: u8, out: &mut BytesMut)
    requires
        4 <= prefix_bits <= 7,
        leaves_prefix_free(high_bits, prefix_bits as int),
    ensures
        buffered(*final(out)) == buffered(*old(out)) + int_octets(
            value as nat,
            prefix_bits as int,
            high_bits,
        ),
{
    let mask: usize = if prefix_bits == 4 {
        15
    } else if prefix_bits == 5 {
        31
    } else if prefix_bits == 6 {
        63
    } else {
        127
    };
    if value < mask {
        proof {
            lemma_high_bits(high_bits, value as u8);
        }
        put_u8(out, high_bits | value as u8);
        assert(buffered(*out) =~= buffered(*old(out)) + int_octets(
            value as nat,
            prefix_bits as int,
            high_bits,
        ));
        return;
    }
    proof {
        lemma_high_bits(high_bits, mask as u8);
    }
    put_u8(out, high_bits | mask as u8);
    let mut rest: usize = value - mask;
    let ghost head = buffered(*out);
    assert(head + varint(rest as nat) =~= buffered(*old(out)) + int_octets(
        value as nat,
        prefix_bits as int,
        high_bits,
    ));
    while rest >= 0x80
        invariant
            buffered(*out) + varint(rest as nat) == buffered(*old(out)) + int_octets(
                value as nat,
                prefix_bits as int,
                high_bits,
            ),
        decreases rest,
    {
        let ghost before = buffered(*out);
        let ghost n = rest as nat;
        put_u8(out, (rest % 128 + 128) as u8);
        rest = rest / 128;
        assert(buffered(*out) + varint(rest as nat) =~= before + varint(n));
    }
    put_u8(out, rest as u8);
    assert(buffered(*out) =~= buffered(*old(out)) + int_octets(
        value as nat,
        prefix_bits as int,
        high_bits,
    ));
}

// ---------------------------------------------------------------------------
// String literals (§5.2)
// ---------------------------------------------------------------------------

/// The string literal at the front of `s`, and what follows it: an H bit, a
/// length with a 7-bit prefix, then the octets, Huffman-coded if the H bit says
/// so. A literal whose end cannot be found is an error; one that ends where it
/// says but does not decode is a string that cannot be known, and the octets
/// after it can still be read.
#[verifier::opaque]
pub open spec fn string_of(s: Seq<u8>) -> Result<
    (Result<Seq<u8>, Seq<char>>, Seq<u8>),
    Seq<char>,
> {
    if s.len() == 0 {
        Err("block ended mid-representation"@)
    } else {
        match int_of(s[0], 7, s.drop_first()) {
            Err(why) => Err(why),
            Ok((len, rest)) => if len > rest.len() {
                Err("string of "@ + decimal(len) + " octets runs past the end of the block"@)
            } else {
                let raw = rest.take(len as int);
                let text = if s[0] >= 128 {
                    decoded_bits(bits_of(raw))
                } else {
                    Ok(raw)
                };
                Ok((text, rest.skip(len as int)))
            },
        }
    }
}

/// A string's literal: Huffman-coded where that is allowed and no longer than
/// the string itself.
#[verifier::opaque]
pub open spec fn string_octets(text: Seq<u8>, huffman: bool) -> Seq<u8> {
    if huffman && coded_len(text) <= text.len() {
        int_octets(coded_len(text), 7, 0x80) + coded(text)
    } else {
        int_octets(text.len(), 7, 0x00) + text
    }
}

/// The length that a string's literal announces: that of its Huffman code where
/// it is coded.
pub open spec fn written_len(text: Seq<u8>, huffman: bool) -> nat {
    if huffman && coded_len(text) <= text.len() {
        coded_len(text)
    } else {
        text.len()
    }
}

/// Decodes a string literal. A plain string is sliced out of the block without
/// copying. The outer error is a literal that cannot be read to its end; the
/// inner one leaves the cursor behind a literal that does not decode.
fn decode_string(codes: &DecodeTable, cur: &mut Cursor) -> (r: Result<
    Result<Bytes, HpackError>,
    HpackError,
>)
    requires
        codes.wf(),
        old(cur).wf(),
    ensures
        final(cur).wf(),
        final(cur).buf == old(cur).buf,
        match r {
            Ok(Ok(b)) => string_of(old(cur).rest()) == Ok::<
                (Result<Seq<u8>, Seq<char>>, Seq<u8>),
                Seq<char>,
            >((Ok(octets(b)), final(cur).rest())),
            Ok(Err(e)) => e@ is Compression && string_of(old(cur).rest()) == Ok::<
                (Result<Seq<u8>, Seq<char>>, Seq<u8>),
                Seq<char>,
            >((Err(e@->Compression_0), final(cur).rest())),
            Err(e) => e@ is Compression && string_of(old(cur).rest()) == Err::<
                (Result<Seq<u8>, Seq<char>>, Seq<u8>),
                Seq<char>,
            >(e@->Compression_0),
        },
{
    reveal(string_of);
    let first = match cur.next_byte() {
        Ok(first) => first,
        Err(e) => return Err(e),
    };
    let len = match decode_int(first, 7, cur) {
        Ok(len) => len,
        Err(e) => return Err(e),
    };
    let raw = match cur.take(len) {
        Ok(raw) => raw,
        Err(e) => return Err(e),
    };
    if first >= 128 {
        match codes.decode(as_slice(&raw)) {
            Ok(text) => Ok(Ok(from_vec(text))),
            Err(e) => Ok(Err(e)),
        }
    } else {
        Ok(Ok(raw))
    }
}

/// Encodes a string literal, Huffman-coding it whenever that is allowed and
/// does not make it longer. Ties go to Huffman.
fn encode_string(s: &[u8], huffman_allowed: bool, out: &mut BytesMut)
    ensures
        buffered(*final(out)) == buffered(*old(out)) + string_octets(s@, huffman_allowed),
{
    let n = huffman::exact_len(s);
    if huffman_allowed && n <= s.len() as u128 {
        encode_int(n as usize, 7, 0x80, out);
        huffman::encode(s, out);
    } else {
        encode_int(s.len(), 7, 0x00, out);
        put_slice(out, s);
    }
    reveal(string_octets);
    assert(buffered(*out) =~= buffered(*old(out)) + string_octets(s@, huffman_allowed));
}

// ---------------------------------------------------------------------------
// The dynamic table (§2.3.2) and the shared index space (§2.3.3)
// ---------------------------------------------------------------------------

/// A table entry as octet strings.
pub type Entry = (Seq<u8>, Seq<u8>);

/// What a dynamic table holds: its entries, newest first, and its budget.
#[verifier::ext_equal]
pub struct DynModel {
    pub entries: Seq<Entry>,
    pub max_size: nat,
}

/// What a list of entries costs (§4.1).
pub open spec fn total_cost(entries: Seq<Entry>) -> nat
    decreases entries.len(),
{
    if entries.len() == 0 {
        0
    } else {
        total_cost(entries.drop_last()) + cost(entries.last().0, entries.last().1)
    }
}

/// The entries left after dropping oldest ones until they cost at most
/// `target`.
pub open spec fn evicted(entries: Seq<Entry>, target: nat) -> Seq<Entry>
    decreases entries.len(),
{
    if entries.len() == 0 || total_cost(entries) <= target {
        entries
    } else {
        evicted(entries.drop_last(), target)
    }
}

impl DynModel {
    /// The table keeps within its budget.
    pub open spec fn wf(self) -> bool {
        total_cost(self.entries) <= self.max_size
    }

    /// The table after a field is added: the oldest entries leave until it fits
    /// (§4.4). A field larger than the whole table empties it and is not
    /// stored.
    pub open spec fn inserted(self, name: Seq<u8>, value: Seq<u8>) -> DynModel {
        let c = cost(name, value);
        if c > self.max_size {
            DynModel { entries: evicted(self.entries, 0), ..self }
        } else {
            DynModel {
                entries: seq![(name, value)] + evicted(
                    self.entries,
                    (self.max_size - c) as nat,
                ),
                ..self
            }
        }
    }

    /// The table after a size update (§6.3).
    pub open spec fn resized(self, max_size: nat) -> DynModel {
        DynModel { entries: evicted(self.entries, max_size), max_size }
    }

    /// Every entry a wire index can name, index 1 first.
    pub open spec fn indexed(self) -> Seq<Entry> {
        static_entries() + self.entries
    }

    /// The entry with a wire index (§2.3.3).
    pub open spec fn entry(self, index: nat) -> Result<Entry, Seq<char>> {
        if index == 0 {
            Err("index 0 is not a valid table entry"@)
        } else if index <= self.indexed().len() {
            Ok(self.indexed()[index - 1])
        } else {
            Err(
                "index "@ + decimal(index) + " is past the end of the dynamic table ("@ + decimal(
                    self.entries.len(),
                ) + " entries)"@,
            )
        }
    }
}

/// The dynamic table: a queue of recently sent fields, bounded by an octet
/// budget rather than an entry count.
#[derive(Debug)]
pub struct DynamicTable {
    /// Newest first, which is also the order the wire indexes them in.
    pub entries: VecDeque<(Bytes, Bytes)>,
    /// What the entries cost together.
    pub size: usize,
    /// What they may cost together.
    pub max_size: usize,
}

/// The entries of a table as octet strings.
pub open spec fn entries_view(entries: Seq<(Bytes, Bytes)>) -> Seq<Entry> {
    Seq::new(entries.len(), |i: int| (octets(entries[i].0), octets(entries[i].1)))
}

proof fn lemma_total_cost_push_front(e: Entry, entries: Seq<Entry>)
    ensures
        total_cost(seq![e] + entries) == cost(e.0, e.1) + total_cost(entries),
    decreases entries.len(),
{
    let all = seq![e] + entries;
    if entries.len() == 0 {
        assert(all.drop_last() =~= Seq::empty());
        assert(total_cost(all.drop_last()) == 0);
        assert(all.last() == e);
    } else {
        assert(all.drop_last() =~= seq![e] + entries.drop_last());
        assert(all.last() == entries.last());
        lemma_total_cost_push_front(e, entries.drop_last());
    }
}

proof fn lemma_evicted(entries: Seq<Entry>, target: nat)
    ensures
        total_cost(evicted(entries, target)) <= target,
        evicted(entries, target).len() <= entries.len(),
        evicted(entries, target) == entries.take(evicted(entries, target).len() as int),
    decreases entries.len(),
{
    if entries.len() > 0 && total_cost(entries) > target {
        lemma_evicted(entries.drop_last(), target);
        let kept = evicted(entries, target);
        assert(entries.drop_last().take(kept.len() as int) =~= entries.take(kept.len() as int));
    } else {
        assert(entries.take(entries.len() as int) =~= entries);
    }
}

impl DynamicTable {
    /// What the table holds.
    pub open spec fn model(self) -> DynModel {
        DynModel { entries: entries_view(self.entries@), max_size: self.max_size as nat }
    }

    /// The size is kept in step with the entries.
    pub open spec fn wf(self) -> bool {
        self.size == total_cost(self.model().entries)
    }

    /// An empty table.
    pub fn new(max_size: usize) -> (t: Self)
        ensures
            t.wf(),
            t.model() == (DynModel { entries: Seq::empty(), max_size: max_size as nat }),
    {
        let t = DynamicTable { entries: VecDeque::new(), size: 0, max_size };
        assert(t.model().entries =~= Seq::empty());
        t
    }

    /// How many entries the table holds.
    pub fn len(&self) -> (n: usize)
        ensures
            n == self.model().entries.len(),
    {
        self.entries.len()
    }

    /// The entry at a place, the newest at 0.
    pub fn get(&self, i: usize) -> (r: Option<&(Bytes, Bytes)>)
        ensures
            match r {
                Some(e) => i < self.model().entries.len() && self.model().entries[i as int] == (
                    octets(e.0),
                    octets(e.1),
                ),
                None => i >= self.model().entries.len(),
            },
    {
        if i < self.entries.len() {
            Some(&self.entries[i])
        } else {
            None
        }
    }

    /// Adds a field, evicting the oldest entries until it fits (§4.4).
    pub fn insert(&mut self, name: Bytes, value: Bytes)
        requires
            old(self).wf(),
        ensures
            final(self).wf(),
            final(self).model() == old(self).model().inserted(octets(name), octets(value)),
    {
        let cost: u128 = name.len() as u128 + value.len() as u128 + ENTRY_OVERHEAD as u128;
        if cost > self.max_size as u128 {
            self.evict_to(0);
            return;
        }
        let cost: usize = cost as usize;
        self.evict_to(self.max_size - cost);
        let ghost e = (octets(name), octets(value));
        let ghost kept = self.model().entries;
        proof {
            lemma_evicted(old(self).model().entries, (old(self).max_size - cost) as nat);
            lemma_total_cost_push_front(e, kept);
        }
        self.entries.push_front((name, value));
        self.size = self.size + cost;
        assert(self.model().entries =~= seq![e] + kept);
    }

    /// Applies a dynamic table size update (§6.3).
    pub fn set_max_size(&mut self, max_size: usize)
        requires
            old(self).wf(),
        ensures
            final(self).wf(),
            final(self).model() == old(self).model().resized(max_size as nat),
    {
        self.max_size = max_size;
        self.evict_to(max_size);
    }

    fn evict_to(&mut self, target: usize)
        requires
            old(self).wf(),
        ensures
            final(self).wf(),
            final(self).max_size == old(self).max_size,
            final(self).model().entries == evicted(old(self).model().entries, target as nat),
    {
        while self.size > target
            invariant
                self.wf(),
                self.max_size == old(self).max_size,
                evicted(self.model().entries, target as nat) == evicted(
                    old(self).model().entries,
                    target as nat,
                ),
            decreases self.entries@.len(),
        {
            let ghost before = self.model().entries;
            match self.entries.pop_back() {
                Some((name, value)) => {
                    assert(self.model().entries =~= before.drop_last());
                    assert(before.last() == (octets(name), octets(value)));
                    self.size = self.size - (name.len() + value.len() + ENTRY_OVERHEAD);
                },
                None => {
                    assert(false);
                },
            }
        }
    }
}

/// Resolves a wire index across the static and dynamic tables (§2.3.3).
pub fn lookup(table: &DynamicTable, index: usize) -> (r: Result<(Bytes, Bytes), HpackError>)
    ensures
        match r {
            Ok(e) => table.model().entry(index as nat) == Ok::<Entry, Seq<char>>(
                (octets(e.0), octets(e.1)),
            ),
            Err(e) => e@ is Compression && table.model().entry(index as nat) == Err::<
                Entry,
                Seq<char>,
            >(e@->Compression_0),
        },
{
    if index == 0 {
        return Err(compression("index 0 is not a valid table entry"));
    }
    if let Some(e) = static_table::get(index) {
        return Ok(e);
    }
    let i: usize = index - static_table::LEN - 1;
    if let Some(e) = table.get(i) {
        return Ok((e.0.clone(), e.1.clone()));
    }
    let mut text = String::from_str("index ");
    push_decimal(&mut text, index as u64);
    text.append(" is past the end of the dynamic table (");
    push_decimal(&mut text, table.len() as u64);
    text.append(" entries)");
    Err(HpackError::Compression(text))
}

/// The best table entry for a field, used by the encoder to pick a
/// representation.
#[derive(Clone, Copy, PartialEq, Eq, Debug, Structural)]
pub enum Match {
    /// Name and value both match at this index.
    Full(usize),
    /// Only the name matches; the value is sent as a literal.
    Name(usize),
    /// Neither is in the table.
    Nothing,
}

/// The first place at or after `from` where the entries hold this field.
pub open spec fn first_field(entries: Seq<Entry>, name: Seq<u8>, value: Seq<u8>, from: int) -> Option<
    int,
>
    decreases entries.len() - from,
{
    if from < 0 || from >= entries.len() {
        None
    } else if entries[from] == (name, value) {
        Some(from)
    } else {
        first_field(entries, name, value, from + 1)
    }
}

/// The first place at or after `from` where the entries hold this name.
pub open spec fn first_name(entries: Seq<Entry>, name: Seq<u8>, from: int) -> Option<int>
    decreases entries.len() - from,
{
    if from < 0 || from >= entries.len() {
        None
    } else if entries[from].0 == name {
        Some(from)
    } else {
        first_name(entries, name, from + 1)
    }
}

/// The lowest index that holds the field, and failing that the lowest that
/// holds its name. Static entries come before dynamic ones.
#[verifier::opaque]
pub open spec fn best_match(t: DynModel, name: Seq<u8>, value: Seq<u8>) -> Match {
    match first_field(t.indexed(), name, value, 0) {
        Some(i) => Match::Full((i + 1) as usize),
        None => match first_name(t.indexed(), name, 0) {
            Some(i) => Match::Name((i + 1) as usize),
            None => Match::Nothing,
        },
    }
}

/// Finds the lowest-indexed entry matching `name` and `value`, preferring a
/// full match over a name-only one.
fn find(table: &DynamicTable, name: &[u8], value: &[u8]) -> (m: Match)
    requires
        table.wf(),
    ensures
        m == best_match(table.model(), name@, value@),
        m matches Match::Full(i) ==> 1 <= i <= table.model().indexed().len(),
        m matches Match::Name(i) ==> 1 <= i <= table.model().indexed().len(),
{
    reveal(best_match);
    let mut name_only: Option<usize> = None;
    let ghost all = table.model().indexed();
    let total: usize = table.entries.len();
    proof {
        lemma_count_bound(table.model().entries);
    }
    let mut i: usize = 0;
    while i < static_table::LEN + total
        invariant
            all == table.model().indexed(),
            total == table.entries@.len(),
            total * 32 <= usize::MAX,
            i <= static_table::LEN + total == all.len(),
            first_field(all, name@, value@, 0) == first_field(all, name@, value@, i as int),
            match name_only {
                Some(k) => 1 <= k <= i && first_name(all, name@, 0) == Some(k - 1),
                None => first_name(all, name@, 0) == first_name(all, name@, i as int),
            },
        decreases static_table::LEN + total - i,
    {
        let (same_name, same_value) = if i < static_table::LEN {
            let (n, v) = ENTRIES[i];
            (same_octets(n.as_bytes(), name), same_octets(v.as_bytes(), value))
        } else {
            let e = &table.entries[i - static_table::LEN];
            (same_octets(as_slice(&e.0), name), same_octets(as_slice(&e.1), value))
        };
        assert(same_name == (all[i as int].0 == name@));
        assert(same_value == (all[i as int].1 == value@));
        if same_name {
            if same_value {
                reveal(best_match);
                return Match::Full(i + 1);
            }
            if name_only.is_none() {
                name_only = Some(i + 1);
            }
        }
        i += 1;
    }
    match name_only {
        Some(index) => Match::Name(index),
        None => Match::Nothing,
    }
}

/// A list of entries has no more of them than its cost allows.
proof fn lemma_count_bound(entries: Seq<Entry>)
    ensures
        32 * entries.len() <= total_cost(entries),
    decreases entries.len(),
{
    if entries.len() > 0 {
        lemma_count_bound(entries.drop_last());
    }
}

// ---------------------------------------------------------------------------
// Decoder
// ---------------------------------------------------------------------------

/// One representation of a header block.
#[verifier::ext_equal]
pub enum Rep {
    /// A header field.
    Field(HeaderModel),
    /// A dynamic table size update.
    Resize,
}

/// The first of two things that went wrong, the earlier of which may not have.
pub open spec fn earlier(fault: Option<Seq<char>>, why: Seq<char>) -> Seq<char> {
    match fault {
        Some(first) => first,
        None => why,
    }
}

/// A literal's name and value, and what follows: the name is indexed or spelled
/// out, the value spelled out. A name or value that cannot be known does not
/// hide where the literal ends.
pub open spec fn literal_of(t: DynModel, first: u8, prefix_bits: int, s: Seq<u8>) -> Result<
    (Result<Entry, Seq<char>>, Seq<u8>),
    Seq<char>,
> {
    match int_of(first, prefix_bits, s) {
        Err(why) => Err(why),
        Ok((index, after_index)) => {
            let name = if index == 0 {
                string_of(after_index)
            } else {
                match t.entry(index) {
                    Ok(e) => Ok((Ok(e.0), after_index)),
                    Err(why) => Ok((Err(why), after_index)),
                }
            };
            match name {
                Err(why) => Err(why),
                Ok((name, after_name)) => {
                    let fault = match name {
                        Ok(_) => None,
                        Err(why) => Some(why),
                    };
                    match string_of(after_name) {
                        Err(why) => Err(earlier(fault, why)),
                        Ok((Err(why), rest)) => Ok((Err(earlier(fault, why)), rest)),
                        Ok((Ok(value), rest)) => match name {
                            Err(why) => Ok((Err(why), rest)),
                            Ok(name) => Ok((Ok((name, value)), rest)),
                        },
                    }
                },
            }
        },
    }
}

/// Whether an octet starts a dynamic table size update (§6.3).
pub open spec fn starts_update(first: u8) -> bool {
    0x20 <= first < 0x40
}

/// The representation at the front of `s`, the table after it, and what follows
/// (§6). A size update is legal only before the first field of a block, and
/// only up to the advertised capacity. A representation at fault changes
/// nothing, but where it can be read to its end the octets after it still
/// count; where it cannot, there is only an error.
#[verifier::opaque]
pub open spec fn rep_of(t: DynModel, capacity: nat, s: Seq<u8>, update_ok: bool) -> Result<
    (Result<Rep, Seq<char>>, DynModel, Seq<u8>),
    Seq<char>,
> {
    let first = s[0];
    let rest = s.drop_first();
    if first >= 0x80 {
        match int_of(first, 7, rest) {
            Err(why) => Err(why),
            Ok((index, after)) => match t.entry(index) {
                Err(why) => Ok((Err(why), t, after)),
                Ok(e) => Ok(
                    (
                        Ok(
                            Rep::Field(
                                HeaderModel { name: e.0, value: e.1, sensitive: false },
                            ),
                        ),
                        t,
                        after,
                    ),
                ),
            },
        }
    } else if first >= 0x40 {
        match literal_of(t, first, 6, rest) {
            Err(why) => Err(why),
            Ok((Err(why), after)) => Ok((Err(why), t, after)),
            Ok((Ok(e), after)) => Ok(
                (
                    Ok(Rep::Field(HeaderModel { name: e.0, value: e.1, sensitive: false })),
                    t.inserted(e.0, e.1),
                    after,
                ),
            ),
        }
    } else if first >= 0x20 {
        let fault = if update_ok {
            None
        } else {
            Some("dynamic table size update after a header field"@)
        };
        match int_of(first, 5, rest) {
            Err(why) => Err(earlier(fault, why)),
            Ok((size, after)) => if size > capacity {
                Ok(
                    (
                        Err(
                            earlier(
                                fault,
                                "dynamic table size update to "@ + decimal(size)
                                    + " exceeds the advertised maximum of "@ + decimal(capacity),
                            ),
                        ),
                        t,
                        after,
                    ),
                )
            } else {
                match fault {
                    Some(why) => Ok((Err(why), t, after)),
                    None => Ok((Ok(Rep::Resize), t.resized(size), after)),
                }
            },
        }
    } else {
        match literal_of(t, first, 4, rest) {
            Err(why) => Err(why),
            Ok((Err(why), after)) => Ok((Err(why), t, after)),
            Ok((Ok(e), after)) => Ok(
                (
                    Ok(
                        Rep::Field(
                            HeaderModel { name: e.0, value: e.1, sensitive: first >= 0x10 },
                        ),
                    ),
                    t,
                    after,
                ),
            ),
        }
    }
}

/// A size as a `usize`, held at the largest one.
pub open spec fn cap_usize(n: nat) -> usize {
    if n > usize::MAX {
        usize::MAX
    } else {
        n as usize
    }
}

/// The fields of the rest of a block, after the ones in `fields` costing
/// `total`: the table reached, and the whole list or why there is none. The
/// first thing that went wrong is carried along as `fault`.
///
/// Every representation is applied to the table, also after one at fault and
/// also when the list has outgrown its limit: the peer has applied its own
/// insertions, and skipping ours would put the two tables out of step. Only
/// octets that cannot be parsed end a block early.
pub open spec fn block_of(
    t: DynModel,
    capacity: nat,
    limit: Option<usize>,
    s: Seq<u8>,
    fields: Seq<HeaderModel>,
    total: nat,
    update_ok: bool,
    fault: Option<Seq<char>>,
) -> (DynModel, Result<Seq<HeaderModel>, HpackFault>)
    decreases s.len(),
{
    if s.len() == 0 {
        (
            t,
            if let Some(why) = fault {
                Err(HpackFault::Compression(why))
            } else if limit is Some && total > limit->0 {
                Err(HpackFault::HeaderListTooLarge { size: cap_usize(total), limit: limit->0 })
            } else {
                Ok(fields)
            },
        )
    } else {
        match rep_of(t, capacity, s, update_ok) {
            Err(why) => (t, Err(HpackFault::Compression(earlier(fault, why)))),
            Ok((rep, after, rest)) => if rest.len() >= s.len() {
                (t, Ok(fields))
            } else {
                let update_ok = update_ok && starts_update(s[0]);
                match rep {
                    Err(why) => block_of(
                        after,
                        capacity,
                        limit,
                        rest,
                        fields,
                        total,
                        update_ok,
                        Some(earlier(fault, why)),
                    ),
                    Ok(Rep::Resize) => block_of(
                        after,
                        capacity,
                        limit,
                        rest,
                        fields,
                        total,
                        update_ok,
                        fault,
                    ),
                    Ok(Rep::Field(h)) => block_of(
                        after,
                        capacity,
                        limit,
                        rest,
                        fields.push(h),
                        total + cost(h.name, h.value),
                        update_ok,
                        fault,
                    ),
                }
            },
        }
    }
}

/// What a decoder holds.
#[verifier::ext_equal]
pub struct DecoderModel {
    pub table: DynModel,
    pub capacity: nat,
    pub limit: Option<usize>,
}

impl DecoderModel {
    /// What decoding a block does: the decoder after it, and the header list or
    /// why there is none.
    pub open spec fn decoded(self, block: Seq<u8>) -> (
        DecoderModel,
        Result<Seq<HeaderModel>, HpackFault>,
    ) {
        let (table, r) = block_of(
            self.table,
            self.capacity,
            self.limit,
            block,
            Seq::empty(),
            0,
            true,
            None,
        );
        (DecoderModel { table, ..self }, r)
    }
}

/// The HPACK decoder: turns a header block back into a header list, maintaining
/// the decoder-side dynamic table and enforcing the header list limit.
pub struct HpackDecoder {
    table: DynamicTable,
    /// The `SETTINGS_HEADER_TABLE_SIZE` we advertised. The peer may shrink its
    /// table below this with a size update, but never grow past it (§6.3).
    capacity: usize,
    max_header_list_size: Option<usize>,
    /// The Huffman state machine.
    codes: DecodeTable,
}

impl View for HpackDecoder {
    type V = DecoderModel;

    closed spec fn view(&self) -> DecoderModel {
        DecoderModel {
            table: self.table.model(),
            capacity: self.capacity as nat,
            limit: self.max_header_list_size,
        }
    }
}

impl Default for HpackDecoder {
    fn default() -> (d: Self)
        ensures
            d.wf(),
            d@ == (DecoderModel {
                table: DynModel { entries: Seq::empty(), max_size: 4096 },
                capacity: 4096,
                limit: None,
            }),
    {
        HpackDecoder::new(4096, None)
    }
}

/// Reading an integer never lengthens what is left.
proof fn lemma_continued_len(value: nat, i: int, s: Seq<u8>)
    ensures
        continued(value, i, s) matches Ok((_, rest)) ==> rest.len() < s.len(),
    decreases 5 - i,
{
    if 0 <= i <= 4 && s.len() > 0 && s[0] >= 128 && value + (s[0] as nat % 128) * weight(i)
        <= u32::MAX {
        lemma_continued_len(
            value + (s[0] as nat % 128) * weight(i),
            i + 1,
            s.drop_first(),
        );
    }
}

proof fn lemma_int_len(first: u8, prefix_bits: int, s: Seq<u8>)
    ensures
        int_of(first, prefix_bits, s) matches Ok((_, rest)) ==> rest.len() <= s.len(),
{
    let low = low_bits(first, prefix_bits);
    lemma_continued_len(low, 0, s);
}

proof fn lemma_string_len(s: Seq<u8>)
    ensures
        string_of(s) matches Ok((_, rest)) ==> rest.len() <= s.len(),
{
    reveal(string_of);
    if s.len() > 0 {
        lemma_int_len(s[0], 7, s.drop_first());
    }
}

proof fn lemma_literal_len(t: DynModel, first: u8, prefix_bits: int, s: Seq<u8>)
    ensures
        literal_of(t, first, prefix_bits, s) matches Ok((_, rest)) ==> rest.len() <= s.len(),
{
    lemma_int_len(first, prefix_bits, s);
    if let Ok((index, after_index)) = int_of(first, prefix_bits, s) {
        lemma_string_len(after_index);
        lemma_string_len(after_index);
        if let Ok((_, after_name)) = string_of(after_index) {
            lemma_string_len(after_name);
        }
    }
}

/// A representation takes at least one octet.
pub proof fn lemma_rep_len(t: DynModel, capacity: nat, s: Seq<u8>, update_ok: bool)
    requires
        s.len() > 0,
    ensures
        rep_of(t, capacity, s, update_ok) matches Ok((_, _, rest)) ==> rest.len() < s.len(),
{
    reveal(rep_of);
    let first = s[0];
    let rest = s.drop_first();
    lemma_int_len(first, 7, rest);
    lemma_int_len(first, 5, rest);
    lemma_literal_len(t, first, 6, rest);
    lemma_literal_len(t, first, 4, rest);
}

impl HpackDecoder {
    /// The size field counts what the table holds.
    pub closed spec fn wf(self) -> bool {
        self.table.wf() && self.codes.wf()
    }

    /// A decoder whose dynamic table is bounded by `max_table_size` octets, and
    /// which rejects any header list larger than `max_header_list_size`.
    pub fn new(max_table_size: usize, max_header_list_size: Option<usize>) -> (d: Self)
        ensures
            d.wf(),
            d@ == (DecoderModel {
                table: DynModel { entries: Seq::empty(), max_size: max_table_size as nat },
                capacity: max_table_size as nat,
                limit: max_header_list_size,
            }),
    {
        HpackDecoder {
            table: DynamicTable::new(max_table_size),
            capacity: max_table_size,
            max_header_list_size,
            codes: DecodeTable::build(),
        }
    }

    /// The dynamic table's entries, newest first.
    pub fn table_entries(&self) -> (entries: Vec<(Bytes, Bytes)>)
        ensures
            entries_view(entries@) == self@.table.entries,
    {
        let mut entries: Vec<(Bytes, Bytes)> = Vec::new();
        let mut i: usize = 0;
        while i < self.table.entries.len()
            invariant
                i <= self.table.entries@.len(),
                entries@.len() == i,
                forall|k: int|
                    0 <= k < i ==> octets((#[trigger] entries@[k]).0) == octets(
                        self.table.entries@[k].0,
                    ) && octets(entries@[k].1) == octets(self.table.entries@[k].1),
            decreases self.table.entries@.len() - i,
        {
            let e = &self.table.entries[i];
            entries.push((e.0.clone(), e.1.clone()));
            i += 1;
        }
        assert(entries_view(entries@) =~= self@.table.entries);
        entries
    }

    /// The dynamic table's size in octets, per the §4.1 accounting.
    pub fn table_size(&self) -> (n: usize)
        requires
            self.wf(),
        ensures
            n == total_cost(self@.table.entries),
    {
        self.table.size
    }

    /// Decodes `block` into a header list.
    ///
    /// A desync or bound violation is reported, but never by stopping early:
    /// the whole block is processed either way, because the peer has already
    /// applied its own table insertions and skipping ours would desync every
    /// later block on the connection. Only octets that cannot be parsed at all,
    /// so that it is unknown where the next representation starts, end it.
    pub fn decode(&mut self, block: &Bytes) -> (r: Result<Vec<Header>, HpackError>)
        requires
            old(self).wf(),
        ensures
            final(self).wf(),
            final(self)@ == old(self)@.decoded(octets(*block)).0,
            match r {
                Ok(headers) => old(self)@.decoded(octets(*block)).1 == Ok::<
                    Seq<HeaderModel>,
                    HpackFault,
                >(headers_view(headers@)),
                Err(e) => old(self)@.decoded(octets(*block)).1 == Err::<
                    Seq<HeaderModel>,
                    HpackFault,
                >(e@),
            },
    {
        let mut cur = Cursor::new(block);
        let mut headers: Vec<Header> = Vec::new();
        let mut list_size: u128 = 0;
        let mut update_ok = true;
        let mut fault: Option<HpackError> = None;
        let ghost mut fields: Seq<HeaderModel> = Seq::empty();
        let ghost mut total: nat = 0;
        let ghost limit = self.max_header_list_size;
        assert(headers_view(headers@) =~= fields);
        while !cur.is_empty()
            invariant
                self.wf(),
                cur.wf(),
                self.capacity == old(self).capacity,
                self.max_header_list_size == limit,
                old(self).max_header_list_size == limit,
                list_size == (if total > u128::MAX {
                    u128::MAX as nat
                } else {
                    total
                }),
                !(limit is Some && total > limit->0) ==> headers_view(headers@) == fields,
                fault matches Some(e) ==> e@ is Compression,
                block_of(
                    old(self)@.table,
                    old(self)@.capacity,
                    limit,
                    octets(*block),
                    Seq::empty(),
                    0,
                    true,
                    None,
                ) == block_of(
                    self@.table,
                    self@.capacity,
                    limit,
                    cur.rest(),
                    fields,
                    total,
                    update_ok,
                    reason(fault),
                ),
            decreases cur.rest().len(),
        {
            let ghost s = cur.rest();
            proof {
                lemma_rep_len(self@.table, self@.capacity, s, update_ok);
            }
            let (rep, was_update) = match self.representation(&mut cur, update_ok) {
                Ok(read) => read,
                Err(e) => return Err(first_fault(fault, e)),
            };
            update_ok = update_ok && was_update;
            let header = match rep {
                Err(e) => {
                    fault = Some(first_fault(fault, e));
                    continue ;
                },
                Ok(None) => continue ,
                Ok(Some(header)) => header,
            };
            let ghost h = header@;
            list_size = list_size.saturating_add(header.list_size());
            proof {
                total = total + cost(h.name, h.value);
            }
            let over = match self.max_header_list_size {
                Some(limit) => list_size > limit as u128,
                None => false,
            };
            let ghost before = headers@;
            if over {
                headers.clear();
            } else {
                headers.push(header);
                assert(headers_view(headers@) =~= headers_view(before).push(h));
            }
            proof {
                fields = fields.push(h);
            }
        }
        if let Some(e) = fault {
            return Err(e);
        }
        if let Some(limit) = self.max_header_list_size {
            if list_size > limit as u128 {
                let size: usize = if list_size > usize::MAX as u128 {
                    usize::MAX
                } else {
                    list_size as usize
                };
                return Err(HpackError::HeaderListTooLarge { size, limit });
            }
        }
        Ok(headers)
    }

    /// Reads one representation and applies it to the table: a field, nothing
    /// for a size update, or what is wrong with it. Says as well whether it was
    /// a size update. The outer error is one that cannot be read to its end.
    fn representation(&mut self, cur: &mut Cursor, update_ok: bool) -> (r: Result<
        (Result<Option<Header>, HpackError>, bool),
        HpackError,
    >)
        requires
            old(self).wf(),
            old(cur).wf(),
            old(cur).rest().len() > 0,
        ensures
            final(self).wf(),
            final(self).capacity == old(self).capacity,
            final(self).max_header_list_size == old(self).max_header_list_size,
            final(cur).wf(),
            match r {
                Ok((rep, was_update)) => {
                    &&& was_update == starts_update(old(cur).rest()[0])
                    &&& rep matches Err(e) ==> e@ is Compression
                    &&& rep_of(
                        old(self)@.table,
                        old(self)@.capacity,
                        old(cur).rest(),
                        update_ok,
                    ) == Ok::<(Result<Rep, Seq<char>>, DynModel, Seq<u8>), Seq<char>>(
                        (
                            match rep {
                                Ok(Some(h)) => Ok(Rep::Field(h@)),
                                Ok(None) => Ok(Rep::Resize),
                                Err(e) => Err(e@->Compression_0),
                            },
                            final(self)@.table,
                            final(cur).rest(),
                        ),
                    )
                },
                Err(e) => {
                    &&& e@ is Compression
                    &&& final(self)@.table == old(self)@.table
                    &&& rep_of(
                        old(self)@.table,
                        old(self)@.capacity,
                        old(cur).rest(),
                        update_ok,
                    ) == Err::<(Result<Rep, Seq<char>>, DynModel, Seq<u8>), Seq<char>>(
                        e@->Compression_0,
                    )
                },
            },
    {
        reveal(rep_of);
        let ghost s = cur.rest();
        let first = match cur.next_byte() {
            Ok(first) => first,
            Err(e) => {
                assert(false);
                return Err(e);
            },
        };
        assert(s =~= seq![first] + cur.rest());
        if first >= 0x80 {
            let index = match decode_int(first, 7, cur) {
                Ok(index) => index,
                Err(e) => return Err(e),
            };
            match lookup(&self.table, index) {
                Ok((name, value)) => Ok((Ok(Some(Header { name, value, sensitive: false })), false)),
                Err(e) => Ok((Err(e), false)),
            }
        } else if first >= 0x40 {
            match self.literal(first, 6, cur, false) {
                Ok(Ok(header)) => {
                    self.table.insert(header.name.clone(), header.value.clone());
                    Ok((Ok(Some(header)), false))
                },
                Ok(Err(e)) => Ok((Err(e), false)),
                Err(e) => Err(e),
            }
        } else if first >= 0x20 {
            match self.size_update(first, cur, update_ok) {
                Ok(Ok(())) => Ok((Ok(None), true)),
                Ok(Err(e)) => Ok((Err(e), true)),
                Err(e) => Err(e),
            }
        } else {
            match self.literal(first, 4, cur, first >= 0x10) {
                Ok(Ok(header)) => Ok((Ok(Some(header)), false)),
                Ok(Err(e)) => Ok((Err(e), false)),
                Err(e) => Err(e),
            }
        }
    }

    /// The rest of a dynamic table size update, after its first octet (§6.3).
    fn size_update(&mut self, first: u8, cur: &mut Cursor, update_ok: bool) -> (r: Result<
        Result<(), HpackError>,
        HpackError,
    >)
        requires
            old(self).wf(),
            old(cur).wf(),
            starts_update(first),
        ensures
            final(self).wf(),
            final(self).capacity == old(self).capacity,
            final(self).max_header_list_size == old(self).max_header_list_size,
            final(cur).wf(),
            ({
                let s = seq![first] + old(cur).rest();
                let rep = rep_of(old(self)@.table, old(self)@.capacity, s, update_ok);
                match r {
                    Ok(Ok(())) => rep == Ok::<
                        (Result<Rep, Seq<char>>, DynModel, Seq<u8>),
                        Seq<char>,
                    >((Ok(Rep::Resize), final(self)@.table, final(cur).rest())),
                    Ok(Err(e)) => e@ is Compression && rep == Ok::<
                        (Result<Rep, Seq<char>>, DynModel, Seq<u8>),
                        Seq<char>,
                    >((Err(e@->Compression_0), final(self)@.table, final(cur).rest())),
                    Err(e) => e@ is Compression && final(self)@.table == old(self)@.table && rep
                        == Err::<(Result<Rep, Seq<char>>, DynModel, Seq<u8>), Seq<char>>(
                        e@->Compression_0,
                    ),
                }
            }),
    {
        reveal(rep_of);
        let ghost s = seq![first] + cur.rest();
        assert(s.drop_first() =~= cur.rest());
        let size = match decode_int(first, 5, cur) {
            Ok(size) => size,
            Err(e) => {
                if !update_ok {
                    return Err(compression("dynamic table size update after a header field"));
                }
                return Err(e);
            },
        };
        if !update_ok {
            return Ok(Err(compression("dynamic table size update after a header field")));
        }
        if size > self.capacity {
            let mut text = String::from_str("dynamic table size update to ");
            push_decimal(&mut text, size as u64);
            text.append(" exceeds the advertised maximum of ");
            push_decimal(&mut text, self.capacity as u64);
            return Ok(Err(HpackError::Compression(text)));
        }
        self.table.set_max_size(size);
        Ok(Ok(()))
    }

    /// A literal representation: an optional name index, then the strings. The
    /// outer error is one that cannot be read to its end.
    fn literal(&self, first: u8, prefix_bits: u32, cur: &mut Cursor, sensitive: bool) -> (r: Result<
        Result<Header, HpackError>,
        HpackError,
    >)
        requires
            self.wf(),
            4 <= prefix_bits <= 7,
            old(cur).wf(),
        ensures
            final(cur).wf(),
            final(cur).buf == old(cur).buf,
            match r {
                Ok(Ok(h)) => h.sensitive == sensitive && literal_of(
                    self@.table,
                    first,
                    prefix_bits as int,
                    old(cur).rest(),
                ) == Ok::<(Result<Entry, Seq<char>>, Seq<u8>), Seq<char>>(
                    (Ok((octets(h.name), octets(h.value))), final(cur).rest()),
                ),
                Ok(Err(e)) => e@ is Compression && literal_of(
                    self@.table,
                    first,
                    prefix_bits as int,
                    old(cur).rest(),
                ) == Ok::<(Result<Entry, Seq<char>>, Seq<u8>), Seq<char>>(
                    (Err(e@->Compression_0), final(cur).rest()),
                ),
                Err(e) => e@ is Compression && literal_of(
                    self@.table,
                    first,
                    prefix_bits as int,
                    old(cur).rest(),
                ) == Err::<(Result<Entry, Seq<char>>, Seq<u8>), Seq<char>>(e@->Compression_0),
            },
    {
        let index = match decode_int(first, prefix_bits, cur) {
            Ok(index) => index,
            Err(e) => return Err(e),
        };
        let name = if index == 0 {
            match decode_string(&self.codes, cur) {
                Ok(name) => name,
                Err(e) => return Err(e),
            }
        } else {
            match lookup(&self.table, index) {
                Ok(e) => Ok(e.0),
                Err(e) => Err(e),
            }
        };
        match (name, decode_string(&self.codes, cur)) {
            (Ok(name), Ok(Ok(value))) => Ok(Ok(Header { name, value, sensitive })),
            (Ok(_), Ok(Err(e))) => Ok(Err(e)),
            (Ok(_), Err(e)) => Err(e),
            (Err(e), Ok(_)) => Ok(Err(e)),
            (Err(e), Err(_)) => Err(e),
        }
    }
}

/// Why a block is at fault so far.
pub open spec fn reason(fault: Option<HpackError>) -> Option<Seq<char>> {
    match fault {
        Some(e) => Some(e@->Compression_0),
        None => None,
    }
}

/// The first of two faults.
fn first_fault(fault: Option<HpackError>, e: HpackError) -> (r: HpackError)
    requires
        e@ is Compression,
        fault matches Some(f) ==> f@ is Compression,
    ensures
        r@ == HpackFault::Compression(earlier(reason(fault), e@->Compression_0)),
{
    match fault {
        Some(first) => first,
        None => e,
    }
}

// ---------------------------------------------------------------------------
// Encoder
// ---------------------------------------------------------------------------

/// What an encoder holds.
#[verifier::ext_equal]
pub struct EncoderModel {
    pub table: DynModel,
    /// The smallest bound adopted since the last block, if the bound has changed
    /// since.
    pub pending: Option<nat>,
    pub huffman: bool,
}

/// The octets a field is sent as (§6): an index where the table holds the
/// field, otherwise a literal that both tables then remember. A sensitive field
/// is always a never-indexed literal.
#[verifier::opaque]
pub open spec fn field_octets(t: DynModel, h: HeaderModel, huffman: bool) -> Seq<u8> {
    let literal_value = string_octets(h.value, huffman);
    match best_match(t, h.name, h.value) {
        Match::Full(i) => if h.sensitive {
            int_octets(i as nat, 4, 0x10) + literal_value
        } else {
            int_octets(i as nat, 7, 0x80)
        },
        Match::Name(i) => if h.sensitive {
            int_octets(i as nat, 4, 0x10) + literal_value
        } else {
            int_octets(i as nat, 6, 0x40) + literal_value
        },
        Match::Nothing => (if h.sensitive {
            seq![0x10u8]
        } else {
            seq![0x40u8]
        }) + string_octets(h.name, huffman) + literal_value,
    }
}

/// The table after a field is sent: a field that is not sensitive and not yet
/// in the table joins it.
pub open spec fn table_after(t: DynModel, h: HeaderModel) -> DynModel {
    if h.sensitive || best_match(t, h.name, h.value) is Full {
        t
    } else {
        t.inserted(h.name, h.value)
    }
}

/// The octets a list of fields is sent as, and the table after it.
pub open spec fn fields_octets(t: DynModel, fields: Seq<HeaderModel>, huffman: bool) -> (
    Seq<u8>,
    DynModel,
)
    decreases fields.len(),
{
    if fields.len() == 0 {
        (Seq::empty(), t)
    } else {
        let (octets, after) = fields_octets(t, fields.drop_last(), huffman);
        (
            octets + field_octets(after, fields.last(), huffman),
            table_after(after, fields.last()),
        )
    }
}

impl EncoderModel {
    /// The size updates owed to the peer (§4.2): the smallest bound since the
    /// last block, for what it evicted, and then the bound that holds now.
    pub open spec fn announced(self) -> Seq<u8> {
        match self.pending {
            None => Seq::empty(),
            Some(low) => if low == self.table.max_size {
                int_octets(low, 5, 0x20)
            } else {
                int_octets(low, 5, 0x20) + int_octets(self.table.max_size, 5, 0x20)
            },
        }
    }

    /// What encoding a list does: the encoder after it, and the block. A change
    /// of table size since the last block is announced first.
    pub open spec fn encoded(self, fields: Seq<HeaderModel>) -> (EncoderModel, Seq<u8>) {
        let (body, table) = fields_octets(self.table, fields, self.huffman);
        (EncoderModel { table, pending: None, ..self }, self.announced() + body)
    }

    /// What a new table bound does.
    pub open spec fn bounded(self, max_size: nat) -> EncoderModel {
        if max_size == self.table.max_size {
            self
        } else {
            EncoderModel {
                table: self.table.resized(max_size),
                pending: match self.pending {
                    Some(low) if low <= max_size => Some(low),
                    _ => Some(max_size),
                },
                ..self
            }
        }
    }
}

/// The HPACK encoder: turns a header list into a header block, maintaining the
/// encoder-side dynamic table.
#[derive(Debug)]
pub struct HpackEncoder {
    table: DynamicTable,
    /// The smallest bound adopted since the last block, when a size update is to
    /// be emitted before the next one (§4.2, §6.3).
    pending_size_update: Option<usize>,
    huffman: bool,
}

impl View for HpackEncoder {
    type V = EncoderModel;

    closed spec fn view(&self) -> EncoderModel {
        EncoderModel {
            table: self.table.model(),
            pending: match self.pending_size_update {
                Some(n) => Some(n as nat),
                None => None,
            },
            huffman: self.huffman,
        }
    }
}

impl Default for HpackEncoder {
    fn default() -> (e: Self)
        ensures
            e.wf(),
            e@ == (EncoderModel {
                table: DynModel { entries: Seq::empty(), max_size: 4096 },
                pending: None,
                huffman: true,
            }),
    {
        HpackEncoder::new(4096)
    }
}

impl HpackEncoder {
    /// The size field counts what the table holds.
    pub closed spec fn wf(self) -> bool {
        self.table.wf()
    }

    /// An encoder whose dynamic table is bounded by `max_table_size` octets
    /// (the peer's `SETTINGS_HEADER_TABLE_SIZE`).
    pub fn new(max_table_size: usize) -> (e: Self)
        ensures
            e.wf(),
            e@ == (EncoderModel {
                table: DynModel { entries: Seq::empty(), max_size: max_table_size as nat },
                pending: None,
                huffman: true,
            }),
    {
        HpackEncoder {
            table: DynamicTable::new(max_table_size),
            pending_size_update: None,
            huffman: true,
        }
    }

    /// Turns Huffman coding on or off.
    pub fn set_huffman(&mut self, on: bool)
        requires
            old(self).wf(),
        ensures
            final(self).wf(),
            final(self)@ == (EncoderModel { huffman: on, ..old(self)@ }),
    {
        self.huffman = on;
    }

    /// The dynamic table's size in octets.
    pub fn table_size(&self) -> (n: usize)
        requires
            self.wf(),
        ensures
            n == total_cost(self@.table.entries),
    {
        self.table.size
    }

    /// Adopts a new table bound after the peer's SETTINGS change it. The change
    /// is announced to the peer as a size update on the next block (§6.3). Of
    /// several changes before that block, the smallest bound is announced as
    /// well as the last: entries it evicted here have to go there too (§4.2).
    pub fn set_max_table_size(&mut self, max_table_size: usize)
        requires
            old(self).wf(),
        ensures
            final(self).wf(),
            final(self)@ == old(self)@.bounded(max_table_size as nat),
    {
        if max_table_size != self.table.max_size {
            self.table.set_max_size(max_table_size);
            self.pending_size_update = match self.pending_size_update {
                Some(low) if low <= max_table_size => Some(low),
                _ => Some(max_table_size),
            };
        }
    }

    /// Encodes `headers` onto `out`.
    pub fn encode(&mut self, headers: &[Header], out: &mut BytesMut)
        requires
            old(self).wf(),
        ensures
            final(self).wf(),
            final(self)@ == old(self)@.encoded(headers_view(headers@)).0,
            buffered(*final(out)) == buffered(*old(out)) + old(self)@.encoded(
                headers_view(headers@),
            ).1,
    {
        let ghost table = self@.table;
        let ghost huffman = self.huffman;
        if let Some(low) = self.pending_size_update {
            self.pending_size_update = None;
            encode_int(low, 5, 0x20, out);
            if low != self.table.max_size {
                encode_int(self.table.max_size, 5, 0x20, out);
            }
        }
        let ghost start = buffered(*out);
        assert(start =~= buffered(*old(out)) + old(self)@.announced());
        let ghost fields = headers_view(headers@);
        let mut i: usize = 0;
        assert(fields.take(0) =~= Seq::empty());
        assert(start + Seq::<u8>::empty() =~= start);
        while i < headers.len()
            invariant
                self.wf(),
                self.pending_size_update is None,
                self.huffman == huffman,
                fields == headers_view(headers@),
                i <= headers@.len() == fields.len(),
                self@.table == fields_octets(table, fields.take(i as int), huffman).1,
                buffered(*out) == start + fields_octets(table, fields.take(i as int), huffman).0,
            decreases headers@.len() - i,
        {
            self.encode_one(&headers[i], out);
            proof {
                let grown = fields.take(i + 1);
                assert(grown.drop_last() =~= fields.take(i as int));
                assert(grown.last() == headers@[i as int]@);
                assert(buffered(*out) =~= start + fields_octets(table, grown, huffman).0);
            }
            i += 1;
        }
        proof {
            assert(fields.take(i as int) =~= fields);
            assert(buffered(*out) =~= buffered(*old(out)) + old(self)@.encoded(fields).1);
        }
    }

    fn encode_one(&mut self, header: &Header, out: &mut BytesMut)
        requires
            old(self).wf(),
        ensures
            final(self).wf(),
            final(self)@ == (EncoderModel {
                table: table_after(old(self)@.table, header@),
                ..old(self)@
            }),
            final(self).pending_size_update == old(self).pending_size_update,
            final(self).huffman == old(self).huffman,
            buffered(*final(out)) == buffered(*old(out)) + field_octets(
                old(self)@.table,
                header@,
                old(self)@.huffman,
            ),
    {
        reveal(field_octets);
        let name = as_slice(&header.name);
        let value = as_slice(&header.value);
        let found = find(&self.table, name, value);
        if header.sensitive {
            match found {
                Match::Full(i) | Match::Name(i) => encode_int(i, 4, 0x10, out),
                Match::Nothing => {
                    put_u8(out, 0x10);
                    encode_string(name, self.huffman, out);
                },
            }
            encode_string(value, self.huffman, out);
        } else {
            match found {
                Match::Full(i) => encode_int(i, 7, 0x80, out),
                Match::Name(i) => {
                    encode_int(i, 6, 0x40, out);
                    encode_string(value, self.huffman, out);
                    self.table.insert(header.name.clone(), header.value.clone());
                },
                Match::Nothing => {
                    put_u8(out, 0x40);
                    encode_string(name, self.huffman, out);
                    encode_string(value, self.huffman, out);
                    self.table.insert(header.name.clone(), header.value.clone());
                },
            }
        }
        assert(buffered(*out) =~= buffered(*old(out)) + field_octets(
            old(self)@.table,
            header@,
            old(self)@.huffman,
        ));
    }
}

// ---------------------------------------------------------------------------
// Laws
// ---------------------------------------------------------------------------

/// Reading continuation octets gives back the number they were made of.
proof fn lemma_varint(value: nat, i: int, n: nat, tail: Seq<u8>)
    requires
        0 <= i <= 4,
        value + n * weight(i) <= u32::MAX,
    ensures
        continued(value, i, varint(n) + tail) == Ok::<(nat, Seq<u8>), Seq<char>>(
            (value + n * weight(i), tail),
        ),
    decreases 5 - i,
{
    let s = varint(n) + tail;
    let w = weight(i);
    if n < 128 {
        assert(s[0] == n);
        assert(s.drop_first() =~= tail);
    } else {
        assert(i < 4) by {
            assert(n * w >= 128 * w) by (nonlinear_arith)
                requires
                    n >= 128,
            ;
        }
        assert(s[0] == n % 128 + 128);
        assert(s.drop_first() =~= varint(n / 128) + tail);
        let next = value + (n % 128) * weight(i);
        assert(weight(i + 1) == 128 * w);
        assert(n * w == (n % 128) * w + (n / 128) * (128 * w)) by (nonlinear_arith);
        lemma_varint(next, i + 1, n / 128, tail);
    }
}

/// A number set into the prefix of an octet can be read out of it.
proof fn lemma_low_bits(high: u8, v: nat, prefix_bits: int)
    requires
        4 <= prefix_bits <= 7,
        leaves_prefix_free(high, prefix_bits),
        v <= mask(prefix_bits),
    ensures
        high + v <= 255,
        low_bits((high + v) as u8, prefix_bits) == v,
{
    if prefix_bits == 4 {
        assert(high + v <= 255 && (high + v) % 16 == v);
    } else if prefix_bits == 5 {
        assert(high + v <= 255 && (high + v) % 32 == v);
    } else if prefix_bits == 6 {
        assert(high + v <= 255 && (high + v) % 64 == v);
    } else {
        assert(high + v <= 255 && (high + v) % 128 == v);
    }
}

/// Decoding an encoded integer gives it back, at every prefix width and for
/// every value of 32 bits.
pub proof fn integers_round_trip(value: nat, prefix_bits: int, high: u8, tail: Seq<u8>)
    requires
        4 <= prefix_bits <= 7,
        leaves_prefix_free(high, prefix_bits),
        value <= u32::MAX,
    ensures
        ({
            let s = int_octets(value, prefix_bits, high) + tail;
            &&& s.len() > 0
            &&& high <= s[0] <= high + mask(prefix_bits)
            &&& int_of(s[0], prefix_bits, s.drop_first()) == Ok::<(nat, Seq<u8>), Seq<char>>(
                (value, tail),
            )
        }),
{
    let m = mask(prefix_bits);
    let o = int_octets(value, prefix_bits, high);
    let s = o + tail;
    if value < m {
        lemma_low_bits(high, value, prefix_bits);
        assert(s[0] == high + value);
        assert(s.drop_first() =~= tail);
    } else {
        lemma_low_bits(high, m, prefix_bits);
        assert(s[0] == high + m);
        let n = (value - m) as nat;
        assert(s.drop_first() =~= varint(n) + tail);
        lemma_varint(m, 0, n, tail);
    }
}

/// What a string literal decodes to, given what its length prefix does.
proof fn lemma_string_of(head: Seq<u8>, body: Seq<u8>, tail: Seq<u8>)
    requires
        head.len() > 0,
        int_of(head[0], 7, (head + (body + tail)).drop_first()) == Ok::<
            (nat, Seq<u8>),
            Seq<char>,
        >((body.len(), body + tail)),
    ensures
        string_of(head + body + tail) == (if head[0] >= 128 {
            Ok::<(Result<Seq<u8>, Seq<char>>, Seq<u8>), Seq<char>>(
                (decoded_bits(bits_of(body)), tail),
            )
        } else {
            Ok::<(Result<Seq<u8>, Seq<char>>, Seq<u8>), Seq<char>>((Ok(body), tail))
        }),
{
    reveal(string_of);
    assert(head + body + tail =~= head + (body + tail));
    assert((body + tail).take(body.len() as int) =~= body);
    assert((body + tail).skip(body.len() as int) =~= tail);
}

/// Decoding an encoded string gives it back, Huffman-coded or not, whenever the
/// length that goes before it has 32 bits.
pub proof fn strings_round_trip(text: Seq<u8>, huffman: bool, tail: Seq<u8>)
    requires
        written_len(text, huffman) <= u32::MAX,
    ensures
        string_of(string_octets(text, huffman) + tail) == Ok::<
            (Result<Seq<u8>, Seq<char>>, Seq<u8>),
            Seq<char>,
        >((Ok(text), tail)),
        string_octets(text, huffman).len() > 0,
{
    reveal(string_octets);
    if huffman && coded_len(text) <= text.len() {
        huffman::coding_round_trips(text);
        let body = coded(text);
        let head = int_octets(coded_len(text), 7, 0x80);
        integers_round_trip(coded_len(text), 7, 0x80, body + tail);
        lemma_string_of(head, body, tail);
    } else {
        let head = int_octets(text.len(), 7, 0x00);
        integers_round_trip(text.len(), 7, 0x00, text + tail);
        lemma_string_of(head, text, tail);
    }
}

proof fn lemma_first_field(entries: Seq<Entry>, name: Seq<u8>, value: Seq<u8>, from: int)
    requires
        0 <= from,
    ensures
        first_field(entries, name, value, from) matches Some(i) ==> from <= i < entries.len()
            && entries[i] == (name, value),
    decreases entries.len() - from,
{
    if from < entries.len() && entries[from] != (name, value) {
        lemma_first_field(entries, name, value, from + 1);
    }
}

proof fn lemma_first_name(entries: Seq<Entry>, name: Seq<u8>, from: int)
    requires
        0 <= from,
    ensures
        first_name(entries, name, from) matches Some(i) ==> from <= i < entries.len()
            && entries[i].0 == name,
    decreases entries.len() - from,
{
    if from < entries.len() && entries[from].0 != name {
        lemma_first_name(entries, name, from + 1);
    }
}

/// A match is what it claims to be.
pub proof fn lemma_best_match(t: DynModel, name: Seq<u8>, value: Seq<u8>)
    requires
        t.indexed().len() < usize::MAX,
    ensures
        match best_match(t, name, value) {
            Match::Full(i) => 1 <= i <= t.indexed().len() && t.entry(i as nat) == Ok::<
                Entry,
                Seq<char>,
            >((name, value)),
            Match::Name(i) => 1 <= i <= t.indexed().len() && t.entry(i as nat) is Ok && t.entry(
                i as nat,
            )->Ok_0.0 == name,
            Match::Nothing => true,
        },
{
    reveal(best_match);
    lemma_first_field(t.indexed(), name, value, 0);
    lemma_first_name(t.indexed(), name, 0);
}

/// A literal with an indexed name.
proof fn lemma_literal_indexed(
    t: DynModel,
    i: nat,
    prefix_bits: int,
    high: u8,
    h: HeaderModel,
    huffman: bool,
    tail: Seq<u8>,
)
    requires
        4 <= prefix_bits <= 7,
        leaves_prefix_free(high, prefix_bits),
        1 <= i <= u32::MAX,
        t.entry(i) is Ok,
        t.entry(i)->Ok_0.0 == h.name,
        written_len(h.value, huffman) <= u32::MAX,
    ensures
        ({
            let s = int_octets(i, prefix_bits, high) + string_octets(h.value, huffman) + tail;
            &&& s.len() > 0
            &&& high <= s[0] <= high + mask(prefix_bits)
            &&& literal_of(t, s[0], prefix_bits, s.drop_first()) == Ok::<
                (Result<Entry, Seq<char>>, Seq<u8>),
                Seq<char>,
            >((Ok((h.name, h.value)), tail))
        }),
{
    let value = string_octets(h.value, huffman);
    let s = int_octets(i, prefix_bits, high) + value + tail;
    assert(s =~= int_octets(i, prefix_bits, high) + (value + tail));
    integers_round_trip(i, prefix_bits, high, value + tail);
    strings_round_trip(h.value, huffman, tail);
}

/// A literal with its name spelled out.
proof fn lemma_literal_named(
    t: DynModel,
    prefix_bits: int,
    first: u8,
    h: HeaderModel,
    huffman: bool,
    tail: Seq<u8>,
)
    requires
        4 <= prefix_bits <= 7,
        leaves_prefix_free(first, prefix_bits),
        written_len(h.name, huffman) <= u32::MAX,
        written_len(h.value, huffman) <= u32::MAX,
    ensures
        ({
            let s = seq![first] + string_octets(h.name, huffman) + string_octets(h.value, huffman)
                + tail;
            &&& s.len() > 0
            &&& s[0] == first
            &&& literal_of(t, s[0], prefix_bits, s.drop_first()) == Ok::<
                (Result<Entry, Seq<char>>, Seq<u8>),
                Seq<char>,
            >((Ok((h.name, h.value)), tail))
        }),
{
    let name = string_octets(h.name, huffman);
    let value = string_octets(h.value, huffman);
    let s = seq![first] + name + value + tail;
    assert(s.drop_first() =~= name + (value + tail));
    assert(low_bits(first, prefix_bits) == 0);
    strings_round_trip(h.name, huffman, value + tail);
    strings_round_trip(h.value, huffman, tail);
}

/// Decoding an encoded field gives the field back and leaves the table the
/// encoder's is left in.
pub proof fn fields_round_trip(
    t: DynModel,
    capacity: nat,
    h: HeaderModel,
    huffman: bool,
    tail: Seq<u8>,
    update_ok: bool,
)
    requires
        t.indexed().len() < u32::MAX,
        written_len(h.name, huffman) <= u32::MAX,
        written_len(h.value, huffman) <= u32::MAX,
    ensures
        field_octets(t, h, huffman).len() > 0,
        rep_of(t, capacity, field_octets(t, h, huffman) + tail, update_ok) == Ok::<
            (Result<Rep, Seq<char>>, DynModel, Seq<u8>),
            Seq<char>,
        >((Ok(Rep::Field(h)), table_after(t, h), tail)),
{
    reveal(rep_of);
    reveal(field_octets);
    lemma_best_match(t, h.name, h.value);
    match best_match(t, h.name, h.value) {
        Match::Full(i) => {
            if h.sensitive {
                lemma_literal_indexed(t, i as nat, 4, 0x10, h, huffman, tail);
            } else {
                integers_round_trip(i as nat, 7, 0x80, tail);
            }
        },
        Match::Name(i) => {
            if h.sensitive {
                lemma_literal_indexed(t, i as nat, 4, 0x10, h, huffman, tail);
            } else {
                lemma_literal_indexed(t, i as nat, 6, 0x40, h, huffman, tail);
            }
        },
        Match::Nothing => {
            if h.sensitive {
                lemma_literal_named(t, 4, 0x10, h, huffman, tail);
            } else {
                lemma_literal_named(t, 6, 0x40, h, huffman, tail);
            }
        },
    }
}

/// What a header list costs against a list limit.
pub open spec fn list_cost(fields: Seq<HeaderModel>) -> nat
    decreases fields.len(),
{
    if fields.len() == 0 {
        0
    } else {
        list_cost(fields.drop_last()) + cost(fields.last().name, fields.last().value)
    }
}

/// Every string of a list is written with a length of 32 bits, which is all that
/// a decoder reads.
pub open spec fn lengths_fit(fields: Seq<HeaderModel>, huffman: bool) -> bool {
    forall|i: int|
        0 <= i < fields.len() ==> written_len((#[trigger] fields[i]).name, huffman) <= u32::MAX
            && written_len(fields[i].value, huffman) <= u32::MAX
}

/// Adding a field or changing the bound keeps a table within its budget.
pub proof fn tables_stay_within_their_budget(
    t: DynModel,
    name: Seq<u8>,
    value: Seq<u8>,
    max_size: nat,
)
    requires
        t.wf(),
    ensures
        t.inserted(name, value).wf(),
        t.inserted(name, value).max_size == t.max_size,
        t.resized(max_size).wf(),
{
    let c = cost(name, value);
    lemma_evicted(t.entries, max_size);
    lemma_evicted(t.entries, 0);
    if c <= t.max_size {
        let target = (t.max_size - c) as nat;
        lemma_evicted(t.entries, target);
        lemma_total_cost_push_front((name, value), evicted(t.entries, target));
    }
}

/// The table a list of fields leaves is within its budget too.
proof fn lemma_fields_wf(t: DynModel, fields: Seq<HeaderModel>, huffman: bool)
    requires
        t.wf(),
    ensures
        fields_octets(t, fields, huffman).1.wf(),
        fields_octets(t, fields, huffman).1.max_size == t.max_size,
    decreases fields.len(),
{
    if fields.len() > 0 {
        lemma_fields_wf(t, fields.drop_last(), huffman);
        let after = fields_octets(t, fields.drop_last(), huffman).1;
        tables_stay_within_their_budget(after, fields.last().name, fields.last().value, 0);
    }
}

/// An encoded field does not start like a size update.
proof fn lemma_field_is_no_update(t: DynModel, h: HeaderModel, huffman: bool, tail: Seq<u8>)
    requires
        t.indexed().len() < u32::MAX,
        written_len(h.name, huffman) <= u32::MAX,
        written_len(h.value, huffman) <= u32::MAX,
    ensures
        (field_octets(t, h, huffman) + tail).len() > 0,
        !starts_update((field_octets(t, h, huffman) + tail)[0]),
{
    reveal(field_octets);
    lemma_best_match(t, h.name, h.value);
    let literal = string_octets(h.value, huffman);
    match best_match(t, h.name, h.value) {
        Match::Full(i) => {
            integers_round_trip(i as nat, 4, 0x10, literal + tail);
            integers_round_trip(i as nat, 7, 0x80, tail);
        },
        Match::Name(i) => {
            integers_round_trip(i as nat, 4, 0x10, literal + tail);
            integers_round_trip(i as nat, 6, 0x40, literal + tail);
        },
        Match::Nothing => {},
    }
}

/// Decoding an encoded list from the middle of a block.
proof fn lemma_fields_decode(
    t: DynModel,
    capacity: nat,
    limit: Option<usize>,
    fields: Seq<HeaderModel>,
    huffman: bool,
    tail: Seq<u8>,
    before: Seq<HeaderModel>,
    total: nat,
    update_ok: bool,
    fault: Option<Seq<char>>,
)
    requires
        t.wf(),
        t.max_size <= u32::MAX,
        lengths_fit(fields, huffman),
    ensures
        block_of(
            t,
            capacity,
            limit,
            fields_octets(t, fields, huffman).0 + tail,
            before,
            total,
            update_ok,
            fault,
        ) == block_of(
            fields_octets(t, fields, huffman).1,
            capacity,
            limit,
            tail,
            before + fields,
            total + list_cost(fields),
            update_ok && fields.len() == 0,
            fault,
        ),
    decreases fields.len(),
{
    if fields.len() == 0 {
        assert(fields_octets(t, fields, huffman).0 + tail =~= tail);
        assert(before + fields =~= before);
    } else {
        let init = fields.drop_last();
        let h = fields.last();
        let (octets, after) = fields_octets(t, init, huffman);
        let field = field_octets(after, h, huffman);
        assert forall|i: int| 0 <= i < init.len() implies written_len(
            (#[trigger] init[i]).name,
            huffman,
        ) <= u32::MAX && written_len(init[i].value, huffman) <= u32::MAX by {
            assert(init[i] == fields[i]);
        }
        assert(h == fields[fields.len() - 1]);
        lemma_fields_decode(
            t,
            capacity,
            limit,
            init,
            huffman,
            field + tail,
            before,
            total,
            update_ok,
            fault,
        );
        assert(fields_octets(t, fields, huffman).0 + tail =~= octets + (field + tail));
        lemma_fields_wf(t, init, huffman);
        lemma_count_bound(after.entries);
        let ok = update_ok && init.len() == 0;
        fields_round_trip(after, capacity, h, huffman, tail, ok);
        lemma_field_is_no_update(after, h, huffman, tail);
        assert((before + init).push(h) =~= before + fields);
    }
}

/// The two tables agree, once the decoder has applied the size updates the
/// encoder still owes it.
pub open spec fn in_step(e: EncoderModel, d: DecoderModel) -> bool {
    match e.pending {
        None => d.table == e.table,
        Some(low) => low <= e.table.max_size <= d.capacity && d.table.resized(low).resized(
            e.table.max_size,
        ) == e.table,
    }
}

/// Evicting to a higher bound after a lower one changes nothing.
proof fn lemma_resized_twice(t: DynModel, low: nat, high: nat)
    requires
        low <= high,
    ensures
        t.resized(low).resized(high).entries == t.resized(low).entries,
{
    lemma_evicted(t.entries, low);
}

/// The size updates an encoder owes bring the decoder's table in step.
proof fn lemma_announced(e: EncoderModel, d: DecoderModel, body: Seq<u8>)
    requires
        in_step(e, d),
        e.table.max_size <= u32::MAX,
    ensures
        block_of(
            d.table,
            d.capacity,
            d.limit,
            e.announced() + body,
            Seq::empty(),
            0,
            true,
            None,
        ) == block_of(e.table, d.capacity, d.limit, body, Seq::empty(), 0, true, None),
{
    match e.pending {
        None => {
            assert(Seq::<u8>::empty() + body =~= body);
        },
        Some(low) => {
            let high = e.table.max_size;
            lemma_resized_twice(d.table, low, high);
            if low == high {
                assert(d.table.resized(low) =~= e.table);
                lemma_update_read(d, d.table, low, body);
            } else {
                let second = int_octets(high, 5, 0x20) + body;
                assert(e.announced() + body =~= int_octets(low, 5, 0x20) + second);
                lemma_update_read(d, d.table, low, second);
                lemma_update_read(d, d.table.resized(low), high, body);
            }
        },
    }
}

/// A size update within the capacity at the front of a block is applied to the
/// table.
proof fn lemma_update_read(d: DecoderModel, t: DynModel, size: nat, body: Seq<u8>)
    requires
        size <= d.capacity,
        size <= u32::MAX,
    ensures
        block_of(
            t,
            d.capacity,
            d.limit,
            int_octets(size, 5, 0x20) + body,
            Seq::empty(),
            0,
            true,
            None,
        ) == block_of(t.resized(size), d.capacity, d.limit, body, Seq::empty(), 0, true, None),
{
    reveal(rep_of);
    let s = int_octets(size, 5, 0x20) + body;
    integers_round_trip(size, 5, 0x20, body);
    lemma_rep_len(t, d.capacity, s, true);
    assert(rep_of(t, d.capacity, s, true) == Ok::<
        (Result<Rep, Seq<char>>, DynModel, Seq<u8>),
        Seq<char>,
    >((Ok(Rep::Resize), t.resized(size), body)));
}

/// Decoding what was encoded gives the header list back, and leaves the two
/// tables in step for the next block, however many blocks went before.
pub proof fn encode_then_decode_is_identity(
    e: EncoderModel,
    d: DecoderModel,
    fields: Seq<HeaderModel>,
)
    requires
        in_step(e, d),
        e.table.wf(),
        e.table.max_size <= u32::MAX,
        lengths_fit(fields, e.huffman),
        d.limit is None || list_cost(fields) <= d.limit->0,
    ensures
        d.decoded(e.encoded(fields).1).1 == Ok::<Seq<HeaderModel>, HpackFault>(fields),
        d.decoded(e.encoded(fields).1).0.table == e.encoded(fields).0.table,
        in_step(e.encoded(fields).0, d.decoded(e.encoded(fields).1).0),
        e.encoded(fields).0.table.wf(),
{
    let (body, after) = fields_octets(e.table, fields, e.huffman);
    lemma_fields_wf(e.table, fields, e.huffman);
    let none = Seq::<HeaderModel>::empty();
    lemma_fields_decode(
        e.table,
        d.capacity,
        d.limit,
        fields,
        e.huffman,
        Seq::empty(),
        none,
        0,
        true,
        None,
    );
    assert(body + Seq::<u8>::empty() =~= body);
    assert(none + fields =~= fields);
    lemma_announced(e, d, body);
}

/// Evicting further later is evicting that far at once.
proof fn lemma_evicted_twice(entries: Seq<Entry>, first: nat, then_to: nat)
    requires
        then_to <= first,
    ensures
        evicted(evicted(entries, first), then_to) == evicted(entries, then_to),
    decreases entries.len(),
{
    if entries.len() > 0 && total_cost(entries) > first {
        lemma_evicted_twice(entries.drop_last(), first, then_to);
    }
}

/// Adopting a new table bound keeps the two tables in step, provided the
/// decoder advertised room for it: whatever bounds came before it and are still
/// unannounced.
pub proof fn a_new_bound_keeps_the_tables_in_step(e: EncoderModel, d: DecoderModel, max_size: nat)
    requires
        in_step(e, d),
        max_size <= d.capacity,
    ensures
        in_step(e.bounded(max_size), d),
{
    if max_size != e.table.max_size {
        match e.pending {
            None => {
                lemma_resized_twice(d.table, max_size, max_size);
            },
            Some(low) => {
                lemma_resized_twice(d.table, low, e.table.max_size);
                if low <= max_size {
                    lemma_resized_twice(d.table, low, max_size);
                } else {
                    lemma_evicted_twice(d.table.entries, low, max_size);
                    lemma_resized_twice(d.table, max_size, max_size);
                }
            },
        }
        assert(in_step(e.bounded(max_size), d));
    }
}

/// Something that happens to an encoder: a list to send, or a new bound on its
/// table.
#[verifier::ext_equal]
pub enum EncoderStep {
    Send(Seq<HeaderModel>),
    Bound(nat),
}

/// The lists among some steps.
pub open spec fn lists_sent(steps: Seq<EncoderStep>) -> Seq<Seq<HeaderModel>>
    decreases steps.len(),
{
    if steps.len() == 0 {
        Seq::empty()
    } else {
        match steps.last() {
            EncoderStep::Send(fields) => lists_sent(steps.drop_last()).push(fields),
            EncoderStep::Bound(_) => lists_sent(steps.drop_last()),
        }
    }
}

/// What happens over one connection: the two ends after it, and what each block
/// was decoded to.
pub open spec fn exchanged(e: EncoderModel, d: DecoderModel, steps: Seq<EncoderStep>) -> (
    EncoderModel,
    DecoderModel,
    Seq<Result<Seq<HeaderModel>, HpackFault>>,
)
    decreases steps.len(),
{
    if steps.len() == 0 {
        (e, d, Seq::empty())
    } else {
        let (e, d, got) = exchanged(e, d, steps.drop_last());
        match steps.last() {
            EncoderStep::Send(fields) => {
                let (e, block) = e.encoded(fields);
                let (d, r) = d.decoded(block);
                (e, d, got.push(r))
            },
            EncoderStep::Bound(max_size) => (e.bounded(max_size), d, got),
        }
    }
}

/// Whether a decoder can follow a step: it has room for the whole list, and
/// advertised room for the bound; and what is written before each string, and of
/// the bound, has 32 bits.
pub open spec fn can_follow(d: DecoderModel, huffman: bool, step: EncoderStep) -> bool {
    match step {
        EncoderStep::Send(fields) => lengths_fit(fields, huffman) && (d.limit is None || list_cost(
            fields,
        ) <= d.limit->0),
        EncoderStep::Bound(max_size) => max_size <= d.capacity && max_size <= u32::MAX,
    }
}

/// The tables of the two ends stay in lockstep over a whole connection, through
/// any interleaving of lists and new bounds: every list arrives as it was sent,
/// and after each the two tables are the same.
pub proof fn tables_stay_in_lockstep(e: EncoderModel, d: DecoderModel, steps: Seq<EncoderStep>)
    requires
        in_step(e, d),
        e.table.wf(),
        e.table.max_size <= d.capacity,
        e.table.max_size <= u32::MAX,
        forall|i: int| 0 <= i < steps.len() ==> can_follow(d, e.huffman, #[trigger] steps[i]),
    ensures
        in_step(exchanged(e, d, steps).0, exchanged(e, d, steps).1),
        exchanged(e, d, steps).2.len() == lists_sent(steps).len(),
        forall|i: int|
            0 <= i < lists_sent(steps).len() ==> #[trigger] exchanged(e, d, steps).2[i] == Ok::<
                Seq<HeaderModel>,
                HpackFault,
            >(lists_sent(steps)[i]),
        steps.len() > 0 && steps.last() is Send ==> exchanged(e, d, steps).0.table == exchanged(
            e,
            d,
            steps,
        ).1.table,
        exchanged(e, d, steps).0.table.wf(),
        exchanged(e, d, steps).0.table.max_size <= d.capacity,
        exchanged(e, d, steps).0.table.max_size <= u32::MAX,
        exchanged(e, d, steps).0.huffman == e.huffman,
        exchanged(e, d, steps).1.limit == d.limit,
        exchanged(e, d, steps).1.capacity == d.capacity,
    decreases steps.len(),
{
    if steps.len() > 0 {
        let init = steps.drop_last();
        assert forall|i: int| 0 <= i < init.len() implies can_follow(
            d,
            e.huffman,
            #[trigger] init[i],
        ) by {
            assert(init[i] == steps[i]);
        }
        tables_stay_in_lockstep(e, d, init);
        let (e1, d1, got) = exchanged(e, d, init);
        assert(can_follow(d, e.huffman, steps[steps.len() - 1]));
        match steps.last() {
            EncoderStep::Send(fields) => {
                encode_then_decode_is_identity(e1, d1, fields);
                lemma_fields_bound(e1.table, fields, e1.huffman);
                assert forall|i: int| 0 <= i < lists_sent(steps).len() implies #[trigger] exchanged(
                    e,
                    d,
                    steps,
                ).2[i] == Ok::<Seq<HeaderModel>, HpackFault>(lists_sent(steps)[i]) by {
                    if i < got.len() {
                        assert(got[i] == Ok::<Seq<HeaderModel>, HpackFault>(
                            lists_sent(init)[i],
                        ));
                    }
                }
            },
            EncoderStep::Bound(max_size) => {
                a_new_bound_keeps_the_tables_in_step(e1, d1, max_size);
                tables_stay_within_their_budget(
                    e1.table,
                    Seq::empty(),
                    Seq::empty(),
                    max_size,
                );
                assert forall|i: int| 0 <= i < lists_sent(steps).len() implies #[trigger] exchanged(
                    e,
                    d,
                    steps,
                ).2[i] == Ok::<Seq<HeaderModel>, HpackFault>(lists_sent(steps)[i]) by {
                    assert(got[i] == Ok::<Seq<HeaderModel>, HpackFault>(lists_sent(init)[i]));
                }
            },
        }
    }
}

/// Encoding fields leaves the table's bound alone.
proof fn lemma_fields_bound(t: DynModel, fields: Seq<HeaderModel>, huffman: bool)
    ensures
        fields_octets(t, fields, huffman).1.max_size == t.max_size,
    decreases fields.len(),
{
    if fields.len() > 0 {
        lemma_fields_bound(t, fields.drop_last(), huffman);
    }
}

/// A sensitive field never enters a table: not the encoder's, and not that of a
/// decoder it is sent to.
pub proof fn sensitive_fields_are_never_stored(
    t: DynModel,
    capacity: nat,
    h: HeaderModel,
    huffman: bool,
    tail: Seq<u8>,
)
    requires
        h.sensitive,
        t.indexed().len() < u32::MAX,
        written_len(h.name, huffman) <= u32::MAX,
        written_len(h.value, huffman) <= u32::MAX,
    ensures
        table_after(t, h) == t,
        rep_of(t, capacity, field_octets(t, h, huffman) + tail, false) == Ok::<
            (Result<Rep, Seq<char>>, DynModel, Seq<u8>),
            Seq<char>,
        >((Ok(Rep::Field(h)), t, tail)),
{
    fields_round_trip(t, capacity, h, huffman, tail, false);
}

/// The fields of a list that may be stored.
pub open spec fn storable(fields: Seq<HeaderModel>) -> Seq<HeaderModel>
    decreases fields.len(),
{
    if fields.len() == 0 {
        Seq::empty()
    } else if fields.last().sensitive {
        storable(fields.drop_last())
    } else {
        storable(fields.drop_last()).push(fields.last())
    }
}

proof fn lemma_storable(t: DynModel, fields: Seq<HeaderModel>, huffman: bool)
    ensures
        fields_octets(t, fields, huffman).1 == fields_octets(t, storable(fields), huffman).1,
    decreases fields.len(),
{
    if fields.len() > 0 {
        lemma_storable(t, fields.drop_last(), huffman);
        if !fields.last().sensitive {
            let kept = storable(fields.drop_last());
            assert(kept.push(fields.last()).drop_last() =~= kept);
        }
    }
}

/// Sensitive fields leave no trace in either table: after a list, both are as if
/// it had been sent without them.
pub proof fn sensitive_fields_leave_no_trace(
    e: EncoderModel,
    d: DecoderModel,
    fields: Seq<HeaderModel>,
)
    requires
        in_step(e, d),
        e.table.wf(),
        e.table.max_size <= u32::MAX,
        lengths_fit(fields, e.huffman),
        d.limit is None || list_cost(fields) <= d.limit->0,
    ensures
        e.encoded(fields).0.table == e.encoded(storable(fields)).0.table,
        d.decoded(e.encoded(fields).1).0.table == e.encoded(storable(fields)).0.table,
{
    lemma_storable(e.table, fields, e.huffman);
    encode_then_decode_is_identity(e, d, fields);
}

/// The list limit decides only whether the list is handed out, and what went
/// wrong only whether there is one: the table a block leaves is the same
/// without either.
pub proof fn neither_limits_nor_faults_touch_the_table(
    t: DynModel,
    capacity: nat,
    limit: Option<usize>,
    s: Seq<u8>,
    fields: Seq<HeaderModel>,
    total: nat,
    update_ok: bool,
    fault: Option<Seq<char>>,
)
    ensures
        block_of(t, capacity, limit, s, fields, total, update_ok, fault).0 == block_of(
            t,
            capacity,
            None,
            s,
            fields,
            total,
            update_ok,
            None,
        ).0,
    decreases s.len(),
{
    table_is_apart_from_the_list(
        t,
        capacity,
        limit,
        None,
        s,
        fields,
        fields,
        total,
        total,
        update_ok,
        fault,
        None,
    );
}

/// The table a block leaves depends on its octets alone.
proof fn table_is_apart_from_the_list(
    t: DynModel,
    capacity: nat,
    limit: Option<usize>,
    other_limit: Option<usize>,
    s: Seq<u8>,
    fields: Seq<HeaderModel>,
    other_fields: Seq<HeaderModel>,
    total: nat,
    other_total: nat,
    update_ok: bool,
    fault: Option<Seq<char>>,
    other_fault: Option<Seq<char>>,
)
    ensures
        block_of(t, capacity, limit, s, fields, total, update_ok, fault).0 == block_of(
            t,
            capacity,
            other_limit,
            s,
            other_fields,
            other_total,
            update_ok,
            other_fault,
        ).0,
    decreases s.len(),
{
    if s.len() > 0 {
        if let Ok((rep, after, rest)) = rep_of(t, capacity, s, update_ok) {
            if rest.len() < s.len() {
                let ok = update_ok && starts_update(s[0]);
                let (f, g, c, d, a, b) = match rep {
                    Ok(Rep::Resize) => (fields, other_fields, total, other_total, fault, other_fault),
                    Ok(Rep::Field(h)) => (
                        fields.push(h),
                        other_fields.push(h),
                        total + cost(h.name, h.value),
                        other_total + cost(h.name, h.value),
                        fault,
                        other_fault,
                    ),
                    Err(why) => (
                        fields,
                        other_fields,
                        total,
                        other_total,
                        Some(earlier(fault, why)),
                        Some(earlier(other_fault, why)),
                    ),
                };
                table_is_apart_from_the_list(
                    after,
                    capacity,
                    limit,
                    other_limit,
                    rest,
                    f,
                    g,
                    c,
                    d,
                    ok,
                    a,
                    b,
                );
            }
        }
    }
}

/// A representation at fault condemns its block but hides nothing behind it:
/// the table is left as by the octets after it.
pub proof fn a_fault_does_not_stop_a_block(d: DecoderModel, s: Seq<u8>, why: Seq<char>, rest: Seq<u8>)
    requires
        s.len() > 0,
        rep_of(d.table, d.capacity, s, true) == Ok::<
            (Result<Rep, Seq<char>>, DynModel, Seq<u8>),
            Seq<char>,
        >((Err(why), d.table, rest)),
    ensures
        d.decoded(s).0.table == block_of(
            d.table,
            d.capacity,
            None,
            rest,
            Seq::empty(),
            0,
            starts_update(s[0]),
            None,
        ).0,
        d.decoded(s).1 == Err::<Seq<HeaderModel>, HpackFault>(HpackFault::Compression(why)),
{
    let none = Seq::<HeaderModel>::empty();
    lemma_rep_len(d.table, d.capacity, s, true);
    neither_limits_nor_faults_touch_the_table(
        d.table,
        d.capacity,
        d.limit,
        rest,
        none,
        0,
        starts_update(s[0]),
        Some(why),
    );
    the_first_fault_is_reported(
        d.table,
        d.capacity,
        d.limit,
        rest,
        none,
        0,
        starts_update(s[0]),
        why,
    );
}

/// Once something is wrong with a block it is reported, whatever follows.
pub proof fn the_first_fault_is_reported(
    t: DynModel,
    capacity: nat,
    limit: Option<usize>,
    s: Seq<u8>,
    fields: Seq<HeaderModel>,
    total: nat,
    update_ok: bool,
    why: Seq<char>,
)
    ensures
        block_of(t, capacity, limit, s, fields, total, update_ok, Some(why)).1 == Err::<
            Seq<HeaderModel>,
            HpackFault,
        >(HpackFault::Compression(why)),
    decreases s.len(),
{
    if s.len() > 0 {
        lemma_rep_len(t, capacity, s, update_ok);
        if let Ok((rep, after, rest)) = rep_of(t, capacity, s, update_ok) {
            let ok = update_ok && starts_update(s[0]);
            match rep {
                Ok(Rep::Field(h)) => the_first_fault_is_reported(
                    after,
                    capacity,
                    limit,
                    rest,
                    fields.push(h),
                    total + cost(h.name, h.value),
                    ok,
                    why,
                ),
                _ => the_first_fault_is_reported(
                    after,
                    capacity,
                    limit,
                    rest,
                    fields,
                    total,
                    ok,
                    why,
                ),
            }
        }
    }
}

/// Whatever block arrives, the decoder's table stays within the capacity we
/// advertised.
pub proof fn no_block_grows_the_table_past_its_capacity(
    t: DynModel,
    capacity: nat,
    limit: Option<usize>,
    s: Seq<u8>,
    fields: Seq<HeaderModel>,
    total: nat,
    update_ok: bool,
    fault: Option<Seq<char>>,
)
    requires
        t.wf(),
        t.max_size <= capacity,
    ensures
        block_of(t, capacity, limit, s, fields, total, update_ok, fault).0.wf(),
        block_of(t, capacity, limit, s, fields, total, update_ok, fault).0.max_size <= capacity,
    decreases s.len(),
{
    reveal(rep_of);
    if s.len() > 0 {
        if let Ok((rep, after, rest)) = rep_of(t, capacity, s, update_ok) {
            if rest.len() < s.len() {
                let ok = update_ok && starts_update(s[0]);
                match rep {
                    Err(why) => no_block_grows_the_table_past_its_capacity(
                        after,
                        capacity,
                        limit,
                        rest,
                        fields,
                        total,
                        ok,
                        Some(earlier(fault, why)),
                    ),
                    Ok(Rep::Resize) => {
                        tables_stay_within_their_budget(
                            t,
                            Seq::empty(),
                            Seq::empty(),
                            after.max_size,
                        );
                        no_block_grows_the_table_past_its_capacity(
                            after,
                            capacity,
                            limit,
                            rest,
                            fields,
                            total,
                            ok,
                            fault,
                        );
                    },
                    Ok(Rep::Field(h)) => {
                        tables_stay_within_their_budget(t, h.name, h.value, 0);
                        no_block_grows_the_table_past_its_capacity(
                            after,
                            capacity,
                            limit,
                            rest,
                            fields.push(h),
                            total + cost(h.name, h.value),
                            ok,
                            fault,
                        );
                    },
                }
            }
        }
    }
}

/// Room is made by dropping the oldest entries, and no more of them than must
/// go: what stays is the newest, in order, and one more would not have fitted.
pub proof fn the_oldest_entries_make_room(t: DynModel, name: Seq<u8>, value: Seq<u8>, size: nat)
    ensures
        cost(name, value) == name.len() + value.len() + 32,
        cost(name, value) <= t.max_size ==> {
            let n = t.inserted(name, value);
            let kept = n.entries.skip(1);
            &&& n.max_size == t.max_size
            &&& n.entries.len() >= 1 && n.entries[0] == (name, value)
            &&& kept.is_prefix_of(t.entries)
            &&& total_cost(n.entries) <= t.max_size
            &&& kept.len() < t.entries.len() ==> cost(name, value) + total_cost(
                t.entries.take(kept.len() as int + 1),
            ) > t.max_size
        },
        cost(name, value) > t.max_size ==> t.inserted(name, value).entries.len() == 0,
        ({
            let n = t.resized(size);
            &&& n.max_size == size
            &&& n.entries.is_prefix_of(t.entries)
            &&& total_cost(n.entries) <= size
            &&& n.entries.len() < t.entries.len() ==> total_cost(
                t.entries.take(n.entries.len() as int + 1),
            ) > size
        }),
{
    lemma_evicted_maximal(t.entries, size);
    lemma_evicted_maximal(t.entries, 0);
    if cost(name, value) <= t.max_size {
        let room = (t.max_size - cost(name, value)) as nat;
        lemma_evicted_maximal(t.entries, room);
        let n = t.inserted(name, value);
        let kept = evicted(t.entries, room);
        assert(n.entries.skip(1) =~= kept);
        lemma_cost_in_front((name, value), kept);
    } else if evicted(t.entries, 0).len() > 0 {
        assert(total_cost(evicted(t.entries, 0)) > 0);
    }
}

proof fn lemma_evicted_maximal(entries: Seq<Entry>, target: nat)
    ensures
        evicted(entries, target).is_prefix_of(entries),
        total_cost(evicted(entries, target)) <= target,
        evicted(entries, target).len() < entries.len() ==> total_cost(
            entries.take(evicted(entries, target).len() as int + 1),
        ) > target,
    decreases entries.len(),
{
    if entries.len() > 0 && total_cost(entries) > target {
        let init = entries.drop_last();
        lemma_evicted_maximal(init, target);
        let k = evicted(init, target).len() as int;
        if k < init.len() {
            assert(entries.take(k + 1) =~= init.take(k + 1));
        } else {
            assert(entries.take(k + 1) =~= entries);
        }
    } else {
        assert(evicted(entries, target) =~= entries);
    }
}

proof fn lemma_cost_in_front(e: Entry, entries: Seq<Entry>)
    ensures
        total_cost(seq![e] + entries) == cost(e.0, e.1) + total_cost(entries),
    decreases entries.len(),
{
    if entries.len() == 0 {
        assert(seq![e] + entries =~= seq![e]);
        assert(seq![e].drop_last() =~= entries);
        assert(total_cost(entries) == 0);
        assert(total_cost(seq![e]) == total_cost(entries) + cost(e.0, e.1));
    } else {
        assert((seq![e] + entries).drop_last() =~= seq![e] + entries.drop_last());
        assert((seq![e] + entries).last() == entries.last());
        lemma_cost_in_front(e, entries.drop_last());
    }
}

/// The newest entry has the lowest index behind the static ones.
pub proof fn the_newest_entry_comes_first(t: DynModel, name: Seq<u8>, value: Seq<u8>, index: nat)
    requires
        index >= 1,
    ensures
        index <= static_entries().len() ==> t.entry(index) == Ok::<Entry, Seq<char>>(
            static_entries()[index - 1],
        ),
        cost(name, value) <= t.max_size ==> t.inserted(name, value).entry(
            static_entries().len() + 1,
        ) == Ok::<Entry, Seq<char>>((name, value)),
        cost(name, value) <= t.max_size && index > static_entries().len() && index
            < t.inserted(name, value).indexed().len() ==> t.inserted(name, value).entry(index + 1)
            == t.entry(index),
        index > static_entries().len() + t.entries.len() ==> t.entry(index) is Err,
{
    if cost(name, value) <= t.max_size {
        lemma_evicted_maximal(t.entries, (t.max_size - cost(name, value)) as nat);
    }
}

/// A table entry is used where there is one: the whole field if it is there, its
/// name otherwise.
pub proof fn the_best_match_is_found(t: DynModel, name: Seq<u8>, value: Seq<u8>)
    requires
        t.indexed().len() < usize::MAX,
    ensures
        match best_match(t, name, value) {
            Match::Full(i) => t.entry(i as nat) == Ok::<Entry, Seq<char>>((name, value)),
            Match::Name(i) => t.entry(i as nat) is Ok && t.entry(i as nat)->Ok_0.0 == name
                && !t.indexed().contains((name, value)),
            Match::Nothing => forall|k: int|
                0 <= k < t.indexed().len() ==> (#[trigger] t.indexed()[k]).0 != name,
        },
{
    lemma_first_field_found(t.indexed(), name, value, 0);
    lemma_first_name_found(t.indexed(), name, 0);
    reveal(best_match);
}

proof fn lemma_first_field_found(entries: Seq<Entry>, name: Seq<u8>, value: Seq<u8>, from: int)
    requires
        0 <= from <= entries.len(),
    ensures
        match first_field(entries, name, value, from) {
            Some(i) => from <= i < entries.len() && entries[i] == (name, value),
            None => forall|k: int|
                from <= k < entries.len() ==> #[trigger] entries[k] != (name, value),
        },
    decreases entries.len() - from,
{
    if from < entries.len() {
        lemma_first_field_found(entries, name, value, from + 1);
    }
}

proof fn lemma_first_name_found(entries: Seq<Entry>, name: Seq<u8>, from: int)
    requires
        0 <= from <= entries.len(),
    ensures
        match first_name(entries, name, from) {
            Some(i) => from <= i < entries.len() && entries[i].0 == name,
            None => forall|k: int|
                from <= k < entries.len() ==> (#[trigger] entries[k]).0 != name,
        },
    decreases entries.len() - from,
{
    if from < entries.len() {
        lemma_first_name_found(entries, name, from + 1);
    }
}

/// A list over the limit is refused with its size, and one within it is not: a
/// decoder with a limit reads what one without reads, or says how large it is.
pub proof fn a_list_over_the_limit_is_refused(d: DecoderModel, block: Seq<u8>, limit: usize)
    ensures
        ({
            let free = DecoderModel { limit: None, ..d }.decoded(block);
            let bound = DecoderModel { limit: Some(limit), ..d }.decoded(block);
            &&& bound.0.table == free.0.table
            &&& free.1 matches Err(e) ==> bound.1 == free.1
            &&& free.1 matches Ok(fields) ==> bound.1 == (if list_cost(fields) > limit {
                Err::<Seq<HeaderModel>, HpackFault>(
                    HpackFault::HeaderListTooLarge { size: cap_usize(list_cost(fields)), limit },
                )
            } else {
                Ok(fields)
            })
        }),
{
    lemma_limit(d.table, d.capacity, limit, block, Seq::empty(), 0, true, None);
}

proof fn lemma_limit(
    t: DynModel,
    capacity: nat,
    limit: usize,
    s: Seq<u8>,
    fields: Seq<HeaderModel>,
    total: nat,
    update_ok: bool,
    fault: Option<Seq<char>>,
)
    requires
        total == list_cost(fields),
    ensures
        ({
            let free = block_of(t, capacity, None, s, fields, total, update_ok, fault);
            let bound = block_of(t, capacity, Some(limit), s, fields, total, update_ok, fault);
            &&& bound.0 == free.0
            &&& free.1 matches Err(e) ==> bound.1 == free.1
            &&& free.1 matches Ok(fields) ==> bound.1 == (if list_cost(fields) > limit {
                Err::<Seq<HeaderModel>, HpackFault>(
                    HpackFault::HeaderListTooLarge { size: cap_usize(list_cost(fields)), limit },
                )
            } else {
                Ok(fields)
            })
        }),
    decreases s.len(),
{
    if s.len() > 0 {
        lemma_rep_len(t, capacity, s, update_ok);
        if let Ok((rep, after, rest)) = rep_of(t, capacity, s, update_ok) {
            if rest.len() < s.len() {
                let ok = update_ok && starts_update(s[0]);
                match rep {
                    Err(why) => {
                        lemma_limit(
                            after,
                            capacity,
                            limit,
                            rest,
                            fields,
                            total,
                            ok,
                            Some(earlier(fault, why)),
                        );
                    },
                    Ok(Rep::Resize) => {
                        lemma_limit(after, capacity, limit, rest, fields, total, ok, fault);
                    },
                    Ok(Rep::Field(h)) => {
                        assert(fields.push(h).drop_last() =~= fields);
                        lemma_limit(
                            after,
                            capacity,
                            limit,
                            rest,
                            fields.push(h),
                            total + cost(h.name, h.value),
                            ok,
                            fault,
                        );
                    },
                }
            }
        }
    }
}

} // verus!
