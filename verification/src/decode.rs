//! Decoding: from text in either alphabet back to bytes.

use crate::alphabet::{sextet, PAD};
use crate::table::{build_decode_table, is_decode_table};
use crate::text::{
    is_line_break_byte, lemma_line_breaks_in_utf8, without_line_break_bytes, without_line_breaks,
};
use vstd::prelude::*;
use vstd::utf8::{decode_utf8, encode_utf8, valid_utf8};

verus! {

/// The bytes that a group of four symbols stands for. The four 6-bit values are packed
/// into a 24-bit number, the first in the highest place, and the number is cut into three
/// bytes. The first byte is always there; the second is left out where the third symbol
/// is the padding symbol, the third where the fourth symbol is.
#[verifier::opaque]
pub open spec fn decode_group(c0: u8, c1: u8, c2: u8, c3: u8) -> Seq<u8> {
    let n = sextet(c0) * 0x4_0000 + sextet(c1) * 0x1000 + sextet(c2) * 0x40 + sextet(c3);
    let first = seq![(n / 0x1_0000) as u8];
    let second = if c2 != PAD {
        seq![(n / 0x100 % 0x100) as u8]
    } else {
        Seq::empty()
    };
    let third = if c3 != PAD {
        seq![(n % 0x100) as u8]
    } else {
        Seq::empty()
    };
    first + second + third
}

/// The bytes that a sequence of symbols stands for, group of four by group of four.
/// Symbols at the end that do not fill a group stand for nothing.
pub open spec fn decode_symbols(symbols: Seq<u8>) -> Seq<u8>
    decreases symbols.len(),
{
    if symbols.len() < 4 {
        Seq::empty()
    } else {
        decode_group(symbols[0], symbols[1], symbols[2], symbols[3]) + decode_symbols(
            symbols.skip(4),
        )
    }
}

/// The bytes that a text stands for: its line breaks are taken out, and what is left is
/// read by its UTF-8 bytes, a symbol each, group of four by group of four.
pub open spec fn decode_text(text: Seq<char>) -> Seq<u8> {
    decode_symbols(encode_utf8(without_line_breaks(text)))
}

/// The text that `String::from_utf8_lossy` makes of a byte sequence.
pub uninterp spec fn utf8_lossy(bytes: Seq<u8>) -> Seq<char>;

/// The text that bytes are read as: the text they are the UTF-8 encoding of, where they
/// are one, and otherwise what the lossy conversion makes of them, which puts U+FFFD
/// in place of what is not valid.
pub open spec fn lossy_text(bytes: Seq<u8>) -> Seq<char> {
    if valid_utf8(bytes) {
        decode_utf8(bytes)
    } else {
        utf8_lossy(bytes)
    }
}

/// Decoding goes group by group: behind a whole number of groups the rest is decoded
/// on its own.
pub proof fn lemma_decode_symbols_concat(head: Seq<u8>, tail: Seq<u8>)
    requires
        head.len() % 4 == 0,
    ensures
        decode_symbols(head + tail) == decode_symbols(head) + decode_symbols(tail),
    decreases head.len(),
{
    if head.len() > 0 {
        lemma_decode_symbols_concat(head.skip(4), tail);
        assert((head + tail).skip(4) =~= head.skip(4) + tail);
    }
}

/// The bytes of the first `k + 1` groups are the bytes of the first `k` groups and those
/// of the group that follows them.
pub proof fn lemma_decode_symbols_next_group(symbols: Seq<u8>, k: int)
    requires
        0 <= k,
        4 * k + 4 <= symbols.len(),
    ensures
        decode_symbols(symbols.take(4 * k + 4)) == decode_symbols(symbols.take(4 * k))
            + decode_group(
            symbols[4 * k],
            symbols[4 * k + 1],
            symbols[4 * k + 2],
            symbols[4 * k + 3],
        ),
{
    let done = symbols.take(4 * k);
    let group = symbols.subrange(4 * k, 4 * k + 4);
    lemma_decode_symbols_concat(done, group);
    assert(done + group =~= symbols.take(4 * k + 4));
    assert(decode_symbols(group.skip(4)) =~= Seq::<u8>::empty());
}

/// Copies the bytes that are no line breaks.
fn strip_line_breaks(raw: &[u8]) -> (symbols: Vec<u8>)
    ensures
        symbols@ == without_line_break_bytes(raw@),
{
    let mut symbols: Vec<u8> = Vec::new();
    let mut i: usize = 0;
    assert(raw@.take(0).filter(|b: u8| !is_line_break_byte(b)) =~= Seq::<u8>::empty()) by {
        reveal(Seq::filter);
    }
    while i < raw.len()
        invariant
            i <= raw.len(),
            symbols@ == without_line_break_bytes(raw@.take(i as int)),
        decreases raw.len() - i,
    {
        let b: u8 = raw[i];
        proof {
            raw@.take(i as int).lemma_filter_push(b, |b: u8| !is_line_break_byte(b));
            assert(raw@.take(i as int).push(b) =~= raw@.take(i + 1));
        }
        if b != 0x0d && b != 0x0a {
            symbols.push(b);
        }
        i += 1;
    }
    assert(raw@.take(raw.len() as int) =~= raw@);
    symbols
}

/// Looks up the 6-bit value of a symbol.
fn sextet_of(table: &[u8; 256], b: u8) -> (v: u32)
    requires
        is_decode_table(*table),
    ensures
        v == sextet(b),
        v < 64,
{
    table[b as usize] as u32
}

/// Appends the bytes of one group of four symbols.
fn push_decoded_group(
    bytes: &mut Vec<u8>,
    table: &[u8; 256],
    c0: u8,
    c1: u8,
    c2: u8,
    c3: u8,
)
    requires
        is_decode_table(*table),
    ensures
        final(bytes)@ == old(bytes)@ + decode_group(c0, c1, c2, c3),
{
    proof {
        reveal(decode_group);
    }
    let v0: u32 = sextet_of(table, c0);
    let v1: u32 = sextet_of(table, c1);
    let v2: u32 = sextet_of(table, c2);
    let v3: u32 = sextet_of(table, c3);
    let n: u32 = (v0 << 18) | (v1 << 12) | (v2 << 6) | v3;
    assert(n == v0 * 0x4_0000 + v1 * 0x1000 + v2 * 0x40 + v3
        && (n >> 16) & 0xff == n / 0x1_0000
        && (n >> 8) & 0xff == n / 0x100 % 0x100
        && n & 0xff == n % 0x100) by (bit_vector)
        requires
            n == (v0 << 18) | (v1 << 12) | (v2 << 6) | v3,
            v0 < 64,
            v1 < 64,
            v2 < 64,
            v3 < 64,
    ;
    bytes.push(((n >> 16) & 0xff) as u8);
    if c2 != PAD {
        bytes.push(((n >> 8) & 0xff) as u8);
    }
    if c3 != PAD {
        bytes.push((n & 0xff) as u8);
    }
}

/// Decodes symbols, group of four by group of four.
fn decode_groups(symbols: &[u8]) -> (bytes: Vec<u8>)
    ensures
        bytes@ == decode_symbols(symbols@),
{
    let table = build_decode_table();
    let mut bytes: Vec<u8> = Vec::new();
    let cnt: usize = symbols.len() / 4;
    let mut i: usize = 0;
    while i < cnt
        invariant
            cnt == symbols.len() / 4,
            i <= cnt,
            is_decode_table(table),
            bytes@ == decode_symbols(symbols@.take(4 * i)),
        decreases cnt - i,
    {
        let at: usize = i * 4;
        push_decoded_group(
            &mut bytes,
            &table,
            symbols[at],
            symbols[at + 1],
            symbols[at + 2],
            symbols[at + 3],
        );
        proof {
            lemma_decode_symbols_next_group(symbols@, i as int);
        }
        i += 1;
    }
    proof {
        let done = symbols@.take(4 * cnt);
        let tail = symbols@.skip(4 * cnt);
        lemma_decode_symbols_concat(done, tail);
        assert(done + tail =~= symbols@);
    }
    bytes
}

/// Calls `String::from_utf8_lossy`. Trusted, not proved: the result is a function of the
/// bytes alone; bytes that are valid UTF-8 come back as the text they encode; and where
/// they are not valid, U+FFFD stands in the result in place of what is not.
#[verifier::external_body]
fn string_from_utf8_lossy(bytes: &[u8]) -> (text: String)
    ensures
        text@ == utf8_lossy(bytes@),
        valid_utf8(bytes@) ==> text@ == decode_utf8(bytes@),
        !valid_utf8(bytes@) ==> text@.contains('\u{fffd}'),
{
    String::from_utf8_lossy(bytes).into_owned()
}

/// Decodes Base64 text to bytes. Carriage returns and line feeds are passed over, both
/// alphabets are read, a byte that is no symbol counts as the value 0, and what does not
/// fill a last group of four is left out. No text is refused.
pub fn base64_decode(b64str: &str) -> (bytes: Vec<u8>)
    ensures
        bytes@ == decode_text(b64str@),
{
    let symbols = strip_line_breaks(b64str.as_bytes());
    proof {
        lemma_line_breaks_in_utf8(b64str@);
    }
    decode_groups(symbols.as_slice())
}

/// Decodes Base64 text and reads the bytes as UTF-8 text, with U+FFFD in place of what
/// is not valid UTF-8.
pub fn base64_decode_str(b64str: &str) -> (text: String)
    ensures
        text@ == lossy_text(decode_text(b64str@)),
        !valid_utf8(decode_text(b64str@)) ==> text@.contains('\u{fffd}'),
{
    let bytes = base64_decode(b64str);
    string_from_utf8_lossy(bytes.as_slice())
}

} // verus!
