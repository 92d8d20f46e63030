//! Encoding: from bytes to text, in the standard alphabet and in the URL-safe one.

use crate::alphabet::{lemma_alphabet, symbol, url_safe_char, ALPHABET};
use crate::text::{is_line_break, lemma_filter_keeps_all, without_line_breaks};
use vstd::prelude::*;
use vstd::string::*;
use vstd::utf8::{encode_utf8, is_ascii_chars, is_ascii_chars_encode_utf8};

verus! {

/// The 24-bit number that packs three bytes, the first byte in the highest place.
pub open spec fn pack_bytes(b0: u8, b1: u8, b2: u8) -> int {
    b0 * 0x1_0000 + b1 * 0x100 + b2
}

/// The four symbols of a group of three bytes: one for each 6-bit field of the packed
/// number, from bits 23-18 down to bits 5-0.
#[verifier::opaque]
pub open spec fn encode_group(b0: u8, b1: u8, b2: u8) -> Seq<char> {
    let n = pack_bytes(b0, b1, b2);
    seq![
        symbol(n / 0x4_0000 % 64),
        symbol(n / 0x1000 % 64),
        symbol(n / 0x40 % 64),
        symbol(n % 64),
    ]
}

/// The encoded text of a byte sequence. Every full group of three bytes gives four
/// symbols. One byte left over gives two symbols and `==`, two bytes left over give
/// three symbols and `=`; the missing bytes count as 0.
pub open spec fn encode_text(bytes: Seq<u8>) -> Seq<char>
    decreases bytes.len(),
{
    if bytes.len() == 0 {
        Seq::empty()
    } else if bytes.len() == 1 {
        encode_group(bytes[0], 0, 0).take(2) + seq!['=', '=']
    } else if bytes.len() == 2 {
        encode_group(bytes[0], bytes[1], 0).take(3) + seq!['=']
    } else {
        encode_group(bytes[0], bytes[1], bytes[2]) + encode_text(bytes.skip(3))
    }
}

/// A text with every `+` turned into `-` and every `/` into `_`.
pub open spec fn url_safe(text: Seq<char>) -> Seq<char> {
    text.map_values(|c: char| url_safe_char(c))
}

/// True for the characters that an encoded text is made of: the 64 symbols of the
/// standard alphabet and the padding symbol.
pub open spec fn is_encoded_char(c: char) -> bool {
    'A' <= c <= 'Z' || 'a' <= c <= 'z' || '0' <= c <= '9' || c == '+' || c == '/' || c == '='
}

/// A group has four symbols, each of them a character of the alphabet and none the
/// padding symbol.
pub proof fn lemma_encode_group_chars(b0: u8, b1: u8, b2: u8)
    ensures
        encode_group(b0, b1, b2).len() == 4,
        forall|i: int| 0 <= i < 4 ==> is_encoded_char(#[trigger] encode_group(b0, b1, b2)[i]),
        forall|i: int| 0 <= i < 4 ==> #[trigger] encode_group(b0, b1, b2)[i] != '=',
{
    reveal(encode_group);
    lemma_alphabet();
}

/// An encoded text has four characters for every three bytes begun.
pub proof fn lemma_encode_text_len(bytes: Seq<u8>)
    ensures
        encode_text(bytes).len() == 4 * ((bytes.len() + 2) / 3),
    decreases bytes.len(),
{
    if bytes.len() == 1 {
        lemma_encode_group_chars(bytes[0], 0, 0);
    } else if bytes.len() == 2 {
        lemma_encode_group_chars(bytes[0], bytes[1], 0);
    } else if bytes.len() >= 3 {
        lemma_encode_group_chars(bytes[0], bytes[1], bytes[2]);
        lemma_encode_text_len(bytes.skip(3));
    }
}

/// Every character of an encoded text is a symbol of the alphabet or the padding
/// symbol, so the text is ASCII.
pub proof fn lemma_encode_text_chars(bytes: Seq<u8>)
    ensures
        forall|i: int|
            0 <= i < encode_text(bytes).len() ==> is_encoded_char(#[trigger] encode_text(bytes)[i]),
        is_ascii_chars(encode_text(bytes)),
    decreases bytes.len(),
{
    if bytes.len() == 1 {
        lemma_encode_group_chars(bytes[0], 0, 0);
    } else if bytes.len() == 2 {
        lemma_encode_group_chars(bytes[0], bytes[1], 0);
    } else if bytes.len() >= 3 {
        lemma_encode_group_chars(bytes[0], bytes[1], bytes[2]);
        lemma_encode_text_chars(bytes.skip(3));
    }
}

/// An encoded text holds no line break.
pub proof fn lemma_encode_text_has_no_line_break(bytes: Seq<u8>)
    ensures
        without_line_breaks(encode_text(bytes)) == encode_text(bytes),
{
    lemma_encode_text_chars(bytes);
    lemma_filter_keeps_all(encode_text(bytes), |c: char| !is_line_break(c));
}

/// Encoding goes group by group: behind a whole number of groups the rest is encoded
/// on its own.
pub proof fn lemma_encode_text_concat(head: Seq<u8>, tail: Seq<u8>)
    requires
        head.len() % 3 == 0,
    ensures
        encode_text(head + tail) == encode_text(head) + encode_text(tail),
    decreases head.len(),
{
    if head.len() > 0 {
        lemma_encode_text_concat(head.skip(3), tail);
        assert((head + tail).skip(3) =~= head.skip(3) + tail);
    }
}

/// The text of bytes is the text of their full groups and then, where one or two bytes
/// are left over, the symbols of the bytes left over and the padding.
pub proof fn lemma_encode_text_tail(bytes: Seq<u8>)
    ensures
        ({
            let full = (bytes.len() / 3 * 3) as int;
            let done = encode_text(bytes.take(full));
            encode_text(bytes) == if bytes.len() % 3 == 0 {
                done
            } else if bytes.len() % 3 == 1 {
                done + encode_group(bytes[full], 0, 0).take(2) + seq!['=', '=']
            } else {
                done + encode_group(bytes[full], bytes[full + 1], 0).take(3) + seq!['=']
            }
        }),
{
    let full = (bytes.len() / 3 * 3) as int;
    lemma_encode_text_concat(bytes.take(full), bytes.skip(full));
    assert(bytes.take(full) + bytes.skip(full) =~= bytes);
}

/// The text of the first `k + 1` groups is the text of the first `k` groups and the
/// symbols of the group that follows them.
pub proof fn lemma_encode_text_next_group(bytes: Seq<u8>, k: int)
    requires
        0 <= k,
        3 * k + 3 <= bytes.len(),
    ensures
        encode_text(bytes.take(3 * k + 3)) == encode_text(bytes.take(3 * k)) + encode_group(
            bytes[3 * k],
            bytes[3 * k + 1],
            bytes[3 * k + 2],
        ),
{
    let done = bytes.take(3 * k);
    let group = bytes.subrange(3 * k, 3 * k + 3);
    lemma_encode_text_concat(done, group);
    assert(done + group =~= bytes.take(3 * k + 3));
    assert(encode_text(group.skip(3)) =~= Seq::<char>::empty());
}

/// Appends the symbol of the 6-bit value `v`.
fn push_symbol(text: &mut String, v: u32)
    requires
        v < 64,
    ensures
        final(text)@ == old(text)@.push(symbol(v as int)),
{
    proof {
        lemma_alphabet();
    }
    let at: usize = v as usize;
    let one = ALPHABET.substring_ascii(at, at + 1);
    text.append(one);
}

/// Appends the first `count` symbols of the group of `b0`, `b1` and `b2`.
fn push_group(text: &mut String, b0: u8, b1: u8, b2: u8, count: usize)
    requires
        2 <= count <= 4,
    ensures
        final(text)@ == old(text)@ + encode_group(b0, b1, b2).take(count as int),
{
    proof {
        reveal(encode_group);
    }
    let n: u32 = ((b0 as u32) << 16) | ((b1 as u32) << 8) | (b2 as u32);
    assert(n == b0 as u32 * 0x1_0000 + b1 as u32 * 0x100 + b2 as u32
        && (n >> 18) & 0x3f == n / 0x4_0000 % 64
        && (n >> 12) & 0x3f == n / 0x1000 % 64
        && (n >> 6) & 0x3f == n / 0x40 % 64
        && n & 0x3f == n % 64) by (bit_vector)
        requires
            n == ((b0 as u32) << 16) | ((b1 as u32) << 8) | (b2 as u32),
    ;
    push_symbol(text, (n >> 18) & 0x3f);
    push_symbol(text, (n >> 12) & 0x3f);
    if count > 2 {
        push_symbol(text, (n >> 6) & 0x3f);
    }
    if count > 3 {
        push_symbol(text, n & 0x3f);
    }
}

/// Encodes bytes as Base64 text in the standard alphabet, padded with `=` to a whole
/// number of four-symbol groups.
pub fn base64_encode_bytes(in_bytes: &[u8]) -> (text: String)
    ensures
        text@ == encode_text(in_bytes@),
        text@.len() == 4 * ((in_bytes@.len() + 2) / 3),
{
    let mut text = String::new();
    let cnt: usize = in_bytes.len() / 3;
    let mut i: usize = 0;
    while i < cnt
        invariant
            cnt == in_bytes.len() / 3,
            i <= cnt,
            text@ == encode_text(in_bytes@.take(3 * i)),
        decreases cnt - i,
    {
        let n: usize = i * 3;
        push_group(&mut text, in_bytes[n], in_bytes[n + 1], in_bytes[n + 2], 4);
        proof {
            lemma_encode_text_next_group(in_bytes@, i as int);
            lemma_encode_group_chars(in_bytes@[3 * i], in_bytes@[3 * i + 1], in_bytes@[3 * i + 2]);
        }
        i += 1;
    }
    let start: usize = cnt * 3;
    let rest: usize = in_bytes.len() % 3;
    if rest == 1 {
        push_group(&mut text, in_bytes[start], 0, 0, 2);
        text.append("==");
    } else if rest == 2 {
        push_group(&mut text, in_bytes[start], in_bytes[start + 1], 0, 3);
        text.append("=");
    }
    proof {
        reveal_strlit("==");
        reveal_strlit("=");
        lemma_encode_text_tail(in_bytes@);
        lemma_encode_text_len(in_bytes@);
    }
    text
}

/// Encodes the UTF-8 bytes of a string as Base64 text in the standard alphabet.
pub fn base64_encode(in_str: &str) -> (text: String)
    ensures
        text@ == encode_text(encode_utf8(in_str@)),
{
    base64_encode_bytes(in_str.as_bytes())
}

/// What an ASCII character's byte tells of it.
proof fn lemma_ascii_byte(c: char, b: u8)
    requires
        c <= '\u{7f}',
        b == c as u8,
    ensures
        b == 0x2b <==> c == '+',
        b == 0x2f <==> c == '/',
{
}

/// Turns every `+` of an ASCII text into `-` and every `/` into `_`.
fn to_url_safe(text: &str) -> (out: String)
    requires
        is_ascii_chars(text@),
    ensures
        out@ == url_safe(text@),
{
    let raw = text.as_bytes();
    proof {
        is_ascii_chars_encode_utf8(text@);
    }
    let mut out = String::new();
    let mut i: usize = 0;
    while i < raw.len()
        invariant
            i <= raw.len(),
            raw@.len() == text@.len(),
            is_ascii_chars(text@),
            forall|k: int| 0 <= k < text@.len() ==> #[trigger] text@[k] as u8 == raw@[k],
            out@ == url_safe(text@.take(i as int)),
        decreases raw.len() - i,
    {
        let b: u8 = raw[i];
        proof {
            lemma_ascii_byte(text@[i as int], b);
            reveal_strlit("-");
            reveal_strlit("_");
        }
        if b == 0x2b {
            out.append("-");
        } else if b == 0x2f {
            out.append("_");
        } else {
            out.append(text.substring_ascii(i, i + 1));
        }
        i += 1;
    }
    out
}

/// Encodes bytes as Base64 text in the URL-safe alphabet: the standard encoding with
/// `-` in place of `+` and `_` in place of `/`. The padding stays.
pub fn base64url_encode_bytes(bytes: &[u8]) -> (text: String)
    ensures
        text@ == url_safe(encode_text(bytes@)),
{
    let standard = base64_encode_bytes(bytes);
    proof {
        lemma_encode_text_chars(bytes@);
    }
    to_url_safe(standard.as_str())
}

/// Encodes the UTF-8 bytes of a string as Base64 text in the URL-safe alphabet.
pub fn base64url_encode(in_str: &str) -> (text: String)
    ensures
        text@ == url_safe(encode_text(encode_utf8(in_str@))),
{
    base64url_encode_bytes(in_str.as_bytes())
}

} // verus!
