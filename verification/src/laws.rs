//! What holds of encoding and decoding together: decoding undoes encoding, both
//! alphabets decode alike, and line breaks do not change what a text decodes to.

use crate::alphabet::{lemma_sextet_of_symbol, sextet, url_safe_char, PAD};
use crate::decode::{
    decode_group, decode_symbols, decode_text, lemma_decode_symbols_concat, lossy_text,
};
use crate::encode::{
    encode_group, encode_text, lemma_encode_group_chars, lemma_encode_text_chars,
    lemma_encode_text_has_no_line_break, lemma_encode_text_len, pack_bytes, url_safe,
};
use crate::lines::{lemma_split_lines_without_line_breaks, split_lines};
use crate::text::{
    is_line_break, lemma_encode_scalar_bytes, lemma_encode_utf8_concat, lemma_filter_keeps_all,
    without_line_breaks,
};
use vstd::prelude::*;
use vstd::utf8::{
    encode_scalar, encode_utf8, encode_utf8_decode_utf8, encode_utf8_valid_utf8, is_ascii_chars,
    is_ascii_chars_encode_utf8, valid_utf8,
};

verus! {

/// The four 6-bit fields of three packed bytes give the packed number back, and the
/// number gives back the bytes. Bytes that are 0 leave the fields below them 0.
proof fn lemma_packed_fields(b0: u8, b1: u8, b2: u8)
    by (bit_vector)
    ensures
        ({
            let n = b0 as u32 * 0x1_0000 + b1 as u32 * 0x100 + b2 as u32;
            let v0 = n / 0x4_0000 % 64;
            let v1 = n / 0x1000 % 64;
            let v2 = n / 0x40 % 64;
            let v3 = n % 64;
            &&& v0 * 0x4_0000 + v1 * 0x1000 + v2 * 0x40 + v3 == n
            &&& n / 0x1_0000 == b0
            &&& n / 0x100 % 0x100 == b1
            &&& n % 0x100 == b2
            &&& b2 == 0 ==> v3 == 0
            &&& b1 == 0 && b2 == 0 ==> v2 == 0
        }),
{
}

/// The four symbols of three bytes decode to those bytes. With the padding symbol in
/// the fourth place they decode to the first two bytes, with it in the third place too
/// to the first byte alone, where the bytes left out are 0.
pub proof fn lemma_group_round_trip(b0: u8, b1: u8, b2: u8)
    ensures
        ({
            let g = encode_group(b0, b1, b2);
            &&& decode_group(g[0] as u8, g[1] as u8, g[2] as u8, g[3] as u8) == seq![b0, b1, b2]
            &&& b2 == 0 ==> decode_group(g[0] as u8, g[1] as u8, g[2] as u8, PAD) == seq![b0, b1]
            &&& b1 == 0 && b2 == 0 ==> decode_group(g[0] as u8, g[1] as u8, PAD, PAD) == seq![b0]
        }),
{
    reveal(encode_group);
    reveal(decode_group);
    let n = pack_bytes(b0, b1, b2);
    lemma_packed_fields(b0, b1, b2);
    lemma_sextet_of_symbol(n / 0x4_0000 % 64);
    lemma_sextet_of_symbol(n / 0x1000 % 64);
    lemma_sextet_of_symbol(n / 0x40 % 64);
    lemma_sextet_of_symbol(n % 64);
}

/// The symbols of an encoded text, read as bytes, decode to the bytes encoded.
proof fn lemma_decode_encoded_symbols(bytes: Seq<u8>)
    ensures
        decode_symbols(encode_utf8(encode_text(bytes))) == bytes,
    decreases bytes.len(),
{
    let text = encode_text(bytes);
    lemma_encode_text_len(bytes);
    lemma_encode_text_chars(bytes);
    is_ascii_chars_encode_utf8(text);
    if 0 < bytes.len() <= 2 {
        // One group, ended by padding.
        let b1 = if bytes.len() == 2 {
            bytes[1]
        } else {
            0u8
        };
        lemma_encode_group_chars(bytes[0], b1, 0);
        lemma_group_round_trip(bytes[0], b1, 0);
        assert(decode_symbols(encode_utf8(text).skip(4)) =~= Seq::<u8>::empty());
    } else if bytes.len() >= 3 {
        // A full group, and behind it the text of the other bytes.
        let rest = bytes.skip(3);
        let group = encode_group(bytes[0], bytes[1], bytes[2]);
        lemma_decode_encoded_symbols(rest);
        lemma_encode_group_chars(bytes[0], bytes[1], bytes[2]);
        lemma_group_round_trip(bytes[0], bytes[1], bytes[2]);
        assert(is_ascii_chars(group)) by {
            assert(group =~= text.take(4));
        }
        is_ascii_chars_encode_utf8(group);
        lemma_encode_utf8_concat(group, encode_text(rest));
        lemma_decode_symbols_concat(encode_utf8(group), encode_utf8(encode_text(rest)));
        assert(decode_symbols(encode_utf8(group).skip(4)) =~= Seq::<u8>::empty());
    }
}

/// Decoding undoes encoding: the encoded text of any bytes decodes to those bytes.
pub proof fn lemma_decode_encode(bytes: Seq<u8>)
    ensures
        decode_text(encode_text(bytes)) == bytes,
{
    lemma_encode_text_has_no_line_break(bytes);
    lemma_decode_encoded_symbols(bytes);
}

/// A text that was encoded by its UTF-8 bytes comes back as it was: the decoded bytes
/// are valid UTF-8, and they are read as the text itself.
pub proof fn lemma_text_round_trip(text: Seq<char>)
    ensures
        valid_utf8(decode_text(encode_text(encode_utf8(text)))),
        lossy_text(decode_text(encode_text(encode_utf8(text)))) == text,
{
    lemma_decode_encode(encode_utf8(text));
    encode_utf8_valid_utf8(text);
    encode_utf8_decode_utf8(text);
}

/// Symbols that have the same values, with the padding symbol in the same places,
/// decode to the same bytes.
pub proof fn lemma_decode_symbols_alike(s: Seq<u8>, t: Seq<u8>)
    requires
        s.len() == t.len(),
        forall|i: int| 0 <= i < s.len() ==> sextet(#[trigger] s[i]) == sextet(t[i]),
        forall|i: int| 0 <= i < s.len() ==> (#[trigger] s[i] == PAD <==> t[i] == PAD),
    ensures
        decode_symbols(s) == decode_symbols(t),
    decreases s.len(),
{
    if s.len() >= 4 {
        reveal(decode_group);
        assert forall|i: int| 0 <= i < s.skip(4).len() implies sextet(#[trigger] s.skip(4)[i])
            == sextet(t.skip(4)[i]) && (s.skip(4)[i] == PAD <==> t.skip(4)[i] == PAD) by {
            assert(s.skip(4)[i] == s[i + 4] && t.skip(4)[i] == t[i + 4]);
        }
        lemma_decode_symbols_alike(s.skip(4), t.skip(4));
    }
}

/// The byte that stands in a URL-safe text where `b` stands in the standard one.
spec fn url_safe_byte(b: u8) -> u8 {
    if b == 0x2b {
        0x2d
    } else if b == 0x2f {
        0x5f
    } else {
        b
    }
}

/// The UTF-8 bytes of the URL-safe form of one character.
proof fn lemma_url_safe_scalar(c: char)
    ensures
        encode_scalar(url_safe_char(c) as u32) == encode_scalar(c as u32).map_values(
            |b: u8| url_safe_byte(b),
        ),
{
    lemma_encode_scalar_bytes(c);
    lemma_encode_scalar_bytes(url_safe_char(c));
}

/// The UTF-8 bytes of the URL-safe form of a text are the bytes of the text, each in
/// its URL-safe form.
proof fn lemma_url_safe_utf8(text: Seq<char>)
    ensures
        encode_utf8(url_safe(text)) == encode_utf8(text).map_values(|b: u8| url_safe_byte(b)),
    decreases text.len(),
{
    if text.len() > 0 {
        lemma_url_safe_utf8(text.drop_first());
        lemma_url_safe_scalar(text[0]);
        assert(url_safe(text).drop_first() =~= url_safe(text.drop_first()));
    }
}

/// Line breaks can be taken out before or after a text is made URL-safe.
proof fn lemma_url_safe_line_breaks(text: Seq<char>)
    ensures
        without_line_breaks(url_safe(text)) == url_safe(without_line_breaks(text)),
    decreases text.len(),
{
    reveal(Seq::filter);
    if text.len() > 0 {
        lemma_url_safe_line_breaks(text.drop_last());
        assert(url_safe(text).drop_last() =~= url_safe(text.drop_last()));
    }
}

/// Both alphabets decode alike: a text decodes to the same bytes when every `+` in it
/// is written as `-` and every `/` as `_`.
pub proof fn lemma_url_safe_decodes_alike(text: Seq<char>)
    ensures
        decode_text(url_safe(text)) == decode_text(text),
{
    let kept = without_line_breaks(text);
    lemma_url_safe_line_breaks(text);
    lemma_url_safe_utf8(kept);
    lemma_decode_symbols_alike(encode_utf8(url_safe(kept)), encode_utf8(kept));
}

/// The URL-safe encoding of any bytes decodes to those bytes.
pub proof fn lemma_decode_encode_url_safe(bytes: Seq<u8>)
    ensures
        decode_text(url_safe(encode_text(bytes))) == bytes,
{
    lemma_url_safe_decodes_alike(encode_text(bytes));
    lemma_decode_encode(bytes);
}

/// Line breaks do not count: a text decodes as it does with its line breaks taken out.
pub proof fn lemma_decode_text_without_line_breaks(text: Seq<char>)
    ensures
        decode_text(without_line_breaks(text)) == decode_text(text),
{
    let keep = |c: char| !is_line_break(c);
    let kept = text.filter(keep);
    assert forall|i: int| 0 <= i < kept.len() implies keep(#[trigger] kept[i]) by {
        text.lemma_filter_pred(keep, i);
    }
    lemma_filter_keeps_all(kept, keep);
}

/// A carriage return and line feed between two texts is passed over: the whole decodes
/// as the two texts in a row do.
pub proof fn lemma_line_break_is_passed_over(first: Seq<char>, second: Seq<char>)
    ensures
        decode_text(first + seq!['\r', '\n'] + second) == decode_text(first + second),
{
    let keep = |c: char| !is_line_break(c);
    let crlf = seq!['\r', '\n'];
    Seq::filter_distributes_over_add(first + crlf, second, keep);
    Seq::filter_distributes_over_add(first, crlf, keep);
    Seq::filter_distributes_over_add(first, second, keep);
    assert(crlf.filter(keep) =~= Seq::<char>::empty()) by {
        reveal_with_fuel(Seq::filter, 3);
    }
}

/// Behind a text whose symbols fill whole groups of four, a second text is decoded on
/// its own.
pub proof fn lemma_decode_text_concat(first: Seq<char>, second: Seq<char>)
    requires
        encode_utf8(without_line_breaks(first)).len() % 4 == 0,
    ensures
        decode_text(first + second) == decode_text(first) + decode_text(second),
{
    let keep = |c: char| !is_line_break(c);
    Seq::filter_distributes_over_add(first, second, keep);
    lemma_encode_utf8_concat(without_line_breaks(first), without_line_breaks(second));
    lemma_decode_symbols_concat(
        encode_utf8(without_line_breaks(first)),
        encode_utf8(without_line_breaks(second)),
    );
}

/// Two texts with a carriage return and line feed between them decode to the bytes of
/// the first and then those of the second, where the symbols of the first fill whole
/// groups of four.
pub proof fn lemma_decode_across_line_break(first: Seq<char>, second: Seq<char>)
    requires
        encode_utf8(without_line_breaks(first)).len() % 4 == 0,
    ensures
        decode_text(first + seq!['\r', '\n'] + second) == decode_text(first) + decode_text(second),
{
    lemma_line_break_is_passed_over(first, second);
    lemma_decode_text_concat(first, second);
}

/// The symbols of an encoded text fill whole groups of four.
pub proof fn lemma_encoded_symbols_fill_groups(bytes: Seq<u8>)
    ensures
        encode_utf8(without_line_breaks(encode_text(bytes))).len() % 4 == 0,
{
    lemma_encode_text_has_no_line_break(bytes);
    lemma_encode_text_len(bytes);
    lemma_encode_text_chars(bytes);
    is_ascii_chars_encode_utf8(encode_text(bytes));
}

/// Two encoded texts with a carriage return and line feed between them decode to the
/// bytes of the first and then those of the second.
pub proof fn lemma_decode_encoded_lines(first: Seq<u8>, second: Seq<u8>)
    ensures
        decode_text(encode_text(first) + seq!['\r', '\n'] + encode_text(second)) == first + second,
{
    lemma_encoded_symbols_fill_groups(first);
    lemma_decode_across_line_break(encode_text(first), encode_text(second));
    lemma_decode_encode(first);
    lemma_decode_encode(second);
}

/// The lines that bytes are encoded into decode to the bytes.
pub proof fn lemma_decode_encoded_split_lines(bytes: Seq<u8>)
    ensures
        decode_text(split_lines(encode_text(bytes))) == bytes,
{
    lemma_decode_text_without_line_breaks(split_lines(encode_text(bytes)));
    lemma_split_lines_without_line_breaks(encode_text(bytes));
    lemma_decode_text_without_line_breaks(encode_text(bytes));
    lemma_decode_encode(bytes);
}

} // verus!
