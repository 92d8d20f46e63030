//! Text and its UTF-8 bytes: line breaks, and what the encoding of a text keeps of it.

use vstd::prelude::*;
use vstd::utf8::{encode_scalar, encode_utf8};

verus! {

/// True for the two characters that end a line: carriage return and line feed.
pub open spec fn is_line_break(c: char) -> bool {
    c == '\r' || c == '\n'
}

/// The characters of `text` that are no line breaks, in their order.
pub open spec fn without_line_breaks(text: Seq<char>) -> Seq<char> {
    text.filter(|c: char| !is_line_break(c))
}

/// True for the bytes of the two line break characters.
pub open spec fn is_line_break_byte(b: u8) -> bool {
    b == 0x0d || b == 0x0a
}

/// The bytes of `bytes` that are no line breaks, in their order.
pub open spec fn without_line_break_bytes(bytes: Seq<u8>) -> Seq<u8> {
    bytes.filter(|b: u8| !is_line_break_byte(b))
}

/// An ASCII character is a line break just where its byte is one.
pub proof fn lemma_line_break_byte(c: char)
    ensures
        c as u32 <= 0x7f ==> (is_line_break_byte(c as u8) <==> is_line_break(c)),
{
}

/// A filter keeps a sequence as it is where every element passes.
pub proof fn lemma_filter_keeps_all<A>(s: Seq<A>, pred: spec_fn(A) -> bool)
    requires
        forall|i: int| 0 <= i < s.len() ==> pred(#[trigger] s[i]),
    ensures
        s.filter(pred) == s,
    decreases s.len(),
{
    reveal(Seq::filter);
    if s.len() > 0 {
        lemma_filter_keeps_all(s.drop_last(), pred);
    }
}

/// The UTF-8 bytes of one character: an ASCII character is its own single byte, and
/// every byte of any other character is 0x80 or more.
pub proof fn lemma_encode_scalar_bytes(c: char)
    ensures
        1 <= encode_scalar(c as u32).len() <= 4,
        c as u32 <= 0x7f ==> encode_scalar(c as u32) == seq![c as u8],
        c as u32 > 0x7f ==> forall|i: int|
            0 <= i < encode_scalar(c as u32).len() ==> #[trigger] encode_scalar(c as u32)[i]
                >= 0x80,
{
    let s = c as u32;
    if s <= 0x7f {
        assert((s & 0x7f) as u8 == s as u8) by (bit_vector)
            requires
                s <= 0x7f,
        ;
    } else {
        let lead2 = ((s >> 6) & 0x1f) as u8;
        let lead3 = ((s >> 12) & 0x0f) as u8;
        let lead4 = ((s >> 18) & 0x7) as u8;
        let cont1 = (s & 0x3f) as u8;
        let cont2 = ((s >> 6) & 0x3f) as u8;
        let cont3 = ((s >> 12) & 0x3f) as u8;
        assert(0xc0u8 | lead2 >= 0x80) by (bit_vector);
        assert(0xe0u8 | lead3 >= 0x80) by (bit_vector);
        assert(0xf0u8 | lead4 >= 0x80) by (bit_vector);
        assert(0x80u8 | cont1 >= 0x80) by (bit_vector);
        assert(0x80u8 | cont2 >= 0x80) by (bit_vector);
        assert(0x80u8 | cont3 >= 0x80) by (bit_vector);
    }
}

/// The UTF-8 bytes of two texts in a row are the bytes of the first and then those of
/// the second.
pub proof fn lemma_encode_utf8_concat(a: Seq<char>, b: Seq<char>)
    ensures
        encode_utf8(a + b) == encode_utf8(a) + encode_utf8(b),
    decreases a.len(),
{
    if a.len() > 0 {
        lemma_encode_utf8_concat(a.drop_first(), b);
        assert((a + b).drop_first() =~= a.drop_first() + b);
    }
}

/// The UTF-8 bytes of a text of one character are the bytes of the character.
proof fn lemma_encode_utf8_one(c: char)
    ensures
        encode_utf8(seq![c]) == encode_scalar(c as u32),
{
    assert(seq![c].drop_first() =~= Seq::<char>::empty());
    assert(encode_utf8(Seq::<char>::empty()) =~= Seq::<u8>::empty());
}

/// A filter keeps the one element of a sequence where it passes, and nothing where it
/// does not.
proof fn lemma_filter_one<A>(a: A, pred: spec_fn(A) -> bool)
    ensures
        seq![a].filter(pred) == if pred(a) {
            seq![a]
        } else {
            Seq::empty()
        },
{
    reveal_with_fuel(Seq::filter, 2);
}

/// Line breaks can be taken out of a text or out of its UTF-8 bytes: the bytes left
/// are the same.
pub proof fn lemma_line_breaks_in_utf8(text: Seq<char>)
    ensures
        encode_utf8(without_line_breaks(text)) == without_line_break_bytes(encode_utf8(text)),
    decreases text.len(),
{
    let keep = |c: char| !is_line_break(c);
    let keep_byte = |b: u8| !is_line_break_byte(b);
    if text.len() == 0 {
        reveal(Seq::filter);
    } else {
        let first = text[0];
        let rest = text.drop_first();
        let first_bytes = encode_scalar(first as u32);
        lemma_line_breaks_in_utf8(rest);
        lemma_encode_scalar_bytes(first);
        lemma_line_break_byte(first);
        // Both filters go through the first character and the rest one after the other.
        assert(text =~= seq![first] + rest);
        Seq::filter_distributes_over_add(seq![first], rest, keep);
        Seq::filter_distributes_over_add(first_bytes, encode_utf8(rest), keep_byte);
        lemma_filter_one(first, keep);
        if is_line_break(first) {
            lemma_filter_one(first as u8, keep_byte);
        } else {
            lemma_filter_keeps_all(first_bytes, keep_byte);
            lemma_encode_utf8_concat(seq![first], without_line_breaks(rest));
            lemma_encode_utf8_one(first);
        }
    }
}

} // verus!
