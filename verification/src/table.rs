//! The decode table, built from the alphabet and written out as source text.

use crate::alphabet::{lemma_alphabet, sextet, symbol, ALPHABET};
use vstd::prelude::*;
use vstd::string::*;

verus! {

/// The digits of lower-case hexadecimal, each at the index of its value.
pub const HEX_DIGITS: &'static str = "0123456789abcdef";

/// The hexadecimal digit of a value below 16.
pub open spec fn hex_digit(d: int) -> char
    recommends
        0 <= d < 16,
{
    HEX_DIGITS@[d]
}

/// One entry of the table as text: `0x`, two hexadecimal digits, and a comma.
pub open spec fn entry_text(v: int) -> Seq<char>
    recommends
        0 <= v < 256,
{
    seq!['0', 'x', hex_digit(v / 16), hex_digit(v % 16), ',']
}

/// The text of the first `n` entries of the decode table, sixteen entries to a line,
/// each line closed by a line feed.
pub open spec fn table_text(n: nat) -> Seq<char>
    decreases n,
{
    if n == 0 {
        Seq::empty()
    } else {
        let at = (n - 1) as nat;
        let line_end = if at % 16 == 15 {
            seq!['\n']
        } else {
            Seq::empty()
        };
        table_text(at) + entry_text(sextet(at as u8)) + line_end
    }
}

/// True for the bytes of the 64 symbols of the standard alphabet.
spec fn is_standard_symbol(b: u8) -> bool {
    let c = b as char;
    'A' <= c <= 'Z' || 'a' <= c <= 'z' || '0' <= c <= '9' || c == '+' || c == '/'
}

/// True of a table that holds, for every byte, the 6-bit value that the byte stands for.
pub open spec fn is_decode_table(table: [u8; 256]) -> bool {
    forall|b: u8| #[trigger] table@[b as int] == sextet(b)
}

/// Builds the decode table: the symbols of the standard alphabet get their index in it,
/// `-` and `_` get 62 and 63, every other byte stays 0.
pub(crate) fn build_decode_table() -> (table: [u8; 256])
    ensures
        is_decode_table(table),
{
    let mut table: [u8; 256] = [0; 256];
    let symbols = ALPHABET.as_bytes();
    proof {
        lemma_alphabet();
        vstd::utf8::is_ascii_chars_encode_utf8(ALPHABET@);
    }
    let mut v: usize = 0;
    while v < 64
        invariant
            v <= 64,
            symbols@.len() == 64,
            forall|w: int| 0 <= w < 64 ==> #[trigger] symbols@[w] == symbol(w) as u8,
            forall|b: u8| #[trigger]
                table@[b as int] == if is_standard_symbol(b) && sextet(b) < v {
                    sextet(b)
                } else {
                    0
                },
        decreases 64 - v,
    {
        proof {
            lemma_alphabet();
        }
        let key: usize = symbols[v] as usize;
        table[key] = v as u8;
        v += 1;
    }
    table[0x2d] = 62;
    table[0x5f] = 63;
    table[0x3d] = 0;
    table
}

/// Appends the hexadecimal digit of `d`.
fn push_hex_digit(text: &mut String, d: u8)
    requires
        d < 16,
    ensures
        final(text)@ == old(text)@.push(hex_digit(d as int)),
{
    proof {
        reveal_strlit("0123456789abcdef");
    }
    let at: usize = d as usize;
    let one = HEX_DIGITS.substring_ascii(at, at + 1);
    text.append(one);
}

/// Writes the decode table as the text of an array's elements: `0x3e,` for each of the
/// 256 entries, sixteen to a line.
pub fn base64_table_printer() -> (text: String)
    ensures
        text@ == table_text(256),
{
    let table = build_decode_table();
    let mut text = String::new();
    let mut i: usize = 0;
    while i < 256
        invariant
            i <= 256,
            is_decode_table(table),
            text@ == table_text(i as nat),
        decreases 256 - i,
    {
        let v: u8 = table[i];
        text.append("0x");
        push_hex_digit(&mut text, v / 16);
        push_hex_digit(&mut text, v % 16);
        text.append(",");
        if i % 16 == 15 {
            text.append("\n");
        }
        proof {
            reveal_strlit("0x");
            reveal_strlit(",");
            reveal_strlit("\n");
        }
        i += 1;
    }
    text
}

} // verus!
