//! The alphabet of 64 symbols, its URL-safe variant, the padding symbol, and the value
//! that a symbol stands for.

use vstd::prelude::*;
use vstd::utf8::is_ascii_chars;

verus! {

/// The 64 symbols of the standard alphabet, each at the index of the value it stands for.
pub const ALPHABET: &'static str = "ABCDEFGHIJKLMNOPQRSTUVWXYZabcdefghijklmnopqrstuvwxyz0123456789+/";

/// The byte of the padding symbol `=`, which fills the last group of an encoded text
/// and stands for no value.
pub const PAD: u8 = 0x3d;

/// The symbol that stands for the 6-bit value `v` in the standard alphabet.
pub open spec fn symbol(v: int) -> char
    recommends
        0 <= v < 64,
{
    ALPHABET@[v]
}

/// The character that the URL-safe alphabet has in place of `c`: `-` for `+`, `_` for
/// `/`, and `c` itself for every other character.
pub open spec fn url_safe_char(c: char) -> char {
    if c == '+' {
        '-'
    } else if c == '/' {
        '_'
    } else {
        c
    }
}

/// The 6-bit value that the byte `b` of an encoded text stands for. The symbols of the
/// standard alphabet have the value of their index in it, `-` and `_` have the values of
/// `+` and `/`, and every other byte, the padding symbol among them, has the value 0.
pub open spec fn sextet(b: u8) -> int {
    let c = b as char;
    if 'A' <= c <= 'Z' {
        b - 'A' as u8
    } else if 'a' <= c <= 'z' {
        b - 'a' as u8 + 26
    } else if '0' <= c <= '9' {
        b - '0' as u8 + 52
    } else if c == '+' || c == '-' {
        62
    } else if c == '/' || c == '_' {
        63
    } else {
        0
    }
}

/// The alphabet written out: 64 ASCII characters, which are the capital letters, the
/// small letters and the digits in their order, and then `+` and `/`.
pub proof fn lemma_alphabet()
    ensures
        ALPHABET@.len() == 64,
        is_ascii_chars(ALPHABET@),
        forall|v: int|
            0 <= v < 64 ==> #[trigger] symbol(v) as int == if v < 26 {
                'A' as int + v
            } else if v < 52 {
                'a' as int + (v - 26)
            } else if v < 62 {
                '0' as int + (v - 52)
            } else if v == 62 {
                '+' as int
            } else {
                '/' as int
            },
{
    reveal_strlit("ABCDEFGHIJKLMNOPQRSTUVWXYZabcdefghijklmnopqrstuvwxyz0123456789+/");
}

/// The values invert both alphabets: the symbol of a 6-bit value stands for that value,
/// and so does the character that the URL-safe alphabet has in its place. So the values
/// 62 and 63 are read from `+` and `/` as well as from `-` and `_`. None of these
/// characters is the padding symbol.
pub proof fn lemma_sextet_of_symbol(v: int)
    requires
        0 <= v < 64,
    ensures
        sextet(symbol(v) as u8) == v,
        sextet(url_safe_char(symbol(v)) as u8) == v,
        symbol(v) as u8 != PAD,
        url_safe_char(symbol(v)) as u8 != PAD,
{
    lemma_alphabet();
}

/// A byte that is no symbol of either alphabet has the value 0.
pub proof fn lemma_sextet_of_other_bytes(b: u8)
    requires
        forall|v: int| 0 <= v < 64 ==> #[trigger] symbol(v) as u8 != b,
        b != '-' as u8,
        b != '_' as u8,
    ensures
        sextet(b) == 0,
{
    lemma_alphabet();
    if sextet(b) != 0 {
        assert(symbol(sextet(b)) as u8 == b);
    }
}

} // verus!
