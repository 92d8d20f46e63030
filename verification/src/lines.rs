//! Encoding into lines of 76 characters, as MIME asks for.

use crate::encode::{
    base64_encode_bytes, encode_text, lemma_encode_text_chars,
    lemma_encode_text_has_no_line_break,
};
use crate::text::{is_line_break, without_line_breaks};
use vstd::prelude::*;
use vstd::string::*;
use vstd::utf8::{encode_utf8, is_ascii_chars, is_ascii_chars_encode_utf8};

verus! {

/// The number of characters in a full line.
pub const LINE_LENGTH: usize = 76;

/// A text cut into lines of 76 characters, with a carriage return and a line feed
/// between one line and the next. The last line may be shorter, and no line break
/// follows it.
pub open spec fn split_lines(text: Seq<char>) -> Seq<char>
    decreases text.len(),
{
    if text.len() <= LINE_LENGTH {
        text
    } else {
        text.take(LINE_LENGTH as int) + seq!['\r', '\n'] + split_lines(
            text.skip(LINE_LENGTH as int),
        )
    }
}

/// The length of a text cut into lines: two characters more for every full line that
/// has text behind it.
pub proof fn lemma_split_lines_len(text: Seq<char>)
    ensures
        split_lines(text).len() == if text.len() == 0 {
            0
        } else {
            text.len() + 2 * ((text.len() - 1) / 76)
        },
    decreases text.len(),
{
    if text.len() > LINE_LENGTH {
        lemma_split_lines_len(text.skip(LINE_LENGTH as int));
    }
}

/// The place in a text of the character that stands at place `k` of its lines, where
/// that is no character of a line break: 76 for each line before it, and its place in
/// its own line.
pub open spec fn place_in_text(k: int) -> int {
    k / 78 * 76 + k % 78
}

/// The shape of a text cut into lines. Lines of 76 characters alternate with line
/// breaks: of every 78 characters the last two are a carriage return and a line feed,
/// and the others are the characters of the text in their order.
pub proof fn lemma_split_lines_shape(text: Seq<char>, k: int)
    requires
        0 <= k < split_lines(text).len(),
    ensures
        k % 78 == 76 ==> split_lines(text)[k] == '\r',
        k % 78 == 77 ==> split_lines(text)[k] == '\n',
        k % 78 < 76 ==> 0 <= place_in_text(k) < text.len(),
        k % 78 < 76 ==> split_lines(text)[k] == text[place_in_text(k)],
    decreases text.len(),
{
    lemma_split_lines_len(text);
    if text.len() > LINE_LENGTH {
        let rest = text.skip(LINE_LENGTH as int);
        lemma_split_lines_len(rest);
        if k >= 78 {
            lemma_split_lines_shape(rest, k - 78);
        }
    }
}

/// A text cut into lines ends with the last character of the text: no line break
/// stands at its end unless the text itself ends with one.
pub proof fn lemma_split_lines_end(text: Seq<char>)
    requires
        text.len() > 0,
    ensures
        split_lines(text).len() > 0,
        split_lines(text).last() == text.last(),
{
    lemma_split_lines_len(text);
    lemma_split_lines_shape(text, split_lines(text).len() - 1);
}

/// Cutting a text into lines adds line breaks and nothing else: with the line breaks
/// taken out, the lines are the text with its line breaks taken out.
pub proof fn lemma_split_lines_without_line_breaks(text: Seq<char>)
    ensures
        without_line_breaks(split_lines(text)) == without_line_breaks(text),
    decreases text.len(),
{
    if text.len() > LINE_LENGTH {
        let keep = |c: char| !is_line_break(c);
        let line = text.take(LINE_LENGTH as int);
        let rest = text.skip(LINE_LENGTH as int);
        let crlf = seq!['\r', '\n'];
        lemma_split_lines_without_line_breaks(rest);
        Seq::filter_distributes_over_add(line + crlf, split_lines(rest), keep);
        Seq::filter_distributes_over_add(line, crlf, keep);
        Seq::filter_distributes_over_add(line, rest, keep);
        assert(crlf.filter(keep) =~= Seq::<char>::empty()) by {
            reveal_with_fuel(Seq::filter, 3);
        }
        assert(line + rest =~= text);
    }
}

/// Cuts an ASCII text into lines.
fn wrap_lines(text: &str) -> (lines: String)
    requires
        is_ascii_chars(text@),
    ensures
        lines@ == split_lines(text@),
{
    let len: usize = text.as_bytes().len();
    proof {
        is_ascii_chars_encode_utf8(text@);
    }
    let mut lines = String::new();
    let mut start: usize = 0;
    assert(text@.skip(0) =~= text@);
    while len - start > LINE_LENGTH
        invariant
            start <= len,
            len == text@.len(),
            is_ascii_chars(text@),
            split_lines(text@) == lines@ + split_lines(text@.skip(start as int)),
        decreases len - start,
    {
        let end: usize = start + LINE_LENGTH;
        lines.append(text.substring_ascii(start, end));
        lines.append("\r\n");
        proof {
            reveal_strlit("\r\n");
            let rest = text@.skip(start as int);
            assert(rest.skip(LINE_LENGTH as int) =~= text@.skip(end as int));
        }
        start = end;
    }
    lines.append(text.substring_ascii(start, len));
    lines
}

/// True of lines that have a carriage return and a line feed behind every 76
/// characters that are followed by more, and no line break anywhere else: not inside a
/// line and not at the end.
pub open spec fn has_line_breaks_in_place(lines: Seq<char>) -> bool {
    &&& forall|k: int| 0 <= k < lines.len() ==> (#[trigger] lines[k] == '\r' <==> k % 78 == 76)
    &&& forall|k: int| 0 <= k < lines.len() ==> (#[trigger] lines[k] == '\n' <==> k % 78 == 77)
    &&& lines.len() > 0 ==> !is_line_break(lines.last())
}

/// The lines of an encoded text have their line breaks in place, and with the line
/// breaks taken out they are the encoded text.
pub proof fn lemma_encoded_lines(bytes: Seq<u8>)
    ensures
        has_line_breaks_in_place(split_lines(encode_text(bytes))),
        without_line_breaks(split_lines(encode_text(bytes))) == encode_text(bytes),
{
    let text = encode_text(bytes);
    let lines = split_lines(text);
    lemma_encode_text_chars(bytes);
    lemma_encode_text_has_no_line_break(bytes);
    lemma_split_lines_without_line_breaks(text);
    lemma_split_lines_len(text);
    if text.len() > 0 {
        lemma_split_lines_end(text);
    }
    assert forall|k: int| 0 <= k < lines.len() implies (#[trigger] lines[k] == '\r' <==> k % 78
        == 76) && (lines[k] == '\n' <==> k % 78 == 77) by {
        lemma_split_lines_shape(text, k);
    }
}

/// Encodes bytes as Base64 text in the standard alphabet, in lines of 76 characters
/// with CRLF between them and no line break at the end.
pub fn base64_encode_splitlines_bytes(in_bytes: &[u8]) -> (lines: String)
    ensures
        lines@ == split_lines(encode_text(in_bytes@)),
        has_line_breaks_in_place(lines@),
        without_line_breaks(lines@) == encode_text(in_bytes@),
{
    let text = base64_encode_bytes(in_bytes);
    proof {
        lemma_encode_text_chars(in_bytes@);
        lemma_encoded_lines(in_bytes@);
    }
    wrap_lines(text.as_str())
}

/// Encodes the UTF-8 bytes of a string as Base64 text in lines of 76 characters.
pub fn base64_encode_splitlines(in_str: &str) -> (lines: String)
    ensures
        lines@ == split_lines(encode_text(encode_utf8(in_str@))),
        has_line_breaks_in_place(lines@),
        without_line_breaks(lines@) == encode_text(encode_utf8(in_str@)),
{
    base64_encode_splitlines_bytes(in_str.as_bytes())
}

} // verus!
