use base64_light::{
    base64_decode, base64_encode_bytes, base64_encode_splitlines, base64_encode_splitlines_bytes,
};

/// Bytes that look random and are the same on every run.
fn sample(len: usize, seed: u32) -> Vec<u8> {
    let mut state: u32 = seed;
    let mut bytes = Vec::with_capacity(len);
    for _ in 0..len {
        state = state.wrapping_mul(1103515245).wrapping_add(12345) & 0x7fff_ffff;
        bytes.push((state >> 16) as u8);
    }
    bytes
}

#[test]
fn short_text_stays_on_one_line() {
    assert_eq!(base64_encode_splitlines_bytes(&[]), "");
    assert_eq!(base64_encode_splitlines("hello!"), "aGVsbG8h");
    // 57 bytes fill one line exactly: no line break is added.
    let one_line = base64_encode_splitlines_bytes(&sample(57, 1));
    assert_eq!(one_line.len(), 76);
    assert_eq!(one_line, base64_encode_bytes(&sample(57, 1)));
}

#[test]
fn a_line_break_stands_behind_every_full_line_but_the_last() {
    // One byte more than a full line begins a second line.
    let two_lines = base64_encode_splitlines_bytes(&sample(58, 1));
    assert_eq!(two_lines.len(), 82);
    assert_eq!(&two_lines[76..78], "\r\n");
    // Two full lines: one line break between them, none at the end.
    let two_full = base64_encode_splitlines_bytes(&sample(114, 1));
    assert_eq!(two_full.len(), 154);
    assert_eq!(&two_full[76..78], "\r\n");
    assert!(!two_full.ends_with('\n') && !two_full.ends_with('\r'));
    // And a third line of four characters.
    let three = base64_encode_splitlines_bytes(&sample(115, 1));
    assert_eq!(three.len(), 160);
    assert_eq!(&three[76..78], "\r\n");
    assert_eq!(&three[154..156], "\r\n");
}

#[test]
fn zero_bytes_give_lines_of_the_first_symbol() {
    let lines = base64_encode_splitlines_bytes(&[0u8; 60]);
    let expected = format!("{}\r\n{}", "A".repeat(76), "A".repeat(4));
    assert_eq!(lines, expected);
}

#[test]
fn lines_have_76_characters_and_crlf_between_them() {
    for len in 0..400usize {
        let bytes = sample(len, 5 + len as u32);
        let plain = base64_encode_bytes(&bytes);
        let lines = base64_encode_splitlines_bytes(&bytes);
        let parts: Vec<&str> = lines.split("\r\n").collect();
        for (at, part) in parts.iter().enumerate() {
            if at + 1 < parts.len() {
                assert_eq!(part.len(), 76);
            } else {
                assert!(part.len() <= 76);
                assert!(len == 0 || !part.is_empty());
            }
            assert!(!part.contains('\r') && !part.contains('\n'));
        }
        for (at, byte) in lines.bytes().enumerate() {
            assert_eq!(byte == b'\r', at % 78 == 76);
            assert_eq!(byte == b'\n', at % 78 == 77);
        }
        assert_eq!(lines.replace("\r\n", ""), plain);
        assert_eq!(lines.trim_end(), lines);
        assert_eq!(base64_decode(&lines), bytes);
    }
}

#[test]
fn lines_of_a_string_are_the_lines_of_its_bytes() {
    let text = "abcdeABCDEabcdeABCDEabcdeABCDEabcdeABCDEabcdeABCDEabcdeABCDE";
    assert_eq!(
        base64_encode_splitlines(text),
        base64_encode_splitlines_bytes(text.as_bytes())
    );
    let long = "日本語".repeat(40);
    assert_eq!(
        base64_encode_splitlines(&long),
        base64_encode_splitlines_bytes(long.as_bytes())
    );
}
