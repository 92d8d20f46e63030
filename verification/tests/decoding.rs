use base64_light::{
    base64_decode, base64_decode_str, base64_encode, base64_encode_bytes,
    base64_encode_splitlines, base64url_encode,
};

/// Bytes that look random and are the same on every run.
fn sample(len: usize, seed: u32) -> Vec<u8> {
    let mut state: u32 = seed;
    let mut bytes = Vec::with_capacity(len);
    for _ in 0..len {
        state = state.wrapping_mul(1103515245).wrapping_add(12345) & 0x7fff_ffff;
        bytes.push((state >> 16) as u8);
    }
    bytes
}

#[test]
fn empty_text_gives_no_bytes() {
    assert_eq!(base64_decode(""), Vec::<u8>::new());
    assert_eq!(base64_decode_str(""), "");
}

#[test]
fn known_text_is_decoded() {
    assert_eq!(base64_decode("aGVsbG8h"), b"hello!".to_vec());
    assert_eq!(base64_decode_str("aGVsbG8h"), "hello!");
    assert_eq!(base64_decode("TWFu"), b"Man".to_vec());
    assert_eq!(base64_decode("FPucA9l+"), vec![0x14, 0xfb, 0x9c, 0x03, 0xd9, 0x7e]);
}

#[test]
fn decoding_undoes_encoding() {
    for len in 0..200usize {
        let bytes = sample(len, 7 + len as u32);
        assert_eq!(base64_decode(&base64_encode_bytes(&bytes)), bytes, "length {}", len);
    }
    for value in 0..=255u8 {
        assert_eq!(base64_decode(&base64_encode_bytes(&[value])), vec![value]);
        assert_eq!(base64_decode(&base64_encode_bytes(&[value, value])), vec![value, value]);
        assert_eq!(
            base64_decode(&base64_encode_bytes(&[value, 0, value])),
            vec![value, 0, value]
        );
    }
}

#[test]
fn both_alphabets_are_read_even_mixed() {
    assert_eq!(base64_decode("+/+/"), vec![0xfb, 0xff, 0xbf]);
    assert_eq!(base64_decode("-_-_"), vec![0xfb, 0xff, 0xbf]);
    assert_eq!(base64_decode("+_-/"), vec![0xfb, 0xff, 0xbf]);
    assert_eq!(base64_decode("/w=="), vec![0xff]);
    assert_eq!(base64_decode("_w=="), vec![0xff]);
    assert_eq!(base64_decode("AAA+"), vec![0, 0, 62]);
    assert_eq!(base64_decode("AAA-"), vec![0, 0, 62]);
    assert_eq!(base64_decode("AAA/"), vec![0, 0, 63]);
    assert_eq!(base64_decode("AAA_"), vec![0, 0, 63]);
}

#[test]
fn line_breaks_are_passed_over() {
    assert_eq!(base64_decode("aGVsbG8h\r\naGVsbG8h"), b"hello!hello!".to_vec());
    assert_eq!(base64_decode("aGVs\nbG8h"), b"hello!".to_vec());
    assert_eq!(base64_decode("Z\r\ng\n=\r="), vec![0x66]);
    assert_eq!(base64_decode("\r\n\r\n"), Vec::<u8>::new());
    for len in 0..40usize {
        let first = sample(len, 31 + len as u32);
        let second = sample(40 - len, 77 + len as u32);
        let joined = format!(
            "{}\r\n{}",
            base64_encode_bytes(&first),
            base64_encode_bytes(&second)
        );
        let mut expected = base64_decode(&base64_encode_bytes(&first));
        expected.extend(base64_decode(&base64_encode_bytes(&second)));
        assert_eq!(base64_decode(&joined), expected);
        let mut bytes = first.clone();
        bytes.extend_from_slice(&second);
        assert_eq!(base64_decode(&joined), bytes);
    }
}

#[test]
fn bytes_that_are_no_symbol_count_as_zero() {
    assert_eq!(base64_decode("!!!!"), vec![0, 0, 0]);
    assert_eq!(base64_decode("===="), vec![0]);
    assert_eq!(base64_decode("a b c d e"), vec![0x68, 0x06, 0xc0, 0x70, 0x07, 0x40]);
    // The two bytes of a character outside ASCII are two symbols of value 0.
    assert_eq!(base64_decode("é=="), vec![0]);
    assert_eq!(base64_decode("éé"), vec![0, 0, 0]);
}

#[test]
fn symbols_that_fill_no_group_are_left_out() {
    assert_eq!(base64_decode("Z"), Vec::<u8>::new());
    assert_eq!(base64_decode("Zg"), Vec::<u8>::new());
    assert_eq!(base64_decode("Zg="), Vec::<u8>::new());
    assert_eq!(base64_decode("Zm9vY"), b"foo".to_vec());
    assert_eq!(base64_decode("Zm9vYmE"), b"foo".to_vec());
}

#[test]
fn padding_decides_which_bytes_of_a_group_come_out() {
    assert_eq!(base64_decode("Zg=="), vec![0x66]);
    assert_eq!(base64_decode("Zm8="), vec![0x66, 0x6f]);
    // Padding in the third place alone drops the second byte and keeps the third.
    assert_eq!(base64_decode("ab=d"), vec![0x69, 0x1d]);
    // Padding is read wherever it stands, and decoding goes on behind it.
    assert_eq!(base64_decode("Zg==Zm8="), vec![0x66, 0x66, 0x6f]);
}

#[test]
fn text_of_many_bytes_per_character_comes_back() {
    for text in ["", "a", "né", "生姜焼き定食", "★😔", "🏆☕\u{fe0f}💤", "mixed ascii と 日本語 and 😀"] {
        assert_eq!(base64_decode_str(&base64_encode(text)), text);
        assert_eq!(base64_decode_str(&base64url_encode(text)), text);
        assert_eq!(base64_decode_str(&base64_encode_splitlines(text)), text);
        assert_eq!(base64_decode(&base64_encode(text)), text.as_bytes().to_vec());
    }
}

#[test]
fn bytes_that_are_no_utf8_become_replacement_characters() {
    assert_eq!(base64_decode_str("/w=="), "\u{fffd}");
    assert_eq!(base64_decode_str("Zv9v"), "f\u{fffd}o");
    assert_eq!(base64_decode_str("4piF"), "★");
    // The first two bytes of a character of three.
    assert_eq!(base64_decode_str("4pg="), "\u{fffd}");
}
