use base64_light::{
    base64_decode_str, base64_encode, base64_encode_splitlines, base64url_encode,
};

#[test]
fn base64_encoder_test() {
    // basic test
    assert_eq!(base64_encode(""), "");
    assert_eq!(base64_encode("f"), "Zg==");
    assert_eq!(base64_encode("fo"), "Zm8=");
    assert_eq!(base64_encode("foo"), "Zm9v");
    assert_eq!(base64_encode("foob"), "Zm9vYg==");
    assert_eq!(base64_encode("fooba"), "Zm9vYmE=");
    assert_eq!(base64_encode("foobar"), "Zm9vYmFy");
    assert_eq!(base64_encode(">>>>>>"), "Pj4+Pj4+");
    assert_eq!(base64_encode("??????"), "Pz8/Pz8/");
    // additional test
    assert_eq!(&base64_encode("HTML"), "SFRNTA==");
    assert_eq!(&base64_encode("hello!"), "aGVsbG8h");
    assert_eq!(&base64_encode("JavaScript"), "SmF2YVNjcmlwdA==");
    assert_eq!(&base64_encode("生姜焼き定食"), "55Sf5aec54S844GN5a6a6aOf"); // UTF-8
    assert_eq!(&base64_encode("★😔"), "4piF8J+YlA==");
    // base64url_encode
    assert_eq!(&base64_encode("🏆☕️💤"), "8J+PhuKYle+4j/CfkqQ=");
    assert_eq!(&base64url_encode("🏆☕️💤"), "8J-PhuKYle-4j_CfkqQ=");
    // base64_encode_splitlines
    assert_eq!(&base64_encode_splitlines("abcdeABCDEabcdeABCDEabcdeABCDEabcdeABCDEabcdeABCDEabcdeABCDE"), "YWJjZGVBQkNERWFiY2RlQUJDREVhYmNkZUFCQ0RFYWJjZGVBQkNERWFiY2RlQUJDREVhYmNkZUFC\r\nQ0RF");
}

#[test]
fn base64_decoder_test() {
    // basic test
    assert_eq!(base64_decode_str(""), "");
    assert_eq!(base64_decode_str("Zg=="), "f");
    assert_eq!(base64_decode_str("Zm8="), "fo");
    assert_eq!(base64_decode_str("Zm9v"), "foo");
    assert_eq!(base64_decode_str("Zm9vYg=="), "foob");
    assert_eq!(base64_decode_str("Zm9vYmE="), "fooba");
    assert_eq!(base64_decode_str("Zm9vYmFy"), "foobar");
    // additional test
    assert_eq!(&base64_decode_str("SFRNTA=="), "HTML");
    assert_eq!(&base64_decode_str("aGVsbG8h"), "hello!");
    assert_eq!(&base64_decode_str("SmF2YVNjcmlwdA=="), "JavaScript");
    assert_eq!(&base64_decode_str("55Sf5aec54S844GN5a6a6aOf"), "生姜焼き定食");
    // CR+LF
    assert_eq!(&base64_decode_str("aGVsbG8h\r\naGVsbG8h"), "hello!hello!");
    // Base64url
    assert_eq!(base64_decode_str("4piF8J+YlA=="), "★😔");
    assert_eq!(base64_decode_str("4piF8J-YlA=="), "★😔");
    assert_eq!(base64_decode_str("8J+PhuKYle+4j/CfkqQ="), "🏆☕️💤");
    assert_eq!(base64_decode_str("8J-PhuKYle-4j_CfkqQ="), "🏆☕️💤");
}
