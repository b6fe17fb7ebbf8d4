use session_signer::{b64_url, b64_url_decode, CodecError};

#[test]
fn empty_input_encodes_to_empty_text() {
    assert_eq!(b64_url(b""), "");
    assert_eq!(b64_url_decode(""), Ok(Vec::new()));
}

#[test]
fn encoding_is_url_safe_and_unpadded() {
    assert_eq!(b64_url(&[0xfb, 0xff]), "-_8");
    assert_eq!(b64_url(&[0, 1, 2, 3]), "AAECAw");
    assert_eq!(b64_url(b"hello"), "aGVsbG8");
    assert_eq!(b64_url("héllo wörld".as_bytes()), "aMOpbGxvIHfDtnJsZA");
}

#[test]
fn encoding_holds_no_plus_slash_or_padding() {
    for n in 0..64usize {
        let data: Vec<u8> = (0..n).map(|i| (i * 37 + 250) as u8).collect();
        let text = b64_url(&data);
        assert!(!text.contains('+') && !text.contains('/') && !text.contains('='));
        assert_eq!(b64_url_decode(&text), Ok(data));
    }
}

#[test]
fn decode_reads_url_symbols() {
    assert_eq!(b64_url_decode("-_8"), Ok(vec![0xfb, 0xff]));
    assert_eq!(b64_url_decode("aGVsbG8"), Ok(b"hello".to_vec()));
    assert_eq!(b64_url_decode("YQ"), Ok(vec![b'a']));
}

#[test]
fn decode_refuses_standard_spelling() {
    assert_eq!(b64_url_decode("+/8"), Err(CodecError::InvalidEncoding));
    assert_eq!(b64_url_decode("+_8"), Err(CodecError::InvalidEncoding));
    assert_eq!(b64_url_decode("-/8"), Err(CodecError::InvalidEncoding));
}

#[test]
fn decode_refuses_written_padding() {
    assert_eq!(b64_url_decode("YQ=="), Err(CodecError::InvalidEncoding));
    assert_eq!(b64_url_decode("aA=="), Err(CodecError::InvalidEncoding));
    assert_eq!(b64_url_decode("YQ="), Err(CodecError::InvalidEncoding));
}

#[test]
fn decode_refuses_a_lone_symbol_over_a_quad() {
    assert_eq!(b64_url_decode("a"), Err(CodecError::InvalidLength));
    assert_eq!(b64_url_decode("aGVsb"), Err(CodecError::InvalidLength));
}

#[test]
fn decode_refuses_foreign_symbols() {
    assert_eq!(b64_url_decode("a*"), Err(CodecError::InvalidEncoding));
    assert_eq!(b64_url_decode("ab.c"), Err(CodecError::InvalidEncoding));
}

#[test]
fn decode_refuses_trailing_bits() {
    assert_eq!(b64_url_decode("ab"), Err(CodecError::InvalidEncoding));
}
