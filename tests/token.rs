use session_signer::{assemble_token, recover_value, sign, split_token, verify};

const HELLO_TOKEN: &str = "aGVsbG8.iKqz7ejTrflNJquQ07r9SiCDBww7zOnAFO4EpEOEfAs";

#[test]
fn sign_hello_with_secret() {
    assert_eq!(sign("hello", "secret"), HELLO_TOKEN);
}

#[test]
fn verify_hello_with_secret() {
    assert_eq!(verify(HELLO_TOKEN, "secret"), Some("hello".to_string()));
}

#[test]
fn verify_hello_with_wrong_secret() {
    assert_eq!(verify(HELLO_TOKEN, "wrong"), None);
}

#[test]
fn sign_empty_value_and_secret() {
    let token = sign("", "");
    assert_eq!(token, ".thNnmggU2ex3L5XXeMNfxf8Wl8STcVZTxscSFEKSxa0");
    assert_eq!(verify(&token, ""), Some(String::new()));
}

#[test]
fn trailing_segment_is_rejected() {
    let token = format!("{}.x", HELLO_TOKEN);
    assert_eq!(verify(&token, "secret"), None);
    assert_eq!(split_token(&token), None);
}

#[test]
fn round_trip_on_several_values() {
    let values = ["", "a", "ab", "abc", "hello world", "héllo wörld", "a.b.c", "=+/-_"];
    let secrets = ["", "s", "a much longer secret than the sixty-four bytes of a SHA-256 block, padded out"];
    for v in values.iter() {
        for s in secrets.iter() {
            let token = sign(v, s);
            assert_eq!(token.matches('.').count(), 1);
            assert_eq!(verify(&token, s), Some(v.to_string()));
        }
    }
}

#[test]
fn same_inputs_give_same_token() {
    assert_eq!(sign("payload", "k"), sign("payload", "k"));
    assert_eq!(sign("payload", "k"), "cGF5bG9hZA.U-HO3VUODmk84Duv5a5CTZ8pJxcBjVhqqt6HdIHcgkw");
}

#[test]
fn other_secret_is_rejected() {
    let token = sign("payload", "k");
    assert_eq!(verify(&token, "other"), None);
    assert_eq!(verify(&token, "K"), None);
    assert_eq!(verify(&token, ""), None);
    let other = sign("payload", "other");
    assert_eq!(other, "cGF5bG9hZA.tcm5zug8bdYV31AgMGWY08nMX0Ebq46OEAqvh2sn0qM");
    assert_eq!(verify(&other, "k"), None);
}

#[test]
fn tampered_value_segment_is_rejected() {
    assert_eq!(verify("aGVsbG9.iKqz7ejTrflNJquQ07r9SiCDBww7zOnAFO4EpEOEfAs", "secret"), None);
    assert_eq!(verify("bGVsbG8.iKqz7ejTrflNJquQ07r9SiCDBww7zOnAFO4EpEOEfAs", "secret"), None);
}

#[test]
fn tampered_tag_segment_is_rejected() {
    let bytes: Vec<char> = HELLO_TOKEN.chars().collect();
    let dot = HELLO_TOKEN.find('.').unwrap();
    for i in (dot + 1)..bytes.len() {
        let mut changed = bytes.clone();
        changed[i] = if bytes[i] == 'A' { 'B' } else { 'A' };
        let token: String = changed.into_iter().collect();
        assert_eq!(verify(&token, "secret"), None);
    }
}

#[test]
fn other_spellings_of_a_token_are_rejected() {
    let token = sign("payload", "k");
    assert_eq!(token, "cGF5bG9hZA.U-HO3VUODmk84Duv5a5CTZ8pJxcBjVhqqt6HdIHcgkw");
    assert_eq!(verify("cGF5bG9hZA.U+HO3VUODmk84Duv5a5CTZ8pJxcBjVhqqt6HdIHcgkw", "k"), None);
    assert_eq!(verify("cGF5bG9hZA==.U-HO3VUODmk84Duv5a5CTZ8pJxcBjVhqqt6HdIHcgkw", "k"), None);
    assert_eq!(verify("cGF5bG9hZA.U-HO3VUODmk84Duv5a5CTZ8pJxcBjVhqqt6HdIHcgkw=", "k"), None);
    assert_eq!(verify(&token, "k"), Some("payload".to_string()));
}

#[test]
fn every_single_character_change_is_rejected() {
    let chars: Vec<char> = HELLO_TOKEN.chars().collect();
    let replacements = ['A', 'z', '0', '-', '_', '+', '/', '=', '.', '*'];
    for i in 0..chars.len() {
        for r in replacements.iter() {
            if *r == chars[i] {
                continue;
            }
            let mut changed = chars.clone();
            changed[i] = *r;
            let token: String = changed.into_iter().collect();
            assert_eq!(verify(&token, "secret"), None, "{}", token);
        }
    }
}

#[test]
fn token_without_dot_is_rejected() {
    assert_eq!(verify("aGVsbG8iKqz7ejTrflNJquQ07r9SiCDBww7zOnAFO4EpEOEfAs", "secret"), None);
    assert_eq!(verify("", "secret"), None);
}

#[test]
fn token_with_two_dots_is_rejected() {
    assert_eq!(verify("aGVs.bG8.iKqz7ejTrflNJquQ07r9SiCDBww7zOnAFO4EpEOEfAs", "secret"), None);
    assert_eq!(verify("..", ""), None);
}

#[test]
fn token_with_foreign_characters_is_rejected() {
    assert_eq!(verify("aGVsbG*.iKqz7ejTrflNJquQ07r9SiCDBww7zOnAFO4EpEOEfAs", "secret"), None);
    assert_eq!(verify("aGVsbG8.iKqz7ejTrflNJquQ07r9SiCDBww7zOnAFO4EpEOEfA!", "secret"), None);
    assert_eq!(verify("aGVsbG8.iKqz7ejTrflNJquQ07r9SiCDBww7zOnAFO4EpEOEfAé", "secret"), None);
}

#[test]
fn non_utf8_value_opens_to_empty_text() {
    assert_eq!(verify("_w.vviou2xqwn6xsidJz_7w0XoDzEReeZKRKut-lulH9Nw", "k"), Some(String::new()));
}

#[test]
fn assemble_token_joins_encoded_segments() {
    assert_eq!(assemble_token(b"hello", &[0xfb, 0xff]), "aGVsbG8.-_8");
    assert_eq!(assemble_token(b"", b""), ".");
}

#[test]
fn split_token_decodes_both_segments() {
    assert_eq!(split_token("aGVsbG8.-_8"), Some((b"hello".to_vec(), vec![0xfb, 0xff])));
    assert_eq!(split_token("."), Some((Vec::new(), Vec::new())));
    assert_eq!(split_token("aGVsbG8"), None);
    assert_eq!(split_token("a.AA"), None);
    assert_eq!(split_token("AA.a"), None);
}

#[test]
fn recover_value_reads_utf8_or_gives_empty() {
    assert_eq!(recover_value(b"hi".to_vec()), "hi");
    assert_eq!(recover_value("wörld".as_bytes().to_vec()), "wörld");
    assert_eq!(recover_value(vec![0xff, 0xfe]), "");
}
