//! Signing a value into a token and opening a token again.
use vstd::prelude::*;
use vstd::utf8::*;
use crate::codec::{
    b64_std, decodes_to, is_url_symbol, lemma_ascii_valid_utf8, lemma_codec_round_trip,
    lemma_decoding_canonical, lemma_url_encoding_shape, std_form, url_decode_bytes, url_decoding,
    url_encode_bytes, url_encoding, utf8_text,
};
use crate::mac::{compute_tag, hmac_sha256, tag_matches};

verus! {

/// The delimiter `.` between the two segments.
pub open spec fn is_dot(c: u8) -> bool {
    c == 46
}

/// `s` holds no `.`.
pub open spec fn no_dot(s: Seq<u8>) -> bool {
    forall|k: int| 0 <= k < s.len() ==> !is_dot(#[trigger] s[k])
}

/// `t` is `a`, one `.` and `b`, with no other `.`.
pub open spec fn splits_at_dot(t: Seq<u8>, a: Seq<u8>, b: Seq<u8>) -> bool {
    no_dot(a) && no_dot(b) && t == a + seq![46u8] + b
}

/// The two segments of `t`, when it holds exactly one `.`.
pub open spec fn segments(t: Seq<u8>) -> Option<(Seq<u8>, Seq<u8>)> {
    if exists|a: Seq<u8>, b: Seq<u8>| splits_at_dot(t, a, b) {
        Some(choose|a: Seq<u8>, b: Seq<u8>| splits_at_dot(t, a, b))
    } else {
        None
    }
}

/// The bytes of a token: the encoded value, `.`, the encoded tag.
pub open spec fn token_bytes(value: Seq<u8>, tag: Seq<u8>) -> Seq<u8> {
    url_encoding(value) + seq![46u8] + url_encoding(tag)
}

/// The text of a token (all of its bytes are ASCII).
pub open spec fn token_text(value: Seq<u8>, tag: Seq<u8>) -> Seq<char> {
    decode_utf8(token_bytes(value, tag))
}

/// What the token `t` carries, value and tag, when both of its segments decode.
pub open spec fn parsed(t: Seq<u8>) -> Option<(Seq<u8>, Seq<u8>)> {
    match segments(t) {
        Some(p) => match (url_decoding(p.0), url_decoding(p.1)) {
            (Some(v), Some(g)) => Some((v, g)),
            _ => None,
        },
        None => None,
    }
}

/// A recovered value as text: its characters when it is UTF-8, else the empty text.
pub open spec fn value_text(v: Seq<u8>) -> Seq<char> {
    if valid_utf8(v) {
        decode_utf8(v)
    } else {
        Seq::empty()
    }
}

/// What the token `t` opens to under `key`: its value as text when its tag is the value's
/// tag under `key`, else nothing.
pub open spec fn opened(t: Seq<u8>, key: Seq<u8>) -> Option<Seq<char>> {
    match parsed(t) {
        Some(p) => if p.1 == hmac_sha256(key, p.0) {
            Some(value_text(p.0))
        } else {
            None
        },
        None => None,
    }
}

/// The `.` of a split token stands where the first segment ends, and nowhere else.
proof fn lemma_dot_position(t: Seq<u8>, a: Seq<u8>, b: Seq<u8>, k: int)
    requires
        splits_at_dot(t, a, b),
        0 <= k < t.len(),
        is_dot(t[k]),
    ensures
        k == a.len(),
{
    if k < a.len() {
        assert(t[k] == a[k]);
    } else if k > a.len() {
        assert(t[k] == b[k - a.len() - 1]);
    }
}

/// A token splits in one way only.
proof fn lemma_split_unique(t: Seq<u8>, a: Seq<u8>, b: Seq<u8>)
    requires
        splits_at_dot(t, a, b),
    ensures
        segments(t) == Some((a, b)),
{
    let (a2, b2) = choose|a2: Seq<u8>, b2: Seq<u8>| splits_at_dot(t, a2, b2);
    assert(is_dot(t[a.len() as int]));
    lemma_dot_position(t, a2, b2, a.len() as int);
    assert(a =~= t.take(a.len() as int));
    assert(a2 =~= t.take(a.len() as int));
    assert(b =~= t.skip(a.len() as int + 1));
    assert(b2 =~= t.skip(a.len() as int + 1));
}

/// Splits `t` at its one `.`; nothing when it holds none or more than one.
fn split_at_dot(t: &[u8]) -> (r: Option<(Vec<u8>, Vec<u8>)>)
    ensures
        (match r {
            Some(p) => splits_at_dot(t@, p.0@, p.1@),
            None => segments(t@) is None,
        }),
{
    let mut a: Vec<u8> = Vec::new();
    let mut b: Vec<u8> = Vec::new();
    let mut seen: bool = false;
    let mut i: usize = 0;
    while i < t.len()
        invariant
            i <= t@.len(),
            no_dot(a@),
            no_dot(b@),
            !seen ==> a@ == t@.take(i as int) && b@.len() == 0,
            seen ==> t@.take(i as int) == a@ + seq![46u8] + b@,
        decreases t@.len() - i,
    {
        let c = t[i];
        if c == 46 {
            if seen {
                proof {
                    let j = a@.len() as int;
                    assert(t@[j] == t@.take(i as int)[j]);
                    assert forall|a2: Seq<u8>, b2: Seq<u8>| !splits_at_dot(t@, a2, b2) by {
                        if splits_at_dot(t@, a2, b2) {
                            lemma_dot_position(t@, a2, b2, j);
                            lemma_dot_position(t@, a2, b2, i as int);
                        }
                    }
                }
                return None;
            }
            seen = true;
            assert(t@.take(i as int + 1) == a@ + seq![46u8] + b@);
        } else if seen {
            b.push(c);
            assert(t@.take(i as int + 1) == t@.take(i as int).push(c));
        } else {
            a.push(c);
            assert(t@.take(i as int + 1) == t@.take(i as int).push(c));
        }
        i = i + 1;
    }
    assert(t@.take(t@.len() as int) == t@);
    if seen {
        Some((a, b))
    } else {
        proof {
            assert forall|a2: Seq<u8>, b2: Seq<u8>| !splits_at_dot(t@, a2, b2) by {
                if splits_at_dot(t@, a2, b2) {
                    assert(t@[a2.len() as int] == 46u8);
                    assert(a@[a2.len() as int] == 46u8);
                }
            }
        }
        None
    }
}

/// Gates of the verifier before the tag: the token must hold exactly one `.`, and both of
/// its segments must decode. Gives the value's bytes and the tag's bytes.
pub fn split_token(signed: &str) -> (r: Option<(Vec<u8>, Vec<u8>)>)
    ensures
        (match r {
            Some(p) => parsed(encode_utf8(signed@)) == Some((p.0@, p.1@)),
            None => parsed(encode_utf8(signed@)) is None,
        }),
{
    let t = signed.as_bytes();
    let (a, b) = match split_at_dot(t) {
        Some(p) => p,
        None => return None,
    };
    proof {
        lemma_split_unique(t@, a@, b@);
    }
    let value = match url_decode_bytes(a.as_slice()) {
        Ok(v) => v,
        Err(_) => return None,
    };
    let tag = match url_decode_bytes(b.as_slice()) {
        Ok(g) => g,
        Err(_) => return None,
    };
    Some((value, tag))
}

/// A verified value as text: its characters when it is UTF-8, else the empty string.
pub fn recover_value(value: Vec<u8>) -> (r: String)
    ensures
        r@ == value_text(value@),
{
    match utf8_text(value) {
        Some(t) => t,
        None => String::new(),
    }
}

/// The token for a value and its tag: both encoded, joined by `.`.
pub fn assemble_token(value: &[u8], tag: &[u8]) -> (r: String)
    ensures
        r@ == token_text(value@, tag@),
{
    let mut bytes = url_encode_bytes(value);
    let tail = url_encode_bytes(tag);
    bytes.push(46);
    let mut i: usize = 0;
    while i < tail.len()
        invariant
            i <= tail@.len(),
            bytes@ == url_encoding(value@) + seq![46u8] + tail@.take(i as int),
        decreases tail@.len() - i,
    {
        bytes.push(tail[i]);
        assert(tail@.take(i as int + 1) == tail@.take(i as int).push(tail@[i as int]));
        i = i + 1;
    }
    assert(tail@.take(tail@.len() as int) == tail@);
    proof {
        lemma_token_ascii(value@, tag@);
    }
    match utf8_text(bytes) {
        Some(t) => t,
        None => {
            proof {
                assert(false);
            }
            String::new()
        },
    }
}

/// Signs `value` with `secret`: the token of the value's UTF-8 bytes and their HMAC-SHA256
/// tag under the secret's UTF-8 bytes.
pub fn sign(value: &str, secret: &str) -> (r: String)
    ensures
        r@ == token_text(
            encode_utf8(value@),
            hmac_sha256(encode_utf8(secret@), encode_utf8(value@)),
        ),
        hmac_sha256(encode_utf8(secret@), encode_utf8(value@)).len() == 32,
{
    let tag = compute_tag(secret.as_bytes(), value.as_bytes());
    assemble_token(value.as_bytes(), tag.as_slice())
}

/// Opens a token with `secret`: the value as text when the token is well formed and its tag
/// is the value's tag under the secret, else nothing. The tag is compared in constant time.
pub fn verify(signed: &str, secret: &str) -> (r: Option<String>)
    ensures
        (match r {
            Some(v) => opened(encode_utf8(signed@), encode_utf8(secret@)) == Some(v@),
            None => opened(encode_utf8(signed@), encode_utf8(secret@)) is None,
        }),
{
    let (value, tag) = match split_token(signed) {
        Some(p) => p,
        None => return None,
    };
    if tag_matches(secret.as_bytes(), value.as_slice(), tag.as_slice()) {
        Some(recover_value(value))
    } else {
        None
    }
}

/// Every byte of a token is ASCII, so its bytes are valid UTF-8 and are the bytes of its text.
pub proof fn lemma_token_ascii(value: Seq<u8>, tag: Seq<u8>)
    ensures
        valid_utf8(token_bytes(value, tag)),
        encode_utf8(token_text(value, tag)) == token_bytes(value, tag),
        forall|k: int|
            0 <= k < token_bytes(value, tag).len() ==> #[trigger] token_bytes(value, tag)[k] < 128,
{
    lemma_url_encoding_shape(value);
    lemma_url_encoding_shape(tag);
    let t = token_bytes(value, tag);
    let (a, b) = (url_encoding(value), url_encoding(tag));
    assert forall|k: int| 0 <= k < t.len() implies #[trigger] t[k] < 128 by {
        if k < a.len() {
            assert(t[k] == a[k]);
        } else if k > a.len() {
            assert(t[k] == b[k - a.len() - 1]);
        }
    }
    lemma_ascii_valid_utf8(t);
    decode_utf8_encode_utf8(t);
}

/// A token parses back into the value and the tag it was assembled from.
pub proof fn lemma_parsed_token(value: Seq<u8>, tag: Seq<u8>)
    ensures
        segments(token_bytes(value, tag)) == Some((url_encoding(value), url_encoding(tag))),
        parsed(token_bytes(value, tag)) == Some((value, tag)),
{
    lemma_url_encoding_shape(value);
    lemma_url_encoding_shape(tag);
    let (a, b) = (url_encoding(value), url_encoding(tag));
    assert forall|k: int| 0 <= k < a.len() implies !is_dot(#[trigger] a[k]) by {
        assert(is_url_symbol(a[k]));
    }
    assert forall|k: int| 0 <= k < b.len() implies !is_dot(#[trigger] b[k]) by {
        assert(is_url_symbol(b[k]));
    }
    lemma_split_unique(token_bytes(value, tag), a, b);
    lemma_codec_round_trip(value);
    lemma_codec_round_trip(tag);
}

/// Round trip: the token that `sign` makes of a text `v` with secret `s` opens under the same
/// secret to `v` itself.
pub proof fn lemma_sign_verify_round_trip(v: Seq<char>, s: Seq<char>)
    ensures
        opened(
            encode_utf8(token_text(encode_utf8(v), hmac_sha256(encode_utf8(s), encode_utf8(v)))),
            encode_utf8(s),
        ) == Some(v),
{
    let (vb, kb) = (encode_utf8(v), encode_utf8(s));
    let tag = hmac_sha256(kb, vb);
    lemma_token_ascii(vb, tag);
    lemma_parsed_token(vb, tag);
    encode_utf8_valid_utf8(v);
    encode_utf8_decode_utf8(v);
}

/// Another secret: the token that `sign` makes of `v` with `s1` does not open under `s2`
/// whenever the two secrets give `v` different tags.
pub proof fn lemma_other_secret_rejected(v: Seq<char>, s1: Seq<char>, s2: Seq<char>)
    requires
        hmac_sha256(encode_utf8(s2), encode_utf8(v)) != hmac_sha256(
            encode_utf8(s1),
            encode_utf8(v),
        ),
    ensures
        opened(
            encode_utf8(token_text(encode_utf8(v), hmac_sha256(encode_utf8(s1), encode_utf8(v)))),
            encode_utf8(s2),
        ) is None,
{
    let vb = encode_utf8(v);
    let tag = hmac_sha256(encode_utf8(s1), vb);
    lemma_token_ascii(vb, tag);
    lemma_parsed_token(vb, tag);
}

/// Tampering with the tag segment: replacing the byte at offset `k` of the tag segment of a
/// signed token by any other byte `c` makes the token open to nothing.
pub proof fn lemma_tag_tamper_rejected(value: Seq<u8>, key: Seq<u8>, k: int, c: u8)
    requires
        0 <= k < url_encoding(hmac_sha256(key, value)).len(),
        c != token_bytes(value, hmac_sha256(key, value))[url_encoding(value).len() + 1 + k],
    ensures
        opened(
            token_bytes(value, hmac_sha256(key, value)).update(
                url_encoding(value).len() + 1 + k,
                c,
            ),
            key,
        ) is None,
{
    let tag = hmac_sha256(key, value);
    let t = token_bytes(value, tag);
    let (a, b) = (url_encoding(value), url_encoding(tag));
    let j = a.len() + 1 + k;
    let t2 = t.update(j, c);
    lemma_parsed_token(value, tag);
    lemma_url_encoding_shape(value);
    lemma_url_encoding_shape(tag);
    assert(t[j] == b[k]);
    if is_dot(c) {
        assert forall|a2: Seq<u8>, b2: Seq<u8>| !splits_at_dot(t2, a2, b2) by {
            if splits_at_dot(t2, a2, b2) {
                assert(t2[a.len() as int] == 46u8);
                lemma_dot_position(t2, a2, b2, a.len() as int);
                lemma_dot_position(t2, a2, b2, j);
            }
        }
    } else {
        let b2 = b.update(k, c);
        assert(t2 =~= a + seq![46u8] + b2);
        assert forall|i: int| 0 <= i < b2.len() implies !is_dot(#[trigger] b2[i]) by {
            if i != k {
                assert(is_url_symbol(b[i]));
            }
        }
        assert forall|i: int| 0 <= i < a.len() implies !is_dot(#[trigger] a[i]) by {
            assert(is_url_symbol(a[i]));
        }
        lemma_split_unique(t2, a, b2);
        if let Some(g2) = url_decoding(b2) {
            assert(decodes_to(b2, g2));
            assert(is_url_symbol(b2[k]));
            assert(is_url_symbol(b[k]));
            assert(decodes_to(b, tag));
            assert(std_form(b2)[k] != std_form(b)[k]);
            assert(b64_std(g2) != b64_std(tag));
        }
    }
}

/// A token without any `.`, or with two or more, opens to nothing, whatever its segments and
/// the key.
pub proof fn lemma_dot_count_rejected(t: Seq<u8>, key: Seq<u8>)
    requires
        no_dot(t) || exists|i: int, j: int|
            0 <= i < j < t.len() && is_dot(#[trigger] t[i]) && is_dot(#[trigger] t[j]),
    ensures
        segments(t) is None,
        opened(t, key) is None,
{
    assert forall|a: Seq<u8>, b: Seq<u8>| !splits_at_dot(t, a, b) by {
        if splits_at_dot(t, a, b) {
            assert(t[a.len() as int] == 46u8);
            if !no_dot(t) {
                let (i, j) = choose|i: int, j: int|
                    0 <= i < j < t.len() && is_dot(#[trigger] t[i]) && is_dot(#[trigger] t[j]);
                lemma_dot_position(t, a, b, i);
                lemma_dot_position(t, a, b, j);
            }
        }
    }
}

/// A segment holding a byte outside the URL-safe alphabet (`+`, `/` and `=` among them) does
/// not decode.
pub proof fn lemma_foreign_segment_rejected(s: Seq<u8>, k: int)
    requires
        0 <= k < s.len(),
        !is_url_symbol(s[k]),
    ensures
        url_decoding(s) is None,
{
    if let Some(x) = url_decoding(s) {
        assert(decodes_to(s, x));
    }
}

/// A token holding a byte that is neither `.` nor in the URL-safe alphabet (`+`, `/` and `=`
/// among them) opens to nothing, whatever the key.
pub proof fn lemma_foreign_byte_rejected(t: Seq<u8>, key: Seq<u8>, k: int)
    requires
        0 <= k < t.len(),
        !is_url_symbol(t[k]),
        !is_dot(t[k]),
    ensures
        opened(t, key) is None,
{
    if let Some(p) = segments(t) {
        let (a, b) = p;
        assert(splits_at_dot(t, a, b));
        if k < a.len() {
            assert(t[k] == a[k]);
            lemma_foreign_segment_rejected(a, k);
        } else {
            assert(k != a.len());
            assert(t[k] == b[k - a.len() - 1]);
            lemma_foreign_segment_rejected(b, k - a.len() - 1);
        }
    }
}

/// One token per value and key: a token that opens under `key` is, byte for byte, the token
/// assembled from the value it carries and that value's tag under `key`.
pub proof fn lemma_token_canonical(t: Seq<u8>, key: Seq<u8>)
    requires
        opened(t, key) is Some,
    ensures
        parsed(t) matches Some(p) && t == token_bytes(p.0, hmac_sha256(key, p.0)),
{
    let (a, b) = segments(t)->0;
    assert(splits_at_dot(t, a, b));
    let v = url_decoding(a)->0;
    let g = url_decoding(b)->0;
    assert(decodes_to(a, v));
    assert(decodes_to(b, g));
    lemma_decoding_canonical(a, v);
    lemma_decoding_canonical(b, g);
}

} // verus!
