//! Unpadded URL-safe base64 on top of the standard alphabet with padding.
use vstd::prelude::*;
use base64::Engine;
use vstd::utf8::*;

verus! {

/// The sixty-four symbols of the standard alphabet, by six-bit index.
pub open spec fn sym(i: u8) -> u8 {
    if i < 26 {
        (i + 65) as u8
    } else if i < 52 {
        (i + 71) as u8
    } else if i < 62 {
        (i - 4) as u8
    } else if i == 62 {
        43u8
    } else {
        47u8
    }
}

/// Is `c` one of the symbols of the standard alphabet (`A-Z`, `a-z`, `0-9`, `+`, `/`)?
pub open spec fn is_std_symbol(c: u8) -> bool {
    (65 <= c <= 90) || (97 <= c <= 122) || (48 <= c <= 57) || c == 43 || c == 47
}

/// Is `c` one of the symbols of the URL-safe alphabet (`A-Z`, `a-z`, `0-9`, `-`, `_`)?
pub open spec fn is_url_symbol(c: u8) -> bool {
    (65 <= c <= 90) || (97 <= c <= 122) || (48 <= c <= 57) || c == 45 || c == 95
}

/// Four symbols for three whole bytes.
pub open spec fn quad(b0: u8, b1: u8, b2: u8) -> Seq<u8> {
    seq![
        sym(b0 >> 2),
        sym(((b0 & 3) << 4) | (b1 >> 4)),
        sym(((b1 & 15) << 2) | (b2 >> 6)),
        sym(b2 & 63),
    ]
}

/// The symbols of a final group of one byte.
pub open spec fn tail_one(b0: u8) -> Seq<u8> {
    seq![sym(b0 >> 2), sym((b0 & 3) << 4)]
}

/// The symbols of a final group of two bytes.
pub open spec fn tail_two(b0: u8, b1: u8) -> Seq<u8> {
    seq![sym(b0 >> 2), sym(((b0 & 3) << 4) | (b1 >> 4)), sym((b1 & 15) << 2)]
}

/// Base64 symbols of `b`, before any padding.
pub open spec fn b64_symbols(b: Seq<u8>) -> Seq<u8>
    decreases b.len(),
{
    if b.len() == 0 {
        seq![]
    } else if b.len() == 1 {
        tail_one(b[0])
    } else if b.len() == 2 {
        tail_two(b[0], b[1])
    } else {
        quad(b[0], b[1], b[2]) + b64_symbols(b.skip(3))
    }
}

/// A run of `n` padding characters `=`.
pub open spec fn pad_run(n: nat) -> Seq<u8> {
    Seq::new(n, |i: int| 61u8)
}

/// Number of `=` that the standard encoding appends after `n` bytes.
pub open spec fn pad_after(n: nat) -> nat {
    if n % 3 == 1 {
        2
    } else if n % 3 == 2 {
        1
    } else {
        0
    }
}

/// Standard base64 of `b`, padded with `=` to a multiple of four.
pub open spec fn b64_std(b: Seq<u8>) -> Seq<u8> {
    b64_symbols(b) + pad_run(pad_after(b.len()))
}

/// Relies on base64's `STANDARD` engine (`Engine::encode`): standard alphabet, with padding.
#[verifier::external_body]
fn std_encode(data: &[u8]) -> (r: Vec<u8>)
    ensures
        r@ == b64_std(data@),
{
    base64::engine::general_purpose::STANDARD.encode(data).into_bytes()
}

#[verifier::external_type_specification]
#[verifier::external_body]
pub struct ExDecodeError(base64::DecodeError);

/// Relies on base64's `STANDARD` engine (`Engine::decode`). Its configuration asks for canonical
/// padding and refuses trailing bits, so it takes exactly the standard encodings of byte
/// sequences: what comes out encodes back to the input, and an encoding decodes back to its bytes.
#[verifier::external_body]
fn std_decode(input: &[u8]) -> (r: Result<Vec<u8>, base64::DecodeError>)
    ensures
        r matches Ok(v) ==> b64_std(v@) == input@,
        forall|b: Seq<u8>| b64_std(b) == input@ ==> (r is Ok && r->Ok_0@ == b),
{
    base64::engine::general_purpose::STANDARD.decode(input)
}

/// Relies on `String::from_utf8`: it succeeds exactly on valid UTF-8, and the text is then
/// the characters that the bytes encode.
#[verifier::external_body]
pub(crate) fn utf8_text(bytes: Vec<u8>) -> (r: Option<String>)
    ensures
        r is Some <==> valid_utf8(bytes@),
        r matches Some(t) ==> t@ == decode_utf8(bytes@),
{
    String::from_utf8(bytes).ok()
}

/// Why a segment is not unpadded URL-safe base64.
#[derive(Debug, Clone, Copy, PartialEq, Eq, Structural)]
pub enum CodecError {
    /// The length leaves one symbol over a whole number of groups of four.
    InvalidLength,
    /// Once padded, the text is no standard encoding of any byte sequence.
    InvalidEncoding,
}

/// `+` and `/` of the standard alphabet, written as `-` and `_`.
pub open spec fn to_url(c: u8) -> u8 {
    if c == 43 {
        45u8
    } else if c == 47 {
        95u8
    } else {
        c
    }
}

/// `-` and `_` of the URL-safe alphabet, written back as `+` and `/`.
pub open spec fn from_url(c: u8) -> u8 {
    if c == 45 {
        43u8
    } else if c == 95 {
        47u8
    } else {
        c
    }
}

/// Standard base64 text with every `=` dropped and the other characters passed through `to_url`.
pub open spec fn url_of_std(s: Seq<u8>) -> Seq<u8>
    decreases s.len(),
{
    if s.len() == 0 {
        seq![]
    } else if s.last() == 61 {
        url_of_std(s.drop_last())
    } else {
        url_of_std(s.drop_last()).push(to_url(s.last()))
    }
}

/// Unpadded URL-safe base64 of `b`.
pub open spec fn url_encoding(b: Seq<u8>) -> Seq<u8> {
    url_of_std(b64_std(b))
}

/// Padding that brings a length up to a multiple of four.
pub open spec fn pad_to_quad(n: nat) -> nat {
    ((4 - n % 4) % 4) as nat
}

/// URL-safe text `s` written back in the standard alphabet and padded with `=`.
pub open spec fn std_form(s: Seq<u8>) -> Seq<u8> {
    Seq::new(s.len(), |i: int| from_url(s[i])) + pad_run(pad_to_quad(s.len()))
}

/// Every byte of `s` is a symbol of the URL-safe alphabet.
pub open spec fn all_url_symbols(s: Seq<u8>) -> bool {
    forall|k: int| 0 <= k < s.len() ==> is_url_symbol(#[trigger] s[k])
}

/// `s` is the unpadded URL-safe base64 of `b`: it holds URL-safe symbols only, and written
/// back in the standard alphabet and padded it is the standard encoding of `b`.
pub open spec fn decodes_to(s: Seq<u8>, b: Seq<u8>) -> bool {
    s.len() % 4 != 1 && all_url_symbols(s) && b64_std(b) == std_form(s)
}

/// The bytes that URL-safe text `s` decodes to, if any.
pub open spec fn url_decoding(s: Seq<u8>) -> Option<Seq<u8>> {
    if exists|b: Seq<u8>| decodes_to(s, b) {
        Some(choose|b: Seq<u8>| decodes_to(s, b))
    } else {
        None
    }
}

fn to_url_byte(c: u8) -> (r: u8)
    ensures
        r == to_url(c),
{
    if c == 43 {
        45
    } else if c == 47 {
        95
    } else {
        c
    }
}

fn is_url_byte(c: u8) -> (r: bool)
    ensures
        r == is_url_symbol(c),
{
    (65 <= c && c <= 90) || (97 <= c && c <= 122) || (48 <= c && c <= 57) || c == 45 || c == 95
}

fn from_url_byte(c: u8) -> (r: u8)
    ensures
        r == from_url(c),
{
    if c == 45 {
        43
    } else if c == 95 {
        47
    } else {
        c
    }
}

/// Unpadded URL-safe base64 of `data`, as bytes.
pub(crate) fn url_encode_bytes(data: &[u8]) -> (r: Vec<u8>)
    ensures
        r@ == url_encoding(data@),
{
    let std = std_encode(data);
    let mut out: Vec<u8> = Vec::new();
    let mut i: usize = 0;
    while i < std.len()
        invariant
            i <= std@.len(),
            out@ == url_of_std(std@.take(i as int)),
        decreases std@.len() - i,
    {
        let c = std[i];
        assert(std@.take(i as int + 1).drop_last() == std@.take(i as int));
        if c != 61 {
            out.push(to_url_byte(c));
        }
        i = i + 1;
    }
    assert(std@.take(std@.len() as int) == std@);
    out
}

/// Decodes unpadded URL-safe base64 given as bytes.
pub(crate) fn url_decode_bytes(s: &[u8]) -> (r: Result<Vec<u8>, CodecError>)
    ensures
        s@.len() % 4 == 1 ==> r == Err::<Vec<u8>, CodecError>(CodecError::InvalidLength),
        s@.len() % 4 != 1 && !all_url_symbols(s@) ==> r == Err::<Vec<u8>, CodecError>(
            CodecError::InvalidEncoding,
        ),
        s@.len() % 4 != 1 && url_decoding(s@) is None ==> r == Err::<Vec<u8>, CodecError>(
            CodecError::InvalidEncoding,
        ),
        url_decoding(s@) matches Some(b) ==> (r matches Ok(v) && v@ == b),
{
    let n = s.len();
    if n % 4 == 1 {
        return Err(CodecError::InvalidLength);
    }
    let mut buf: Vec<u8> = Vec::new();
    let mut i: usize = 0;
    while i < n
        invariant
            i <= n == s@.len(),
            n % 4 != 1,
            buf@ == Seq::new(i as nat, |k: int| from_url(s@[k])),
            forall|k: int| 0 <= k < i ==> is_url_symbol(#[trigger] s@[k]),
        decreases n - i,
    {
        if !is_url_byte(s[i]) {
            return Err(CodecError::InvalidEncoding);
        }
        buf.push(from_url_byte(s[i]));
        i = i + 1;
    }
    let pads: usize = (4 - n % 4) % 4;
    let mut j: usize = 0;
    while j < pads
        invariant
            j <= pads == pad_to_quad(n as nat),
            buf@ == Seq::new(n as nat, |k: int| from_url(s@[k])) + pad_run(j as nat),
        decreases pads - j,
    {
        buf.push(61);
        assert(pad_run(j as nat).push(61) == pad_run(j as nat + 1));
        j = j + 1;
    }
    assert(buf@ == std_form(s@));
    match std_decode(&buf) {
        Ok(v) => {
            assert(decodes_to(s@, v@));
            Ok(v)
        },
        Err(_) => Err(CodecError::InvalidEncoding),
    }
}

proof fn lemma_sym(i: u8)
    requires
        i < 64,
    ensures
        is_std_symbol(sym(i)),
        forall|j: u8| j < 64 && #[trigger] sym(j) == sym(i) ==> j == i,
{
}

proof fn lemma_six_bits(b0: u8, b1: u8, b2: u8)
    ensures
        b0 >> 2 < 64,
        ((b0 & 3) << 4) | (b1 >> 4) < 64,
        ((b1 & 15) << 2) | (b2 >> 6) < 64,
        b2 & 63 < 64,
        (b0 & 3) << 4 < 64,
        (b1 & 15) << 2 < 64,
{
    assert(b0 >> 2 < 64) by (bit_vector);
    assert(((b0 & 3) << 4) | (b1 >> 4) < 64) by (bit_vector);
    assert(((b1 & 15) << 2) | (b2 >> 6) < 64) by (bit_vector);
    assert(b2 & 63 < 64) by (bit_vector);
    assert((b0 & 3) << 4 < 64) by (bit_vector);
    assert((b1 & 15) << 2 < 64) by (bit_vector);
}

/// Every symbol is in the standard alphabet, and the count of symbols follows from the count of bytes.
proof fn lemma_symbols_shape(b: Seq<u8>)
    ensures
        b64_symbols(b).len() == 4 * (b.len() / 3) + (if b.len() % 3 == 0 {
            0int
        } else {
            (b.len() % 3 + 1) as int
        }),
        forall|k: int| 0 <= k < b64_symbols(b).len() ==> is_std_symbol(#[trigger] b64_symbols(b)[k]),
    decreases b.len(),
{
    if b.len() == 0 {
    } else if b.len() == 1 {
        lemma_six_bits(b[0], 0, 0);
        lemma_sym(b[0] >> 2);
        lemma_sym((b[0] & 3) << 4);
    } else if b.len() == 2 {
        lemma_six_bits(b[0], b[1], 0);
        lemma_sym(b[0] >> 2);
        lemma_sym(((b[0] & 3) << 4) | (b[1] >> 4));
        lemma_sym((b[1] & 15) << 2);
    } else {
        let (b0, b1, b2) = (b[0], b[1], b[2]);
        lemma_six_bits(b0, b1, b2);
        lemma_sym(b0 >> 2);
        lemma_sym(((b0 & 3) << 4) | (b1 >> 4));
        lemma_sym(((b1 & 15) << 2) | (b2 >> 6));
        lemma_sym(b2 & 63);
        lemma_symbols_shape(b.skip(3));
        let q = quad(b0, b1, b2);
        let rest = b64_symbols(b.skip(3));
        assert forall|k: int| 0 <= k < b64_symbols(b).len() implies is_std_symbol(
            #[trigger] b64_symbols(b)[k],
        ) by {
            if k >= 4 {
                assert(b64_symbols(b)[k] == rest[k - 4]);
            }
        }
    }
}

/// Bytes are fixed by their symbols.
proof fn lemma_symbols_injective(b: Seq<u8>, c: Seq<u8>)
    requires
        b64_symbols(b) == b64_symbols(c),
    ensures
        b == c,
    decreases b.len(),
{
    lemma_symbols_shape(b);
    lemma_symbols_shape(c);
    let sb = b64_symbols(b);
    if b.len() == 0 {
        assert(c.len() == 0);
        assert(b =~= c);
    } else if b.len() == 1 {
        assert(c.len() == 1);
        let (x0, y0) = (b[0], c[0]);
        lemma_six_bits(x0, 0, 0);
        lemma_six_bits(y0, 0, 0);
        lemma_sym(x0 >> 2);
        lemma_sym((x0 & 3) << 4);
        assert(sb[0] == sym(y0 >> 2) && sb[1] == sym((y0 & 3) << 4));
        assert(x0 >> 2 == y0 >> 2 && (x0 & 3) << 4 == (y0 & 3) << 4 ==> x0 == y0) by (bit_vector);
        assert(b =~= c);
    } else if b.len() == 2 {
        assert(c.len() == 2);
        let (x0, x1, y0, y1) = (b[0], b[1], c[0], c[1]);
        lemma_six_bits(x0, x1, 0);
        lemma_six_bits(y0, y1, 0);
        lemma_sym(x0 >> 2);
        lemma_sym(((x0 & 3) << 4) | (x1 >> 4));
        lemma_sym((x1 & 15) << 2);
        assert(sb[0] == sym(y0 >> 2) && sb[1] == sym(((y0 & 3) << 4) | (y1 >> 4)) && sb[2] == sym(
            (y1 & 15) << 2,
        ));
        assert(x0 >> 2 == y0 >> 2 && ((x0 & 3) << 4) | (x1 >> 4) == ((y0 & 3) << 4) | (y1 >> 4)
            && (x1 & 15) << 2 == (y1 & 15) << 2 ==> x0 == y0 && x1 == y1) by (bit_vector);
        assert(b =~= c);
    } else {
        assert(c.len() >= 3);
        let (x0, x1, x2, y0, y1, y2) = (b[0], b[1], b[2], c[0], c[1], c[2]);
        lemma_six_bits(x0, x1, x2);
        lemma_six_bits(y0, y1, y2);
        lemma_sym(x0 >> 2);
        lemma_sym(((x0 & 3) << 4) | (x1 >> 4));
        lemma_sym(((x1 & 15) << 2) | (x2 >> 6));
        lemma_sym(x2 & 63);
        let sc = quad(y0, y1, y2) + b64_symbols(c.skip(3));
        assert(sb[0] == sc[0] && sb[1] == sc[1] && sb[2] == sc[2] && sb[3] == sc[3]);
        assert(x0 >> 2 == y0 >> 2 && ((x0 & 3) << 4) | (x1 >> 4) == ((y0 & 3) << 4) | (y1 >> 4)
            && ((x1 & 15) << 2) | (x2 >> 6) == ((y1 & 15) << 2) | (y2 >> 6) && x2 & 63 == y2 & 63
            ==> x0 == y0 && x1 == y1 && x2 == y2) by (bit_vector);
        assert(b64_symbols(b.skip(3)) =~= sb.skip(4));
        assert(b64_symbols(c.skip(3)) =~= sc.skip(4));
        lemma_symbols_injective(b.skip(3), c.skip(3));
        assert(b =~= b.take(3) + b.skip(3));
        assert(c =~= c.take(3) + c.skip(3));
        assert(b.take(3) =~= c.take(3));
    }
}

/// Distinct byte sequences have distinct standard encodings.
pub proof fn lemma_std_injective(b: Seq<u8>, c: Seq<u8>)
    requires
        b64_std(b) == b64_std(c),
    ensures
        b == c,
{
    lemma_symbols_shape(b);
    lemma_symbols_shape(c);
    let (sb, sc) = (b64_symbols(b), b64_symbols(c));
    let e = b64_std(b);
    if sb.len() < sc.len() {
        assert(e[sb.len() as int] == 61u8);
        assert(e[sb.len() as int] == sc[sb.len() as int]);
    } else if sc.len() < sb.len() {
        assert(e[sc.len() as int] == 61u8);
        assert(e[sc.len() as int] == sb[sc.len() as int]);
    }
    assert(sb =~= e.take(sb.len() as int));
    assert(sc =~= e.take(sc.len() as int));
    lemma_symbols_injective(b, c);
}

proof fn lemma_url_of_std_padded(x: Seq<u8>, n: nat)
    ensures
        url_of_std(x + pad_run(n)) == url_of_std(x),
    decreases n,
{
    if n > 0 {
        let y = x + pad_run(n);
        assert(y.drop_last() =~= x + pad_run((n - 1) as nat));
        lemma_url_of_std_padded(x, (n - 1) as nat);
    } else {
        assert(x + pad_run(0) =~= x);
    }
}

proof fn lemma_url_of_std_symbols(x: Seq<u8>)
    requires
        forall|k: int| 0 <= k < x.len() ==> is_std_symbol(#[trigger] x[k]),
    ensures
        url_of_std(x) =~= Seq::new(x.len(), |k: int| to_url(x[k])),
    decreases x.len(),
{
    if x.len() > 0 {
        assert(is_std_symbol(x[x.len() - 1]));
        lemma_url_of_std_symbols(x.drop_last());
    }
}

/// The URL-safe encoding is the standard symbols passed through `to_url`, without padding.
pub proof fn lemma_url_encoding_shape(b: Seq<u8>)
    ensures
        url_encoding(b) =~= Seq::new(b64_symbols(b).len(), |k: int| to_url(b64_symbols(b)[k])),
        url_encoding(b).len() % 4 != 1,
        forall|k: int|
            0 <= k < url_encoding(b).len() ==> is_url_symbol(#[trigger] url_encoding(b)[k]),
{
    lemma_symbols_shape(b);
    lemma_url_of_std_padded(b64_symbols(b), pad_after(b.len()));
    lemma_url_of_std_symbols(b64_symbols(b));
    assert forall|k: int| 0 <= k < url_encoding(b).len() implies is_url_symbol(
        #[trigger] url_encoding(b)[k],
    ) by {
        assert(is_std_symbol(b64_symbols(b)[k]));
    }
}

/// Bytes below 128 are valid UTF-8 on their own.
pub proof fn lemma_ascii_valid_utf8(b: Seq<u8>)
    requires
        forall|k: int| 0 <= k < b.len() ==> #[trigger] b[k] < 128,
    ensures
        valid_utf8(b),
    decreases b.len(),
{
    if b.len() > 0 {
        assert(pop_first_scalar(b) =~= b.skip(1));
        lemma_ascii_valid_utf8(b.skip(1));
    }
}

/// Unpadded URL-safe base64 of `data`: standard base64 with `+` and `/` written as `-`
/// and `_`, and the `=` padding dropped.
pub fn b64_url(data: &[u8]) -> (r: String)
    ensures
        r@ == decode_utf8(url_encoding(data@)),
        encode_utf8(r@) == url_encoding(data@),
{
    let bytes = url_encode_bytes(data);
    proof {
        lemma_url_encoding_shape(data@);
        lemma_ascii_valid_utf8(bytes@);
        decode_utf8_encode_utf8(bytes@);
    }
    match utf8_text(bytes) {
        Some(t) => t,
        None => {
            proof {
                assert(false);
            }
            String::new()
        },
    }
}

/// Decodes unpadded URL-safe base64: any byte outside the URL-safe alphabet (`+`, `/` and
/// `=` included) is refused, `-` and `_` are read as `+` and `/`, `=` padding is restored up
/// to a multiple of four, and the result is read as standard base64.
pub fn b64_url_decode(s: &str) -> (r: Result<Vec<u8>, CodecError>)
    ensures
        encode_utf8(s@).len() % 4 == 1 ==> r == Err::<Vec<u8>, CodecError>(
            CodecError::InvalidLength,
        ),
        encode_utf8(s@).len() % 4 != 1 && !all_url_symbols(encode_utf8(s@)) ==> r == Err::<
            Vec<u8>,
            CodecError,
        >(CodecError::InvalidEncoding),
        encode_utf8(s@).len() % 4 != 1 && url_decoding(encode_utf8(s@)) is None ==> r == Err::<
            Vec<u8>,
            CodecError,
        >(CodecError::InvalidEncoding),
        url_decoding(encode_utf8(s@)) matches Some(b) ==> (r matches Ok(v) && v@ == b),
{
    url_decode_bytes(s.as_bytes())
}

/// Canonical decoding: text decodes only when it is the encoding of what it decodes to, so no
/// other spelling of the same bytes is accepted.
pub proof fn lemma_decoding_canonical(s: Seq<u8>, x: Seq<u8>)
    requires
        decodes_to(s, x),
    ensures
        s == url_encoding(x),
{
    lemma_symbols_shape(x);
    lemma_url_encoding_shape(x);
    let syms = b64_symbols(x);
    let m = Seq::new(s.len(), |i: int| from_url(s[i]));
    let e = b64_std(x);
    assert(e == std_form(s));
    assert forall|i: int| 0 <= i < m.len() implies is_std_symbol(#[trigger] m[i]) by {
        assert(is_url_symbol(s[i]));
    }
    if m.len() < syms.len() {
        assert(e[m.len() as int] == syms[m.len() as int]);
        assert(std_form(s)[m.len() as int] == pad_run(pad_to_quad(s.len()))[0]);
    } else if syms.len() < m.len() {
        assert(e[syms.len() as int] == pad_run(pad_after(x.len()))[0]);
        assert(std_form(s)[syms.len() as int] == m[syms.len() as int]);
    }
    assert forall|i: int| 0 <= i < s.len() implies #[trigger] s[i] == to_url(syms[i]) by {
        assert(is_url_symbol(s[i]));
        assert(e[i] == syms[i]);
        assert(std_form(s)[i] == m[i]);
    }
    assert(s =~= url_encoding(x));
}

/// Codec round trip: decoding the URL-safe encoding of any byte sequence (empty included)
/// gives that sequence back, and the encoding holds only URL-safe symbols, so never `+`,
/// `/` or `=`.
pub proof fn lemma_codec_round_trip(b: Seq<u8>)
    ensures
        url_decoding(url_encoding(b)) == Some(b),
        forall|k: int|
            0 <= k < url_encoding(b).len() ==> {
                let c = #[trigger] url_encoding(b)[k];
                c != 43 && c != 47 && c != 61 && is_url_symbol(c)
            },
{
    lemma_url_encoding_shape(b);
    lemma_symbols_shape(b);
    let s = url_encoding(b);
    let syms = b64_symbols(b);
    assert(Seq::new(s.len(), |i: int| from_url(s[i])) =~= syms) by {
        assert forall|i: int| 0 <= i < s.len() implies from_url(s[i]) == syms[i] by {
            assert(is_std_symbol(syms[i]));
        }
    }
    assert(pad_to_quad(s.len()) == pad_after(b.len()));
    assert(decodes_to(s, b));
    let x = choose|x: Seq<u8>| decodes_to(s, x);
    lemma_std_injective(x, b);
}

} // verus!
