//! Base64 data URLs: how files and rendered pages are handed to the user
//! interface, and how uploaded data is read back.
use vstd::prelude::*;
use base64::Engine;
use crate::chars::chars_of;

verus! {

/// The standard base64 encoding (with padding) of `bytes`, as
/// `base64::engine::general_purpose::STANDARD` writes it.
pub uninterp spec fn base64_encoded(bytes: Seq<u8>) -> Seq<char>;

/// What `STANDARD.decode` gives for a text: the bytes, or the message of
/// the decoding error.
pub uninterp spec fn base64_decoded(text: Seq<char>) -> Result<Seq<u8>, Seq<char>>;

/// Length of the standard base64 text (with padding) of `n` bytes: four
/// characters for every three bytes or part of them.
pub open spec fn base64_len(n: nat) -> nat {
    4 * ((n + 2) / 3) as nat
}

/// A data URL with this prefix for `n` bytes fits a `String`: its length
/// (all of it ASCII, so as many bytes as characters) is at most
/// `isize::MAX`.
pub open spec fn data_url_fits(prefix: Seq<char>, n: nat) -> bool {
    prefix.len() + base64_len(n) <= isize::MAX
}

/// A successful decoding.
pub open spec fn ok_bytes(b: Seq<u8>) -> Result<Seq<u8>, Seq<char>> {
    Ok(b)
}

/// A failed decoding with its message.
pub open spec fn err_text(m: Seq<char>) -> Result<Seq<u8>, Seq<char>> {
    Err(m)
}

/// A character of the standard base64 alphabet, or the padding `=`.
pub open spec fn is_base64_char(c: char) -> bool {
    ('A' <= c && c <= 'Z') || ('a' <= c && c <= 'z') || ('0' <= c && c <= '9') || c == '+' || c
        == '/' || c == '='
}

/// Encodes bytes in standard base64 (`STANDARD.encode`).  The text uses
/// only the standard alphabet and padding, and decoding it gives the bytes
/// back.  The encoder allocates the whole text at once and panics
/// ("capacity overflow") when its length is over `isize::MAX`.
#[verifier::external_body]
pub(crate) fn base64_encode(bytes: &[u8]) -> (r: String)
    requires
        base64_len(bytes@.len()) <= isize::MAX,
    ensures
        r@ == base64_encoded(bytes@),
        forall|i: int| 0 <= i < r@.len() ==> is_base64_char(#[trigger] r@[i]),
        base64_decoded(r@) == ok_bytes(bytes@),
{
    base64::engine::general_purpose::STANDARD.encode(bytes)
}

/// Decodes standard base64 (`STANDARD.decode`); a failure is reported by
/// the error's message.
#[verifier::external_body]
pub(crate) fn base64_decode(text: &str) -> (r: Result<Vec<u8>, String>)
    ensures
        match r {
            Ok(b) => base64_decoded(text@) == ok_bytes(b@),
            Err(m) => base64_decoded(text@) == err_text(m@),
        },
{
    base64::engine::general_purpose::STANDARD.decode(text).map_err(|e| e.to_string())
}

/// The base64 part of a data URL: what follows the first comma, or the
/// whole text when there is no comma.
pub open spec fn data_url_payload(s: Seq<char>) -> Seq<char> {
    if exists|i: int| 0 <= i < s.len() && s[i] == ',' {
        let i = choose|i: int| 0 <= i < s.len() && s[i] == ',' && forall|j: int| 0 <= j < i ==> s[j] != ',';
        s.subrange(i + 1, s.len() as int)
    } else {
        s
    }
}

/// What decoding a data URL (or bare base64) gives.
pub open spec fn decoded_data_url(s: Seq<char>) -> Result<Seq<u8>, Seq<char>> {
    base64_decoded(data_url_payload(s))
}

/// The first comma of `s` is at `i`.
proof fn lemma_payload_at(s: Seq<char>, i: int)
    requires
        0 <= i < s.len(),
        s[i] == ',',
        forall|j: int| 0 <= j < i ==> s[j] != ',',
    ensures
        data_url_payload(s) == s.subrange(i + 1, s.len() as int),
{
    let k = choose|k: int| 0 <= k < s.len() && s[k] == ',' && forall|j: int| 0 <= j < k ==> s[j] != ',';
    assert(0 <= k < s.len() && s[k] == ',' && forall|j: int| 0 <= j < k ==> s[j] != ',');
    if k < i {
        assert(s[k] != ',');
    } else if i < k {
        assert(s[i] != ',');
    }
}

/// Decodes the data of a data URL (or of bare base64).
pub fn decode_base64(data: &str) -> (r: Result<Vec<u8>, String>)
    ensures
        match r {
            Ok(b) => decoded_data_url(data@) == ok_bytes(b@),
            Err(m) => decoded_data_url(data@) == err_text(m@),
        },
{
    let chars = chars_of(data);
    let mut i: usize = 0;
    while i < chars.len()
        invariant
            chars@ == data@,
            i <= chars@.len(),
            forall|j: int| 0 <= j < i ==> chars@[j] != ',',
        decreases chars.len() - i,
    {
        if chars[i] == ',' {
            proof {
                lemma_payload_at(data@, i as int);
            }
            let payload = data.substring_char(i + 1, chars.len());
            return base64_decode(payload);
        }
        i = i + 1;
    }
    base64_decode(data)
}

/// `prefix + payload` where `prefix` ends with its only comma and
/// `payload` has none decodes to what `payload` decodes to.
proof fn lemma_data_url_payload(prefix: Seq<char>, payload: Seq<char>)
    requires
        prefix.len() > 0,
        prefix.last() == ',',
        forall|j: int| 0 <= j < prefix.len() - 1 ==> prefix[j] != ',',
        forall|j: int| 0 <= j < payload.len() ==> is_base64_char(#[trigger] payload[j]),
    ensures
        data_url_payload(prefix + payload) == payload,
{
    let s = prefix + payload;
    lemma_payload_at(s, prefix.len() - 1);
    assert(s.subrange(prefix.len() as int, s.len() as int) =~= payload);
}

/// The data URL of a file of unspecified type.
pub open spec fn plain_data_url_prefix() -> Seq<char> {
    "data:;base64,"@
}

/// The data URL of a PNG image.
pub open spec fn png_data_url_prefix() -> Seq<char> {
    "data:image/png;base64,"@
}

/// A data URL holding `bytes` with no media type.
pub fn plain_data_url(bytes: &[u8]) -> (r: String)
    requires
        data_url_fits(plain_data_url_prefix(), bytes@.len()),
    ensures
        r@ == plain_data_url_prefix() + base64_encoded(bytes@),
        decoded_data_url(r@) == ok_bytes(bytes@),
{
    let b64 = base64_encode(bytes);
    let r = String::from_str("data:;base64,").concat(b64.as_str());
    proof {
        reveal_strlit("data:;base64,");
        lemma_data_url_payload(plain_data_url_prefix(), b64@);
    }
    r
}

/// A data URL holding PNG bytes.
pub fn png_data_url(png: &[u8]) -> (r: String)
    requires
        data_url_fits(png_data_url_prefix(), png@.len()),
    ensures
        r@ == png_data_url_prefix() + base64_encoded(png@),
        decoded_data_url(r@) == ok_bytes(png@),
{
    let b64 = base64_encode(png);
    let r = String::from_str("data:image/png;base64,").concat(b64.as_str());
    proof {
        reveal_strlit("data:image/png;base64,");
        lemma_data_url_payload(png_data_url_prefix(), b64@);
    }
    r
}

/// Whether the base64 text of `n` bytes, after `prefix_len` characters,
/// fits a `String`.
fn base64_fits_after(prefix_len: u64, n: usize) -> (r: bool)
    ensures
        r == (prefix_len + base64_len(n as nat) <= isize::MAX),
{
    let groups: u128 = (n as u128 + 2) / 3;
    let total: u128 = prefix_len as u128 + 4 * groups;
    total <= isize::MAX as u128
}

/// Whether the data URL of `n` bytes with no media type fits a `String`.
pub fn plain_data_url_fits(n: usize) -> (r: bool)
    ensures
        r == data_url_fits(plain_data_url_prefix(), n as nat),
{
    proof {
        reveal_strlit("data:;base64,");
    }
    base64_fits_after(13, n)
}

/// Whether the PNG data URL of `n` bytes fits a `String`.
pub fn png_data_url_fits(n: usize) -> (r: bool)
    ensures
        r == data_url_fits(png_data_url_prefix(), n as nat),
{
    proof {
        reveal_strlit("data:image/png;base64,");
    }
    base64_fits_after(22, n)
}

/// Law: decoding a data URL made from some bytes gives the bytes back, for
/// both kinds of data URL.
pub proof fn law_data_url_round_trip(bytes: Seq<u8>)
    requires
        base64_decoded(base64_encoded(bytes)) == ok_bytes(bytes),
        forall|j: int| 0 <= j < base64_encoded(bytes).len() ==> is_base64_char(
            #[trigger] base64_encoded(bytes)[j],
        ),
    ensures
        decoded_data_url(plain_data_url_prefix() + base64_encoded(bytes)) == ok_bytes(bytes),
        decoded_data_url(png_data_url_prefix() + base64_encoded(bytes)) == ok_bytes(bytes),
{
    reveal_strlit("data:;base64,");
    reveal_strlit("data:image/png;base64,");
    lemma_data_url_payload(plain_data_url_prefix(), base64_encoded(bytes));
    lemma_data_url_payload(png_data_url_prefix(), base64_encoded(bytes));
}

} // verus!
