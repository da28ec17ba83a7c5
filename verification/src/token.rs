use vstd::prelude::*;
use vstd::string::StringSliceAdditionalSpecFns;
use vstd::utf8::decode_utf8;
use vstd::utf8::decode_utf8_encode_utf8;
use vstd::utf8::encode_utf8;
use vstd::utf8::encode_utf8_decode_utf8;
use vstd::utf8::encode_utf8_valid_utf8;
use vstd::utf8::valid_utf8;

use crate::error::AppError;
use crate::users::Claims;

verus! {

/// Why a session token was rejected.  The three kinds are distinguished
/// internally even where the boundary surfaces them uniformly.
#[derive(Clone, Copy, Debug, PartialEq, Eq, Structural)]
pub enum AuthError {
    /// The token does not even decode: wrong shape, bad base64, bad claims.
    Malformed,
    /// The token decodes but its signature does not match the server key.
    BadSignature,
    /// The token is genuine but its validity window has elapsed.
    Expired,
}

// ---------------------------------------------------------------------------
// Trusted view of the outside primitives: base64url and HMAC-SHA256.
// ---------------------------------------------------------------------------

/// The URL-safe, unpadded base64 encoding of a byte string.
pub uninterp spec fn b64url_of(bytes: Seq<u8>) -> Seq<char>;

/// What URL-safe, unpadded base64 decoding yields for a string: `None` when
/// the string is not valid base64.
pub uninterp spec fn b64url_decode_of(s: Seq<char>) -> Option<Seq<u8>>;

/// The base64url-encoded HMAC-SHA256 signature of a message under a key.
pub uninterp spec fn hs256_sig(key: Seq<u8>, msg: Seq<char>) -> Seq<char>;

/// No character of `s` is a dot.
pub open spec fn dot_free(s: Seq<char>) -> bool {
    forall|i: int| 0 <= i < s.len() ==> s[i] != '.'
}

/// Relies on base64::encode_config with URL_SAFE_NO_PAD: the output is drawn
/// from the URL-safe alphabet (no dot), and decoding with the same
/// configuration inverts it.
#[verifier::external_body]
fn b64url_encode(bytes: &[u8]) -> (r: String)
    requires
        bytes@.len() <= 0x1000_0000,
    ensures
        r@ == b64url_of(bytes@),
        b64url_decode_of(r@) == Some(bytes@),
        dot_free(r@),
{
    base64::encode_config(bytes, base64::URL_SAFE_NO_PAD)
}

/// Relies on base64::decode_config with URL_SAFE_NO_PAD: it errs exactly on
/// strings that are not valid base64 in that configuration.
#[verifier::external_body]
fn b64url_decode(s: &str) -> (r: Option<Vec<u8>>)
    ensures
        match r {
            Some(v) => b64url_decode_of(s@) == Some(v@),
            None => b64url_decode_of(s@) is None,
        },
{
    match base64::decode_config(s, base64::URL_SAFE_NO_PAD) {
        Ok(v) => Some(v),
        Err(_) => None,
    }
}

/// Relies on jsonwebtoken's crypto::sign with HS256: for an HMAC algorithm
/// it never fails, and returns the base64url encoding of the HMAC-SHA256 tag
/// of the message under the key, which holds no dot.
#[verifier::external_body]
fn sign_hs256(key: &[u8], msg: &str) -> (r: Option<String>)
    ensures
        r is Some,
        r matches Some(s) ==> s@ == hs256_sig(key@, msg@) && dot_free(s@),
{
    match jsonwebtoken::crypto::sign(
        msg.as_bytes(),
        &jsonwebtoken::EncodingKey::from_secret(key),
        jsonwebtoken::Algorithm::HS256,
    ) {
        Ok(s) => Some(s),
        Err(_) => None,
    }
}

/// Relies on jsonwebtoken's crypto::verify with HS256: it re-signs the
/// message under the key and compares the resulting base64url string with
/// the given signature, so for an HMAC algorithm it never fails and reports
/// exactly whether the two strings are equal.
#[verifier::external_body]
fn verify_hs256(key: &[u8], msg: &str, sig: &str) -> (r: Option<bool>)
    ensures
        r is Some,
        r matches Some(b) ==> b == (sig@ == hs256_sig(key@, msg@)),
{
    match jsonwebtoken::crypto::verify(
        sig,
        msg.as_bytes(),
        &jsonwebtoken::DecodingKey::from_secret(key),
        jsonwebtoken::Algorithm::HS256,
    ) {
        Ok(b) => Some(b),
        Err(_) => None,
    }
}

/// Relies on String::from_utf8: it succeeds exactly on valid UTF-8 and then
/// returns the string those bytes encode.
#[verifier::external_body]
fn string_from_utf8(v: Vec<u8>) -> (r: Option<String>)
    ensures
        r is Some <==> valid_utf8(v@),
        r matches Some(s) ==> s@ == decode_utf8(v@),
{
    match String::from_utf8(v) {
        Ok(s) => Some(s),
        Err(_) => None,
    }
}

// ---------------------------------------------------------------------------
// The serialized claims: a fixed JSON shape over plain bytes.
// ---------------------------------------------------------------------------

/// The bytes of `{"exp":`.
pub open spec fn json_prefix() -> Seq<u8> {
    seq!['{' as u8, '"' as u8, 'e' as u8, 'x' as u8, 'p' as u8, '"' as u8, ':' as u8]
}

/// The bytes of `,"is_admin":`.
pub open spec fn json_mid_admin() -> Seq<u8> {
    seq![
        ',' as u8,
        '"' as u8,
        'i' as u8,
        's' as u8,
        '_' as u8,
        'a' as u8,
        'd' as u8,
        'm' as u8,
        'i' as u8,
        'n' as u8,
        '"' as u8,
        ':' as u8,
    ]
}

/// The bytes of `,"email":"`.
pub open spec fn json_mid_email() -> Seq<u8> {
    seq![
        ',' as u8,
        '"' as u8,
        'e' as u8,
        'm' as u8,
        'a' as u8,
        'i' as u8,
        'l' as u8,
        '"' as u8,
        ':' as u8,
        '"' as u8,
    ]
}

/// The bytes of `"}`.
pub open spec fn json_suffix() -> Seq<u8> {
    seq!['"' as u8, '}' as u8]
}

/// The bytes of `true`.
pub open spec fn json_true() -> Seq<u8> {
    seq!['t' as u8, 'r' as u8, 'u' as u8, 'e' as u8]
}

/// The bytes of `false`.
pub open spec fn json_false() -> Seq<u8> {
    seq!['f' as u8, 'a' as u8, 'l' as u8, 's' as u8, 'e' as u8]
}

/// The bytes of the fixed JWT header `{"alg":"HS256","typ":"JWT"}`.
pub open spec fn header_bytes() -> Seq<u8> {
    seq![
        '{' as u8,
        '"' as u8,
        'a' as u8,
        'l' as u8,
        'g' as u8,
        '"' as u8,
        ':' as u8,
        '"' as u8,
        'H' as u8,
        'S' as u8,
        '2' as u8,
        '5' as u8,
        '6' as u8,
        '"' as u8,
        ',' as u8,
        '"' as u8,
        't' as u8,
        'y' as u8,
        'p' as u8,
        '"' as u8,
        ':' as u8,
        '"' as u8,
        'J' as u8,
        'W' as u8,
        'T' as u8,
        '"' as u8,
        '}' as u8,
    ]
}

/// A decimal digit byte.
pub open spec fn is_digit(b: u8) -> bool {
    0x30 <= b <= 0x39
}

/// Every byte of `s` is a decimal digit.
pub open spec fn all_digits(s: Seq<u8>) -> bool {
    forall|i: int| 0 <= i < s.len() ==> is_digit(#[trigger] s[i])
}

/// The number a run of digit bytes denotes.
pub open spec fn digits_value(s: Seq<u8>) -> int
    decreases s.len(),
{
    if s.len() == 0 {
        0
    } else {
        digits_value(s.drop_last()) * 10 + (s.last() - 0x30)
    }
}

/// The canonical decimal digit bytes of `n`: no leading zero except for the
/// number zero itself.
pub open spec fn dec_bytes(n: u64) -> Seq<u8>
    decreases n,
{
    if n < 10 {
        seq![(0x30 + n) as u8]
    } else {
        dec_bytes(n / 10) + seq![(0x30 + n % 10) as u8]
    }
}

/// A fixed-shape JSON object: the expiration first, the administrator flag
/// second and the email bytes, quoted, last.
pub open spec fn claims_frame(exp: u64, admin: bool, em: Seq<u8>) -> Seq<u8> {
    json_prefix() + dec_bytes(exp) + json_mid_admin() + (if admin {
        json_true()
    } else {
        json_false()
    }) + json_mid_email() + em + json_suffix()
}

/// The serialized form of a claims value: the frame around the UTF-8 bytes
/// of the subject email.
pub open spec fn spec_claims_bytes(email: Seq<char>, exp: u64, admin: bool) -> Seq<u8> {
    claims_frame(exp, admin, encode_utf8(email))
}

// ---------------------------------------------------------------------------
// Facts about decimal digit runs.
// ---------------------------------------------------------------------------

proof fn lemma_dec_bytes_props(n: u64)
    ensures
        all_digits(dec_bytes(n)),
        dec_bytes(n).len() >= 1,
        digits_value(dec_bytes(n)) == n,
        n > 0 ==> dec_bytes(n)[0] != 0x30,
        n == 0 ==> dec_bytes(n) == seq![0x30u8],
    decreases n,
{
    if n < 10 {
        let s = dec_bytes(n);
        assert(s == seq![(0x30 + n) as u8]);
        assert(s.drop_last() =~= Seq::<u8>::empty());
        assert(s.last() == (0x30 + n) as u8);
        assert(digits_value(s) == digits_value(s.drop_last()) * 10 + (s.last() - 0x30));
        assert(digits_value(s.drop_last()) == 0);
    } else {
        lemma_dec_bytes_props(n / 10);
        let s = dec_bytes(n);
        assert(s.drop_last() =~= dec_bytes(n / 10));
        assert(s.last() == (0x30 + n % 10) as u8);
        assert(digits_value(s) == (n / 10) * 10 + n % 10);
        assert(s[0] == dec_bytes(n / 10)[0]);
        assert forall|i: int| 0 <= i < s.len() implies is_digit(#[trigger] s[i]) by {
            if i < s.len() - 1 {
                assert(s[i] == dec_bytes(n / 10)[i]);
            }
        }
    }
}

proof fn lemma_digits_value_nonneg(s: Seq<u8>)
    requires
        all_digits(s),
    ensures
        digits_value(s) >= 0,
    decreases s.len(),
{
    if s.len() > 0 {
        assert(all_digits(s.drop_last()));
        lemma_digits_value_nonneg(s.drop_last());
    }
}

proof fn lemma_digits_value_pos(s: Seq<u8>)
    requires
        all_digits(s),
        s.len() >= 1,
        s[0] != 0x30,
    ensures
        digits_value(s) >= 1,
    decreases s.len(),
{
    if s.len() == 1 {
        assert(is_digit(s[0]));
        assert(s.last() == s[0]);
        assert(s.drop_last() =~= Seq::<u8>::empty());
        assert(digits_value(s) == digits_value(s.drop_last()) * 10 + (s.last() - 0x30));
    } else {
        let t = s.drop_last();
        assert(all_digits(t));
        assert(t[0] == s[0]);
        assert(is_digit(s.last()));
        lemma_digits_value_pos(t);
        assert(digits_value(s) == digits_value(t) * 10 + (s.last() - 0x30));
    }
}

/// A digit run without a spurious leading zero is the canonical decimal form
/// of the number it denotes.
proof fn lemma_digits_canonical(s: Seq<u8>)
    requires
        all_digits(s),
        s.len() >= 1,
        s[0] == 0x30 ==> s.len() == 1,
        digits_value(s) <= u64::MAX,
    ensures
        dec_bytes(digits_value(s) as u64) == s,
    decreases s.len(),
{
    lemma_digits_value_nonneg(s);
    if s.len() == 1 {
        assert(is_digit(s[0]));
        assert(s.last() == s[0]);
        assert(s.drop_last() =~= Seq::<u8>::empty());
        assert(digits_value(s) == digits_value(s.drop_last()) * 10 + (s.last() - 0x30));
        assert(digits_value(s) == s[0] - 0x30);
        assert(dec_bytes(digits_value(s) as u64) =~= s);
    } else {
        let t = s.drop_last();
        let d = s.last() - 0x30;
        assert(all_digits(t));
        assert(t[0] == s[0]);
        assert(t[0] != 0x30);
        lemma_digits_value_pos(t);
        lemma_digits_value_nonneg(t);
        assert(digits_value(s) == digits_value(t) * 10 + d);
        assert(digits_value(t) <= u64::MAX) by {
            assert(digits_value(t) * 10 <= digits_value(s));
        }
        lemma_digits_canonical(t);
        let v = digits_value(s) as u64;
        assert(v >= 10);
        assert(v / 10 == digits_value(t));
        assert(v % 10 == d);
        assert(dec_bytes(v) == dec_bytes(v / 10) + seq![(0x30 + v % 10) as u8]);
        assert(dec_bytes(v) =~= s);
    }
}

proof fn lemma_digits_prefix_le(s: Seq<u8>, k: int)
    requires
        all_digits(s),
        0 <= k <= s.len(),
    ensures
        digits_value(s.take(k)) <= digits_value(s),
    decreases s.len(),
{
    lemma_digits_value_nonneg(s);
    if k == s.len() {
        assert(s.take(k) =~= s);
    } else {
        let t = s.drop_last();
        assert(all_digits(t));
        assert(s.take(k) =~= t.take(k));
        lemma_digits_prefix_le(t, k);
        lemma_digits_value_nonneg(t);
        assert(is_digit(s.last()));
        assert(digits_value(s) == digits_value(t) * 10 + (s.last() - 0x30));
    }
}

/// Ten to the `k`.
pub open spec fn pow10(k: nat) -> nat
    decreases k,
{
    if k == 0 {
        1
    } else {
        10 * pow10((k - 1) as nat)
    }
}

proof fn lemma_dec_len(n: u64, k: nat)
    requires
        1 <= k,
        (n as nat) < pow10(k),
    ensures
        dec_bytes(n).len() <= k,
    decreases k,
{
    if n < 10 {
    } else {
        assert(k >= 2) by {
            if k == 1 {
                assert(pow10(1) == 10) by {
                    reveal_with_fuel(pow10, 3);
                }
            }
        }
        assert(pow10(k) == 10 * pow10((k - 1) as nat));
        lemma_dec_len(n / 10, (k - 1) as nat);
    }
}

/// Every `u64` has at most twenty decimal digits.
proof fn lemma_dec_len_u64(n: u64)
    ensures
        1 <= dec_bytes(n).len() <= 20,
{
    lemma_dec_bytes_props(n);
    assert((n as nat) < pow10(20)) by {
        reveal_with_fuel(pow10, 21);
    }
    lemma_dec_len(n, 20);
}

// ---------------------------------------------------------------------------
// Executable byte helpers.
// ---------------------------------------------------------------------------

fn json_prefix_vec() -> (r: Vec<u8>)
    ensures
        r@ == json_prefix(),
{
    let mut v: Vec<u8> = Vec::new();
    v.push('{' as u8);
    v.push('"' as u8);
    v.push('e' as u8);
    v.push('x' as u8);
    v.push('p' as u8);
    v.push('"' as u8);
    v.push(':' as u8);
    assert(v@ =~= json_prefix());
    v
}

fn json_mid_admin_vec() -> (r: Vec<u8>)
    ensures
        r@ == json_mid_admin(),
{
    let mut v: Vec<u8> = Vec::new();
    v.push(',' as u8);
    v.push('"' as u8);
    v.push('i' as u8);
    v.push('s' as u8);
    v.push('_' as u8);
    v.push('a' as u8);
    v.push('d' as u8);
    v.push('m' as u8);
    v.push('i' as u8);
    v.push('n' as u8);
    v.push('"' as u8);
    v.push(':' as u8);
    assert(v@ =~= json_mid_admin());
    v
}

fn json_mid_email_vec() -> (r: Vec<u8>)
    ensures
        r@ == json_mid_email(),
{
    let mut v: Vec<u8> = Vec::new();
    v.push(',' as u8);
    v.push('"' as u8);
    v.push('e' as u8);
    v.push('m' as u8);
    v.push('a' as u8);
    v.push('i' as u8);
    v.push('l' as u8);
    v.push('"' as u8);
    v.push(':' as u8);
    v.push('"' as u8);
    assert(v@ =~= json_mid_email());
    v
}

fn json_true_vec() -> (r: Vec<u8>)
    ensures
        r@ == json_true(),
{
    let mut v: Vec<u8> = Vec::new();
    v.push('t' as u8);
    v.push('r' as u8);
    v.push('u' as u8);
    v.push('e' as u8);
    assert(v@ =~= json_true());
    v
}

fn json_false_vec() -> (r: Vec<u8>)
    ensures
        r@ == json_false(),
{
    let mut v: Vec<u8> = Vec::new();
    v.push('f' as u8);
    v.push('a' as u8);
    v.push('l' as u8);
    v.push('s' as u8);
    v.push('e' as u8);
    assert(v@ =~= json_false());
    v
}

fn header_bytes_vec() -> (r: Vec<u8>)
    ensures
        r@ == header_bytes(),
{
    let mut v: Vec<u8> = Vec::new();
    v.push('{' as u8);
    v.push('"' as u8);
    v.push('a' as u8);
    v.push('l' as u8);
    v.push('g' as u8);
    v.push('"' as u8);
    v.push(':' as u8);
    v.push('"' as u8);
    v.push('H' as u8);
    v.push('S' as u8);
    v.push('2' as u8);
    v.push('5' as u8);
    v.push('6' as u8);
    v.push('"' as u8);
    v.push(',' as u8);
    v.push('"' as u8);
    v.push('t' as u8);
    v.push('y' as u8);
    v.push('p' as u8);
    v.push('"' as u8);
    v.push(':' as u8);
    v.push('"' as u8);
    v.push('J' as u8);
    v.push('W' as u8);
    v.push('T' as u8);
    v.push('"' as u8);
    v.push('}' as u8);
    assert(v@ =~= header_bytes());
    v
}

fn push_dec(v: &mut Vec<u8>, n: u64)
    ensures
        final(v)@ == old(v)@ + dec_bytes(n),
    decreases n,
{
    if n < 10 {
        v.push((0x30 + n) as u8);
        assert(v@ =~= old(v)@ + dec_bytes(n));
    } else {
        push_dec(v, n / 10);
        v.push((0x30 + n % 10) as u8);
        assert(v@ =~= old(v)@ + dec_bytes(n));
    }
}

/// Whether the bytes of `pat` occur in `v` starting at `pos`.
fn match_at(v: &Vec<u8>, pos: usize, pat: &Vec<u8>) -> (b: bool)
    ensures
        b == (pos + pat@.len() <= v@.len() && v@.subrange(
            pos as int,
            pos as int + pat@.len() as int,
        ) == pat@),
{
    let n = v.len();
    if pos > n || pat.len() > n - pos {
        return false;
    }
    let m = pat.len();
    let mut j: usize = 0;
    while j < m
        invariant
            j <= m,
            n == v@.len(),
            pos + m <= n,
            m == pat@.len(),
            forall|t: int| 0 <= t < j ==> v@[pos + t] == pat@[t],
        decreases m - j,
    {
        if v[pos + j] != pat[j] {
            assert(v@.subrange(pos as int, pos as int + m as int) != pat@) by {
                assert(v@.subrange(pos as int, pos as int + m as int)[j as int] == v@[pos + j]);
            }
            return false;
        }
        j += 1;
    }
    assert(v@.subrange(pos as int, pos as int + m as int) =~= pat@);
    true
}

/// Whether two byte vectors hold the same bytes.
fn bytes_eq(a: &Vec<u8>, b: &Vec<u8>) -> (r: bool)
    ensures
        r == (a@ == b@),
{
    if a.len() != b.len() {
        return false;
    }
    let n = a.len();
    let mut j: usize = 0;
    while j < n
        invariant
            j <= n,
            n == a@.len() == b@.len(),
            forall|t: int| 0 <= t < j ==> a@[t] == b@[t],
        decreases n - j,
    {
        if a[j] != b[j] {
            return false;
        }
        j += 1;
    }
    assert(a@ =~= b@);
    true
}

/// Scan a run of decimal digits from `start`, folding their value.  `None`
/// means the digits overflow a `u64`.
fn scan_digits(v: &Vec<u8>, start: usize) -> (r: Option<(usize, u64)>)
    requires
        start <= v@.len(),
    ensures
        match r {
            Some(pair) => {
                &&& start <= pair.0 <= v@.len()
                &&& all_digits(v@.subrange(start as int, pair.0 as int))
                &&& (pair.0 == v@.len() || !is_digit(v@[pair.0 as int]))
                &&& pair.1 == digits_value(v@.subrange(start as int, pair.0 as int))
            },
            None => exists|k: int|
                start <= k <= v@.len() && all_digits(#[trigger] v@.subrange(start as int, k))
                    && digits_value(v@.subrange(start as int, k)) > u64::MAX,
        },
{
    let n = v.len();
    let mut acc: u64 = 0;
    let mut i: usize = start;
    loop
        invariant
            start <= i <= n,
            n == v@.len(),
            all_digits(v@.subrange(start as int, i as int)),
            acc == digits_value(v@.subrange(start as int, i as int)),
        decreases n - i,
    {
        if i == n {
            return Some((i, acc));
        }
        let b = v[i];
        if b < 0x30 || b > 0x39 {
            return Some((i, acc));
        }
        let d = (b - 0x30) as u64;
        proof {
            assert(v@.subrange(start as int, i as int + 1).drop_last() =~= v@.subrange(
                start as int,
                i as int,
            ));
            assert(all_digits(v@.subrange(start as int, i as int + 1)));
            assert(digits_value(v@.subrange(start as int, i as int + 1)) == acc * 10 + d);
        }
        if acc > (0xffff_ffff_ffff_ffffu64 - d) / 10 {
            proof {
                assert(acc * 10 + d > u64::MAX);
            }
            return None;
        }
        acc = acc * 10 + d;
        i += 1;
    }
}

// ---------------------------------------------------------------------------
// Serializing and parsing the claims JSON.
// ---------------------------------------------------------------------------

/// The digit count of the serialized expiration.
pub open spec fn cb_dl(x: u64) -> int {
    dec_bytes(x).len() as int
}

/// The byte count of the serialized administrator flag.
pub open spec fn cb_bl(a: bool) -> int {
    if a {
        4int
    } else {
        5int
    }
}

/// Where each field of the canonical claims serialization sits.
proof fn lemma_claims_bytes_structure(e: Seq<char>, x: u64, a: bool)
    ensures
        ({
            let w = spec_claims_bytes(e, x, a);
            let dl = cb_dl(x);
            let bl = cb_bl(a);
            &&& dl >= 1
            &&& w.len() == 31 + dl + bl + encode_utf8(e).len()
            &&& w.subrange(0, 7) == json_prefix()
            &&& w.subrange(7, 7 + dl) == dec_bytes(x)
            &&& all_digits(w.subrange(7, 7 + dl))
            &&& digits_value(w.subrange(7, 7 + dl)) == x
            &&& (w[7] == 0x30 ==> dl == 1)
            &&& !is_digit(w[7 + dl])
            &&& w.subrange(7 + dl, 19 + dl) == json_mid_admin()
            &&& w.subrange(19 + dl, 19 + dl + bl) == (if a {
                json_true()
            } else {
                json_false()
            })
            &&& w[19 + dl] == (if a {
                't' as u8
            } else {
                'f' as u8
            })
            &&& w.subrange(19 + dl + bl, 29 + dl + bl) == json_mid_email()
            &&& w.subrange(29 + dl + bl, w.len() - 2) == encode_utf8(e)
            &&& w[w.len() - 2] == 0x22
            &&& w[w.len() - 1] == 0x7d
        }),
{
    lemma_dec_bytes_props(x);
    let w = spec_claims_bytes(e, x, a);
    let dl = cb_dl(x);
    let bl = cb_bl(a);
    assert(w.subrange(0, 7) =~= json_prefix());
    assert(w.subrange(7, 7 + dl) =~= dec_bytes(x));
    assert(w.subrange(7 + dl, 19 + dl) =~= json_mid_admin());
    assert(w[7 + dl] == json_mid_admin()[0]);
    assert(w.subrange(19 + dl, 19 + dl + bl) =~= (if a {
        json_true()
    } else {
        json_false()
    }));
    assert(w[19 + dl] == w.subrange(19 + dl, 19 + dl + bl)[0]);
    assert(w.subrange(19 + dl + bl, 29 + dl + bl) =~= json_mid_email());
    assert(w.subrange(29 + dl + bl, w.len() - 2) =~= encode_utf8(e));
    assert(w[w.len() - 2] == json_suffix()[0]);
    assert(w[w.len() - 1] == json_suffix()[1]);
    assert(w[7] == dec_bytes(x)[0]);
}

/// The claims of a token serialized as the fixed JSON shape.
fn claims_to_json(email: &str, exp: u64, is_admin: bool) -> (r: Vec<u8>)
    ensures
        r@ == spec_claims_bytes(email@, exp, is_admin),
{
    let mut v = json_prefix_vec();
    push_dec(&mut v, exp);
    let mut part = json_mid_admin_vec();
    v.append(&mut part);
    let mut flag = if is_admin {
        json_true_vec()
    } else {
        json_false_vec()
    };
    v.append(&mut flag);
    let mut part2 = json_mid_email_vec();
    v.append(&mut part2);
    let mut eb = email.as_bytes_vec();
    v.append(&mut eb);
    v.push('"' as u8);
    v.push('}' as u8);
    proof {
        assert(v@ =~= spec_claims_bytes(email@, exp, is_admin));
    }
    v
}

/// The digit run of a canonical serialization ends exactly where the digits
/// of the expiration end, and carries its value.
proof fn lemma_digit_run_end(v: Seq<u8>, e: Seq<char>, x: u64, a: bool, dend: int)
    requires
        v == spec_claims_bytes(e, x, a),
        7 <= dend <= v.len(),
        all_digits(v.subrange(7, dend)),
        dend == v.len() || !is_digit(v[dend]),
    ensures
        dend == 7 + cb_dl(x),
        digits_value(v.subrange(7, dend)) == x,
{
    lemma_claims_bytes_structure(e, x, a);
    let dl = cb_dl(x);
    if dend < 7 + dl {
        assert(v.subrange(7, 7 + dl)[dend - 7] == v[dend]);
        assert(is_digit(v[dend]));
    }
    if dend > 7 + dl {
        assert(v.subrange(7, dend)[dl] == v[7 + dl]);
        assert(is_digit(v[7 + dl]));
    }
    assert(dend == 7 + dl);
    assert(v.subrange(7, dend) == v.subrange(7, 7 + dl));
}

/// No digit run of a canonical serialization outgrows a `u64`.
proof fn lemma_digit_run_bounded(v: Seq<u8>, e: Seq<char>, x: u64, a: bool, k: int)
    requires
        v == spec_claims_bytes(e, x, a),
        7 <= k <= v.len(),
        all_digits(v.subrange(7, k)),
    ensures
        digits_value(v.subrange(7, k)) <= u64::MAX,
{
    lemma_claims_bytes_structure(e, x, a);
    let dl = cb_dl(x);
    if k > 7 + dl {
        assert(v.subrange(7, k)[dl] == v[7 + dl]);
        assert(is_digit(v.subrange(7, k)[dl]));
    }
    assert(k <= 7 + dl);
    assert(v.subrange(7, k) =~= dec_bytes(x).take(k - 7));
    lemma_digits_prefix_le(dec_bytes(x), k - 7);
}

/// A byte string whose anchors all sit where the frame puts them is the
/// frame around its email region.
proof fn lemma_frame_assemble(v: Seq<u8>, dend: int, epos: int, x: u64, adm: bool)
    requires
        7 <= dend,
        epos == dend + 12 + cb_bl(adm),
        epos + 12 <= v.len(),
        v.subrange(0, 7) == json_prefix(),
        v.subrange(7, dend) == dec_bytes(x),
        v.subrange(dend, dend + 12) == json_mid_admin(),
        v.subrange(dend + 12, epos) == (if adm {
            json_true()
        } else {
            json_false()
        }),
        v.subrange(epos, epos + 10) == json_mid_email(),
        v[v.len() - 2] == 0x22,
        v[v.len() - 1] == 0x7d,
    ensures
        v == claims_frame(x, adm, v.subrange(epos + 10, v.len() - 2)),
{
    assert(v =~= claims_frame(x, adm, v.subrange(epos + 10, v.len() - 2)));
}

/// Recognize the expiration: the JSON prefix followed by a canonical digit
/// run.  Returns where the run ends and its value.
#[verifier::rlimit(100)]
fn parse_exp(v: &Vec<u8>) -> (r: Option<(usize, u64)>)
    ensures
        r matches Some(t) ==> {
            &&& 8 <= t.0 <= v@.len()
            &&& v@.subrange(0, 7) == json_prefix()
            &&& v@.subrange(7, t.0 as int) == dec_bytes(t.1)
        },
        r is None ==> forall|e: Seq<char>, x: u64, a: bool| v@ != spec_claims_bytes(e, x, a),
        forall|e: Seq<char>, x: u64, a: bool|
            v@ == spec_claims_bytes(e, x, a) ==> (r matches Some(t) && t.0 == 7 + cb_dl(x) && t.1
                == x),
{
    let pre = json_prefix_vec();
    if !match_at(v, 0, &pre) {
        proof {
            assert forall|e: Seq<char>, x: u64, a: bool|
                v@ != spec_claims_bytes(e, x, a) by {
                if v@ == spec_claims_bytes(e, x, a) {
                    lemma_claims_bytes_structure(e, x, a);
                }
            }
        }
        return None;
    }
    let dstart: usize = 7;
    let (dend, expval) = match scan_digits(v, dstart) {
        Some(pair) => pair,
        None => {
            proof {
                assert forall|e: Seq<char>, x: u64, a: bool|
                    v@ != spec_claims_bytes(e, x, a) by {
                    if v@ == spec_claims_bytes(e, x, a) {
                        let k = choose|k: int|
                            7 <= k <= v@.len() && all_digits(#[trigger] v@.subrange(7, k))
                                && digits_value(v@.subrange(7, k)) > u64::MAX;
                        lemma_digit_run_bounded(v@, e, x, a, k);
                    }
                }
            }
            return None;
        },
    };
    proof {
        assert forall|e: Seq<char>, x: u64, a: bool|
            v@ == spec_claims_bytes(e, x, a) implies dend == 7 + cb_dl(x) && expval == x by {
            lemma_digit_run_end(v@, e, x, a, dend as int);
        }
    }
    if dend == dstart {
        proof {
            assert forall|e: Seq<char>, x: u64, a: bool|
                v@ != spec_claims_bytes(e, x, a) by {
                if v@ == spec_claims_bytes(e, x, a) {
                    lemma_claims_bytes_structure(e, x, a);
                }
            }
        }
        return None;
    }
    if v[dstart] == 0x30 && dend > dstart + 1 {
        proof {
            assert forall|e: Seq<char>, x: u64, a: bool|
                v@ != spec_claims_bytes(e, x, a) by {
                if v@ == spec_claims_bytes(e, x, a) {
                    lemma_claims_bytes_structure(e, x, a);
                }
            }
        }
        return None;
    }
    proof {
        let digits = v@.subrange(7, dend as int);
        assert(digits[0] == v@[7]);
        lemma_digits_canonical(digits);
    }
    Some((dend, expval))
}

/// Recognize the frame of the claims JSON: the canonical expiration, the
/// administrator flag and the anchors around the email bytes.  Returns where
/// the email bytes start, the expiration and the flag.
#[verifier::rlimit(100)]
fn parse_claims_head(v: &Vec<u8>) -> (r: Option<(usize, u64, bool)>)
    ensures
        r matches Some(t) ==> t.0 + 2 <= v@.len() && v@ == claims_frame(
            t.1,
            t.2,
            v@.subrange(t.0 as int, v@.len() - 2),
        ),
        r is None ==> forall|e: Seq<char>, x: u64, a: bool| v@ != spec_claims_bytes(e, x, a),
        forall|e: Seq<char>, x: u64, a: bool|
            v@ == spec_claims_bytes(e, x, a) ==> (r matches Some(t) && t.1 == x && t.2 == a
                && v@.subrange(t.0 as int, v@.len() - 2) == encode_utf8(e)),
{
    let n = v.len();
    let (dend, expval) = match parse_exp(v) {
        Some(pair) => pair,
        None => {
            return None;
        },
    };
    let mid = json_mid_admin_vec();
    if !match_at(v, dend, &mid) {
        proof {
            assert forall|e: Seq<char>, x: u64, a: bool|
                v@ != spec_claims_bytes(e, x, a) by {
                if v@ == spec_claims_bytes(e, x, a) {
                    lemma_claims_bytes_structure(e, x, a);
                }
            }
        }
        return None;
    }
    let bpos = dend + 12;
    let tv = json_true_vec();
    let t_here = match_at(v, bpos, &tv);
    let (admin, epos) = if t_here {
        (true, bpos + 4)
    } else {
        let fv = json_false_vec();
        if !match_at(v, bpos, &fv) {
            proof {
                assert forall|e: Seq<char>, x: u64, a: bool|
                    v@ != spec_claims_bytes(e, x, a) by {
                    if v@ == spec_claims_bytes(e, x, a) {
                        lemma_claims_bytes_structure(e, x, a);
                    }
                }
            }
            return None;
        }
        (false, bpos + 5)
    };
    proof {
        assert forall|e: Seq<char>, x: u64, a: bool|
            v@ == spec_claims_bytes(e, x, a) implies admin == a && epos == 19 + cb_dl(x) + cb_bl(a)
            by {
            lemma_claims_bytes_structure(e, x, a);
            if !a && admin {
                assert(v@.subrange(bpos as int, bpos as int + 4)[0] == v@[bpos as int]);
            }
        }
    }
    let mide = json_mid_email_vec();
    if !match_at(v, epos, &mide) {
        proof {
            assert forall|e: Seq<char>, x: u64, a: bool|
                v@ != spec_claims_bytes(e, x, a) by {
                if v@ == spec_claims_bytes(e, x, a) {
                    lemma_claims_bytes_structure(e, x, a);
                }
            }
        }
        return None;
    }
    let mpos = epos + 10;
    if n - mpos < 2 || v[n - 2] != 0x22 || v[n - 1] != 0x7d {
        proof {
            assert forall|e: Seq<char>, x: u64, a: bool|
                v@ != spec_claims_bytes(e, x, a) by {
                if v@ == spec_claims_bytes(e, x, a) {
                    lemma_claims_bytes_structure(e, x, a);
                }
            }
        }
        return None;
    }
    proof {
        if admin {
            assert(v@.subrange(bpos as int, epos as int) == json_true());
        } else {
            assert(v@.subrange(bpos as int, epos as int) == json_false());
        }
        lemma_frame_assemble(v@, dend as int, epos as int, expval, admin);
        assert forall|e: Seq<char>, x: u64, a: bool|
            v@ == spec_claims_bytes(e, x, a) implies v@.subrange(mpos as int, v@.len() - 2)
            == encode_utf8(e) by {
            lemma_claims_bytes_structure(e, x, a);
        }
    }
    Some((mpos, expval, admin))
}
/// Parse the fixed JSON claims shape back into a claims value.  The parser
/// is strict: it succeeds exactly on the canonical output of
/// [`claims_to_json`], and then recovers the serialized fields.
fn parse_claims(v: &Vec<u8>) -> (r: Option<Claims>)
    ensures
        r matches Some(c) ==> v@ == spec_claims_bytes(c.email@, c.exp, c.is_admin),
        forall|e: Seq<char>, x: u64, a: bool|
            v@ == spec_claims_bytes(e, x, a) ==> (r matches Some(c) && c.email@ == e && c.exp == x
                && c.is_admin == a),
{
    let (mpos, expval, admin) = match parse_claims_head(v) {
        Some(t) => t,
        None => {
            return None;
        },
    };
    let n = v.len();
    let mut eb: Vec<u8> = Vec::new();
    let mut k: usize = mpos;
    while k < n - 2
        invariant
            mpos <= k <= n - 2,
            n == v@.len(),
            mpos + 2 <= n,
            eb@ == v@.subrange(mpos as int, k as int),
        decreases n - k,
    {
        let b = v[k];
        eb.push(b);
        proof {
            assert(eb@ =~= v@.subrange(mpos as int, k as int + 1));
        }
        k += 1;
    }
    let ghost region = v@.subrange(mpos as int, n as int - 2);
    proof {
        assert(eb@ == region);
    }
    let email = match string_from_utf8(eb) {
        Some(s) => s,
        None => {
            proof {
                assert forall|e: Seq<char>, x: u64, a: bool|
                    v@ != spec_claims_bytes(e, x, a) by {
                    if v@ == spec_claims_bytes(e, x, a) {
                        encode_utf8_valid_utf8(e);
                    }
                }
            }
            return None;
        },
    };
    proof {
        // The region is valid UTF-8, so re-encoding the recovered email
        // gives the region back: the input is the canonical serialization
        // of the fields just read.
        assert(valid_utf8(region));
        decode_utf8_encode_utf8(region);
        assert(encode_utf8(email@) == region);
        // Any canonical reading of the input carries exactly these fields.
        assert forall|e: Seq<char>, x: u64, a: bool|
            v@ == spec_claims_bytes(e, x, a) implies email@ == e && expval == x && admin == a by {
            encode_utf8_decode_utf8(e);
        }
    }
    Some(Claims { email, exp: expval, is_admin: admin })
}

// ---------------------------------------------------------------------------
// Splitting a token into its three dot-separated segments.
// ---------------------------------------------------------------------------

/// The index of the first dot of `s`, if any.
pub open spec fn find_dot(s: Seq<char>) -> Option<int>
    decreases s.len(),
{
    if s.len() == 0 {
        None
    } else if s[0] == '.' {
        Some(0int)
    } else {
        match find_dot(s.subrange(1, s.len() as int)) {
            None => None,
            Some(j) => Some(j + 1),
        }
    }
}

proof fn lemma_find_dot_here(s: Seq<char>, i: int)
    requires
        0 <= i < s.len(),
        s[i] == '.',
        forall|k: int| 0 <= k < i ==> s[k] != '.',
    ensures
        find_dot(s) == Some(i),
    decreases s.len(),
{
    if i == 0 {
    } else {
        let t = s.subrange(1, s.len() as int);
        assert(t[i - 1] == '.');
        assert forall|k: int| 0 <= k < i - 1 implies t[k] != '.' by {
            assert(s[k + 1] != '.');
        }
        lemma_find_dot_here(t, i - 1);
    }
}

proof fn lemma_find_dot_absent(s: Seq<char>)
    requires
        forall|k: int| 0 <= k < s.len() ==> s[k] != '.',
    ensures
        find_dot(s) is None,
    decreases s.len(),
{
    if s.len() == 0 {
    } else {
        let t = s.subrange(1, s.len() as int);
        assert forall|k: int| 0 <= k < t.len() implies t[k] != '.' by {
            assert(s[k + 1] != '.');
        }
        lemma_find_dot_absent(t);
    }
}

/// A token split at its dots: exactly three segments, or nothing.
pub open spec fn spec_token_parts(t: Seq<char>) -> Option<(Seq<char>, Seq<char>, Seq<char>)> {
    match find_dot(t) {
        None => None,
        Some(i) => {
            let rest = t.subrange(i + 1, t.len() as int);
            match find_dot(rest) {
                None => None,
                Some(j) => {
                    let sig = rest.subrange(j + 1, rest.len() as int);
                    if find_dot(sig) is None {
                        Some((t.subrange(0, i), rest.subrange(0, j), sig))
                    } else {
                        None
                    }
                },
            }
        },
    }
}

/// Joining three dot-free segments with dots splits back into them.
proof fn lemma_token_parts_join(h: Seq<char>, p: Seq<char>, s: Seq<char>)
    requires
        dot_free(h),
        dot_free(p),
        dot_free(s),
    ensures
        spec_token_parts(h + seq!['.'] + p + seq!['.'] + s) == Some((h, p, s)),
{
    let t = h + seq!['.'] + p + seq!['.'] + s;
    let i = h.len() as int;
    assert(t[i] == '.');
    assert forall|k: int| 0 <= k < i implies t[k] != '.' by {
        assert(t[k] == h[k]);
    }
    lemma_find_dot_here(t, i);
    let rest = t.subrange(i + 1, t.len() as int);
    assert(rest =~= p + seq!['.'] + s);
    let j = p.len() as int;
    assert(rest[j] == '.');
    assert forall|k: int| 0 <= k < j implies rest[k] != '.' by {
        assert(rest[k] == p[k]);
    }
    lemma_find_dot_here(rest, j);
    let sig = rest.subrange(j + 1, rest.len() as int);
    assert(sig =~= s);
    lemma_find_dot_absent(sig);
    assert(t.subrange(0, i) =~= h);
    assert(rest.subrange(0, j) =~= p);
}

/// The first dot of `s` at or after `from`.
fn find_dot_str(s: &str, from: usize) -> (r: Option<usize>)
    requires
        from <= s@.len(),
    ensures
        match r {
            Some(i) => from <= i < s@.len() && find_dot(s@.subrange(from as int, s@.len() as int))
                == Some(i - from),
            None => find_dot(s@.subrange(from as int, s@.len() as int)) is None,
        },
{
    let n = s.unicode_len();
    let ghost sub = s@.subrange(from as int, s@.len() as int);
    let mut i: usize = from;
    while i < n
        invariant
            from <= i <= n,
            n == s@.len(),
            sub == s@.subrange(from as int, s@.len() as int),
            forall|k: int| from <= k < i ==> s@[k] != '.',
        decreases n - i,
    {
        if s.get_char(i) == '.' {
            proof {
                assert(sub[i - from] == '.');
                assert forall|k: int| 0 <= k < i - from implies sub[k] != '.' by {
                    assert(s@[from + k] != '.');
                }
                lemma_find_dot_here(sub, i as int - from as int);
            }
            return Some(i);
        }
        i += 1;
    }
    proof {
        assert forall|k: int| 0 <= k < sub.len() implies sub[k] != '.' by {
            assert(s@[from + k] != '.');
        }
        lemma_find_dot_absent(sub);
    }
    None
}

/// A token cut at its dots into header, payload and signature segments;
/// `None` unless there are exactly two dots.
fn split_token<'a>(t: &'a str) -> (r: Option<(&'a str, &'a str, &'a str)>)
    ensures
        match r {
            Some(parts) => spec_token_parts(t@) == Some((parts.0@, parts.1@, parts.2@)),
            None => spec_token_parts(t@) is None,
        },
{
    let n = t.unicode_len();
    proof {
        assert(t@.subrange(0, t@.len() as int) =~= t@);
    }
    let i = match find_dot_str(t, 0) {
        Some(i) => i,
        None => {
            return None;
        },
    };
    let j = match find_dot_str(t, i + 1) {
        Some(j) => j,
        None => {
            return None;
        },
    };
    match find_dot_str(t, j + 1) {
        Some(_) => {
            proof {
                let rest = t@.subrange(i as int + 1, t@.len() as int);
                let jj = j - i - 1;
                let sig = rest.subrange(jj as int + 1, rest.len() as int);
                assert(sig =~= t@.subrange(j as int + 1, t@.len() as int));
            }
            None
        },
        None => {
            let h = t.substring_char(0, i);
            let p = t.substring_char(i + 1, j);
            let sg = t.substring_char(j + 1, n);
            proof {
                let rest = t@.subrange(i as int + 1, t@.len() as int);
                let jj = j - i - 1;
                let sig = rest.subrange(jj as int + 1, rest.len() as int);
                assert(sig =~= t@.subrange(j as int + 1, t@.len() as int));
                assert(rest.subrange(0, jj as int) =~= t@.subrange(i as int + 1, j as int));
            }
            Some((h, p, sg))
        },
    }
}

// ---------------------------------------------------------------------------
// The Token Issuer / Verifier.
// ---------------------------------------------------------------------------

/// The exact token string minted for the given claims under the given key.
pub open spec fn spec_full_token(key: Seq<u8>, email: Seq<char>, exp: u64, admin: bool) -> Seq<
    char,
> {
    let h = b64url_of(header_bytes());
    let p = b64url_of(spec_claims_bytes(email, exp, admin));
    let m = h + seq!['.'] + p;
    m + seq!['.'] + hs256_sig(key, m)
}

/// The token `t` carries the claims `(email, exp, admin)` under `key`: it
/// splits into three segments, the header decodes to the fixed JWT header,
/// the signature segment is the signature of the first two segments under
/// `key`, and the payload decodes to the canonical claims serialization.
pub open spec fn spec_valid_token_for(
    t: Seq<char>,
    key: Seq<u8>,
    email: Seq<char>,
    exp: u64,
    admin: bool,
) -> bool {
    match spec_token_parts(t) {
        Some(parts) => {
            &&& b64url_decode_of(parts.0) == Some(header_bytes())
            &&& parts.2 == hs256_sig(key, parts.0 + seq!['.'] + parts.1)
            &&& b64url_decode_of(parts.1) == Some(spec_claims_bytes(email, exp, admin))
        },
        None => false,
    }
}

/// The fixed validity window: eight hours, in seconds.
pub open spec fn validity_window() -> u64 {
    28800
}

/// Expiration of a token issued now: eight hours ahead, saturating at the
/// largest representable instant.
pub fn get_timestamp_after_8_hours(now: u64) -> (r: u64)
    ensures
        now + validity_window() <= u64::MAX ==> r == now + validity_window(),
        now + validity_window() > u64::MAX ==> r == u64::MAX,
{
    if now <= u64::MAX - 28800 {
        now + 28800
    } else {
        u64::MAX
    }
}

/// Mint the signed session token for the given claims.  The result is the
/// canonical token for those claims under `key`, and
/// [`spec_valid_token_for`] holds of it, so [`verify_token`] accepts it with
/// the same subject and flag while `now` is before the expiration, and
/// reports it expired afterwards.
pub fn issue_token(claims: &Claims, key: &[u8]) -> (r: Result<String, AppError>)
    requires
        encode_utf8(claims.email@).len() <= 0x0100_0000,
    ensures
        r matches Ok(t) && t@ == spec_full_token(key@, claims.email@, claims.exp, claims.is_admin)
            && spec_valid_token_for(t@, key@, claims.email@, claims.exp, claims.is_admin),
{
    let hv = header_bytes_vec();
    let h = b64url_encode(hv.as_slice());
    let cb = claims_to_json(claims.email.as_str(), claims.exp, claims.is_admin);
    proof {
        lemma_dec_len_u64(claims.exp);
    }
    let p = b64url_encode(cb.as_slice());
    let msg = h.concat(".").concat(p.as_str());
    proof {
        reveal_strlit(".");
        assert(("."@) =~= seq!['.']);
    }
    let sig = match sign_hs256(key, msg.as_str()) {
        Some(s) => s,
        None => {
            return Err(AppError::InternalServerError);
        },
    };
    let tok = msg.concat(".").concat(sig.as_str());
    proof {
        lemma_token_parts_join(
            b64url_of(header_bytes()),
            b64url_of(spec_claims_bytes(claims.email@, claims.exp, claims.is_admin)),
            sig@,
        );
    }
    Ok(tok)
}

/// Decode and check a session token: shape, then signature, then
/// expiration.  A token that does not decode is `Malformed`; one whose
/// signature does not match the key is `BadSignature`; a genuine token past
/// its window is `Expired`; otherwise the carried claims come back.
pub fn verify_token(token: &str, key: &[u8], now: u64) -> (r: Result<Claims, AuthError>)
    ensures
        r matches Ok(c) ==> spec_valid_token_for(token@, key@, c.email@, c.exp, c.is_admin) && now
            < c.exp,
        r == Err::<Claims, AuthError>(AuthError::Expired) ==> exists|
            e: Seq<char>,
            x: u64,
            a: bool,
        |
            spec_valid_token_for(token@, key@, e, x, a) && x <= now,
        r == Err::<Claims, AuthError>(AuthError::BadSignature) <==> (match spec_token_parts(
            token@,
        ) {
            Some(parts) => b64url_decode_of(parts.0) == Some(header_bytes()) && parts.2
                != hs256_sig(key@, parts.0 + seq!['.'] + parts.1),
            None => false,
        }),
        spec_token_parts(token@) is None ==> r == Err::<Claims, AuthError>(AuthError::Malformed),
        forall|e: Seq<char>, x: u64, a: bool|
            spec_valid_token_for(token@, key@, e, x, a) ==> if now < x {
                r matches Ok(c) && c.email@ == e && c.exp == x && c.is_admin == a
            } else {
                r == Err::<Claims, AuthError>(AuthError::Expired)
            },
{
    let parts = match split_token(token) {
        Some(x) => x,
        None => {
            return Err(AuthError::Malformed);
        },
    };
    let (h, p, sig) = parts;
    let hb = match b64url_decode(h) {
        Some(v) => v,
        None => {
            return Err(AuthError::Malformed);
        },
    };
    let expect = header_bytes_vec();
    if !bytes_eq(&hb, &expect) {
        return Err(AuthError::Malformed);
    }
    let msg = h.to_owned().concat(".").concat(p);
    proof {
        reveal_strlit(".");
        assert(("."@) =~= seq!['.']);
    }
    match verify_hs256(key, msg.as_str(), sig) {
        Some(true) => {},
        Some(false) => {
            return Err(AuthError::BadSignature);
        },
        None => {
            return Err(AuthError::Malformed);
        },
    }
    let cbv = match b64url_decode(p) {
        Some(v) => v,
        None => {
            return Err(AuthError::Malformed);
        },
    };
    let claims = match parse_claims(&cbv) {
        Some(c) => c,
        None => {
            proof {
                assert forall|e: Seq<char>, x: u64, a: bool|
                    !spec_valid_token_for(token@, key@, e, x, a) by {
                    if spec_valid_token_for(token@, key@, e, x, a) {
                        assert(cbv@ == spec_claims_bytes(e, x, a));
                    }
                }
            }
            return Err(AuthError::Malformed);
        },
    };
    if now < claims.exp {
        Ok(claims)
    } else {
        proof {
            assert(spec_valid_token_for(token@, key@, claims.email@, claims.exp, claims.is_admin));
        }
        Err(AuthError::Expired)
    }
}

} // verus!
