use vstd::prelude::*;

use crate::error::AppError;
use crate::token::b64url_decode_of;
use crate::token::header_bytes;
use crate::token::hs256_sig;
use crate::token::spec_token_parts;
use crate::token::spec_valid_token_for;
use crate::token::verify_token;
use crate::token::AuthError;
use crate::transform::has_prefix;
use crate::users::Claims;

verus! {

// ---------------------------------------------------------------------------
// Finding the session cookie in a `Cookie` header.
// ---------------------------------------------------------------------------

/// The index of the first semicolon of `s`, if any.
pub open spec fn find_semi(s: Seq<char>) -> Option<int>
    decreases s.len(),
{
    if s.len() == 0 {
        None
    } else if s[0] == ';' {
        Some(0int)
    } else {
        match find_semi(s.subrange(1, s.len() as int)) {
            None => None,
            Some(j) => Some(j + 1),
        }
    }
}

proof fn lemma_find_semi_bounds(s: Seq<char>)
    ensures
        match find_semi(s) {
            Some(i) => 0 <= i < s.len(),
            None => true,
        },
    decreases s.len(),
{
    if s.len() == 0 {
    } else if s[0] == ';' {
    } else {
        lemma_find_semi_bounds(s.subrange(1, s.len() as int));
    }
}

proof fn lemma_find_semi_here(s: Seq<char>, i: int)
    requires
        0 <= i < s.len(),
        s[i] == ';',
        forall|k: int| 0 <= k < i ==> s[k] != ';',
    ensures
        find_semi(s) == Some(i),
    decreases s.len(),
{
    if i == 0 {
    } else {
        let t = s.subrange(1, s.len() as int);
        assert(t[i - 1] == ';');
        assert forall|k: int| 0 <= k < i - 1 implies t[k] != ';' by {
            assert(s[k + 1] != ';');
        }
        lemma_find_semi_here(t, i - 1);
    }
}

proof fn lemma_find_semi_absent(s: Seq<char>)
    requires
        forall|k: int| 0 <= k < s.len() ==> s[k] != ';',
    ensures
        find_semi(s) is None,
    decreases s.len(),
{
    if s.len() == 0 {
    } else {
        let t = s.subrange(1, s.len() as int);
        assert forall|k: int| 0 <= k < t.len() implies t[k] != ';' by {
            assert(s[k + 1] != ';');
        }
        lemma_find_semi_absent(t);
    }
}

/// `s` without its leading spaces.
pub open spec fn skip_spaces(s: Seq<char>) -> Seq<char>
    decreases s.len(),
{
    if s.len() > 0 && s[0] == ' ' {
        skip_spaces(s.subrange(1, s.len() as int))
    } else {
        s
    }
}

proof fn lemma_skip_spaces_at(s: Seq<char>, j: int)
    requires
        0 <= j <= s.len(),
        forall|k: int| 0 <= k < j ==> s[k] == ' ',
        j == s.len() || s[j] != ' ',
    ensures
        skip_spaces(s) == s.subrange(j, s.len() as int),
    decreases s.len(),
{
    if j == 0 {
        if s.len() > 0 && s[0] == ' ' {
            assert(false);
        }
        assert(s.subrange(0, s.len() as int) =~= s);
    } else {
        assert(s[0] == ' ');
        let t = s.subrange(1, s.len() as int);
        assert forall|k: int| 0 <= k < j - 1 implies t[k] == ' ' by {
            assert(s[k + 1] == ' ');
        }
        lemma_skip_spaces_at(t, j - 1);
        assert(t.subrange(j - 1, t.len() as int) =~= s.subrange(j, s.len() as int));
    }
}

/// The value of the session cookie in a `Cookie` header: the header is cut
/// at semicolons, each piece is trimmed of leading spaces, and the first
/// piece that starts with `jwt=` yields what follows that marker.
pub open spec fn spec_cookie_value(h: Seq<char>) -> Option<Seq<char>>
    decreases h.len(),
    via spec_cookie_value_decreases
{
    let end = match find_semi(h) {
        None => h.len() as int,
        Some(i) => i,
    };
    let seg = skip_spaces(h.subrange(0, end));
    if has_prefix(seg, "jwt="@) {
        Some(seg.subrange(4, seg.len() as int))
    } else if end < h.len() {
        spec_cookie_value(h.subrange(end + 1, h.len() as int))
    } else {
        None
    }
}

#[via_fn]
proof fn spec_cookie_value_decreases(h: Seq<char>) {
    lemma_find_semi_bounds(h);
}

/// The first semicolon of `s` at or after `from`.
fn find_semi_str(s: &str, from: usize) -> (r: Option<usize>)
    requires
        from <= s@.len(),
    ensures
        match r {
            Some(i) => from <= i < s@.len() && find_semi(s@.subrange(from as int, s@.len() as int))
                == Some(i - from),
            None => find_semi(s@.subrange(from as int, s@.len() as int)) is None,
        },
{
    let n = s.unicode_len();
    let ghost sub = s@.subrange(from as int, s@.len() as int);
    let mut i: usize = from;
    while i < n
        invariant
            from <= i <= n,
            n == s@.len(),
            sub == s@.subrange(from as int, s@.len() as int),
            forall|k: int| from <= k < i ==> s@[k] != ';',
        decreases n - i,
    {
        if s.get_char(i) == ';' {
            proof {
                assert(sub[i - from] == ';');
                assert forall|k: int| 0 <= k < i - from implies sub[k] != ';' by {
                    assert(s@[from + k] != ';');
                }
                lemma_find_semi_here(sub, i as int - from as int);
            }
            return Some(i);
        }
        i += 1;
    }
    proof {
        assert forall|k: int| 0 <= k < sub.len() implies sub[k] != ';' by {
            assert(s@[from + k] != ';');
        }
        lemma_find_semi_absent(sub);
    }
    None
}

/// Extract the session token from a `Cookie` header value: the value of the
/// cookie named `jwt`, if one is there.
pub fn cookie_value<'a>(header: &'a str) -> (r: Option<&'a str>)
    ensures
        match r {
            Some(t) => spec_cookie_value(header@) == Some(t@),
            None => spec_cookie_value(header@) is None,
        },
{
    let n = header.unicode_len();
    proof {
        assert(header@.subrange(0, n as int) =~= header@);
    }
    let mut pos: usize = 0;
    loop
        invariant
            pos <= n,
            n == header@.len(),
            spec_cookie_value(header@) == spec_cookie_value(
                header@.subrange(pos as int, n as int),
            ),
        decreases n - pos,
    {
        let ghost rem = header@.subrange(pos as int, n as int);
        let send = match find_semi_str(header, pos) {
            Some(i) => i,
            None => n,
        };
        proof {
            match find_semi(rem) {
                Some(i) => {
                    assert(i == send - pos);
                },
                None => {
                    assert(send == n);
                },
            }
        }
        let mut sstart: usize = pos;
        while sstart < send && header.get_char(sstart) == ' '
            invariant
                pos <= sstart <= send,
                send <= n,
                n == header@.len(),
                forall|k: int| pos <= k < sstart ==> header@[k] == ' ',
            decreases send - sstart,
        {
            sstart += 1;
        }
        let ghost piece = header@.subrange(pos as int, send as int);
        let ghost seg = skip_spaces(piece);
        proof {
            assert(piece =~= rem.subrange(0, send - pos));
            assert forall|k: int| 0 <= k < sstart - pos implies piece[k] == ' ' by {
                assert(header@[pos + k] == ' ');
            }
            lemma_skip_spaces_at(piece, sstart as int - pos as int);
            assert(seg =~= header@.subrange(sstart as int, send as int));
        }
        let is_jwt = send - sstart >= 4 && header.get_char(sstart) == 'j' && header.get_char(
            sstart + 1,
        ) == 'w' && header.get_char(sstart + 2) == 't' && header.get_char(sstart + 3) == '=';
        if is_jwt {
            let val = header.substring_char(sstart + 4, send);
            proof {
                reveal_strlit("jwt=");
                assert(seg.subrange(0, 4) =~= "jwt="@);
                assert(has_prefix(seg, "jwt="@));
                assert(val@ =~= seg.subrange(4, seg.len() as int));
            }
            return Some(val);
        }
        proof {
            assert(!has_prefix(seg, "jwt="@)) by {
                reveal_strlit("jwt=");
                if has_prefix(seg, "jwt="@) {
                    assert(seg.subrange(0, 4)[0] == seg[0]);
                    assert(seg.subrange(0, 4)[1] == seg[1]);
                    assert(seg.subrange(0, 4)[2] == seg[2]);
                    assert(seg.subrange(0, 4)[3] == seg[3]);
                    assert(seg.len() >= 4);
                }
            }
        }
        if send == n {
            return None;
        }
        proof {
            assert(rem.subrange(send - pos + 1, rem.len() as int) =~= header@.subrange(
                send as int + 1,
                n as int,
            ));
        }
        pos = send + 1;
    }
}

// ---------------------------------------------------------------------------
// The two-mode Auth Guard.
// ---------------------------------------------------------------------------

/// The three-way outcome of inspecting a request's credentials once: a valid
/// identity, no credentials at all, or credentials that do not verify.
#[derive(Debug)]
pub enum TokenCheck {
    Valid(Claims),
    Absent,
    Invalid(AuthError),
}

/// What mandatory mode makes of a classified request.
pub open spec fn spec_mandatory(check: TokenCheck) -> Result<Claims, AppError> {
    match check {
        TokenCheck::Valid(c) => Ok(c),
        TokenCheck::Absent => Err(AppError::MissingCredentials),
        TokenCheck::Invalid(_) => Err(AppError::InvalidToken),
    }
}

/// What optional mode makes of a classified request.
pub open spec fn spec_optional(check: TokenCheck) -> Option<Claims> {
    match check {
        TokenCheck::Valid(c) => Some(c),
        TokenCheck::Absent => None,
        TokenCheck::Invalid(_) => None,
    }
}

/// Classify a request once from its `Cookie` header: no header or no `jwt`
/// cookie is `Absent`; a token that verifies under `key` at instant `now`
/// is `Valid` with its claims; anything else is `Invalid` with the exact
/// verification error.
pub fn classify_token(cookie_header: Option<&str>, key: &[u8], now: u64) -> (r: TokenCheck)
    ensures
        (r matches TokenCheck::Absent) <==> (match cookie_header {
            None => true,
            Some(h) => spec_cookie_value(h@) is None,
        }),
        r matches TokenCheck::Valid(c) ==> (match cookie_header {
            Some(h) => spec_cookie_value(h@) matches Some(tok) && spec_valid_token_for(
                tok,
                key@,
                c.email@,
                c.exp,
                c.is_admin,
            ) && now < c.exp,
            None => false,
        }),
        match cookie_header {
            Some(h) => match spec_cookie_value(h@) {
                Some(tok) => {
                    &&& (exists|e: Seq<char>, x: u64, a: bool|
                        spec_valid_token_for(tok, key@, e, x, a) && x <= now) ==> r
                        == TokenCheck::Invalid(AuthError::Expired)
                    &&& forall|e: Seq<char>, x: u64, a: bool|
                        spec_valid_token_for(tok, key@, e, x, a) && now < x ==> (r
                            matches TokenCheck::Valid(c) && c.email@ == e && c.exp == x
                            && c.is_admin == a)
                    &&& r == TokenCheck::Invalid(AuthError::BadSignature) <==> (match
                        spec_token_parts(tok) {
                        Some(parts) => b64url_decode_of(parts.0) == Some(header_bytes())
                            && parts.2 != hs256_sig(key@, parts.0 + seq!['.'] + parts.1),
                        None => false,
                    })
                    &&& spec_token_parts(tok) is None ==> r == TokenCheck::Invalid(
                        AuthError::Malformed,
                    )
                },
                None => true,
            },
            None => true,
        },
{
    match cookie_header {
        None => TokenCheck::Absent,
        Some(h) => match cookie_value(h) {
            None => TokenCheck::Absent,
            Some(tok) => match verify_token(tok, key, now) {
                Ok(c) => TokenCheck::Valid(c),
                Err(e) => TokenCheck::Invalid(e),
            },
        },
    }
}

/// Mandatory mode: the request proceeds only with a concrete, valid
/// identity.  Missing credentials and invalid credentials fail with
/// distinct errors.
pub fn mandatory_guard(check: TokenCheck) -> (r: Result<Claims, AppError>)
    ensures
        r == spec_mandatory(check),
{
    match check {
        TokenCheck::Valid(c) => Ok(c),
        TokenCheck::Absent => Err(AppError::MissingCredentials),
        TokenCheck::Invalid(_) => Err(AppError::InvalidToken),
    }
}

/// Optional mode: never fails the request; an absent or invalid token is
/// simply anonymous.
pub fn optional_guard(check: TokenCheck) -> (r: Option<Claims>)
    ensures
        r == spec_optional(check),
{
    match check {
        TokenCheck::Valid(c) => Some(c),
        TokenCheck::Absent => None,
        TokenCheck::Invalid(_) => None,
    }
}

/// The two guard modes agree: mandatory mode fails exactly on the requests
/// for which optional mode yields no identity, and optional mode itself
/// never fails, whatever the token's state.
pub proof fn lemma_guard_modes_agree(check: TokenCheck)
    ensures
        (spec_mandatory(check) is Err) <==> (spec_optional(check) is None),
        spec_mandatory(check) matches Ok(c) ==> spec_optional(check) == Some(c),
{
}

} // verus!
