//! Auth-light seam of the gateway: `OAuth2` `client_credentials` token issuance
//! and bearer verification behind the [`Authenticator`] trait, with the
//! permissive development authenticator as the default.
//!
//! The issued token is shape-valid, not cryptographically real:
//! `base64url(header).base64url(claims).base64url(placeholder)` with an
//! `alg: "none"` header.

use vstd::prelude::*;
use vstd::string::StrSliceExecFns;
use vstd::utf8::encode_utf8;
use crate::text::{append_str, decimal, owned, push_char, push_decimal};

verus! {

/// `OAuth2`-style token request body.
#[derive(Clone, Debug, Default)]
pub struct AuthCredentials {
    /// The `OAuth2` grant type, e.g. `client_credentials`.
    pub grant_type: String,
    /// The client identifier, if presented.
    pub client_id: Option<String>,
    /// The client secret, if presented.
    pub client_secret: Option<String>,
    /// A refresh token, for the `refresh_token` grant.
    pub refresh_token: Option<String>,
    /// The requested scope, space-delimited.
    pub scope: Option<String>,
}

/// The token response.
#[derive(Clone, Debug)]
pub struct AuthTokenResponse {
    /// The issued (shape-valid, unsigned) JWT.
    pub access_token: String,
    /// Always `"Bearer"`.
    pub token_type: String,
    /// Token lifetime in seconds.
    pub expires_in: u64,
    /// The granted scope, space-delimited.
    pub scope: String,
    /// A refresh token, when issued.
    pub refresh_token: Option<String>,
}

/// A token-revocation request.
#[derive(Clone, Debug, Default)]
pub struct AuthRevokeRequest {
    /// The token to revoke.
    pub token: String,
    /// An optional hint at the token's type.
    pub token_type_hint: Option<String>,
}

/// A token-revocation response.
#[derive(Clone, Debug)]
pub struct AuthRevokeResponse {
    /// The revocation status, e.g. `"revoked"`.
    pub status: String,
}

/// A rejection from a strict [`Authenticator`]: an HTTP status plus the
/// contract error code and message.
#[derive(Clone, Debug)]
pub struct AuthRejection {
    /// The HTTP status code.
    pub status: u16,
    /// Machine-readable error code.
    pub error_code: String,
    /// Human-readable message.
    pub message: String,
}

impl AuthRejection {
    /// A `401 Unauthorized` for invalid or rejected client credentials.
    pub fn invalid_client(message: &str) -> (r: AuthRejection)
        ensures
            r.status == 401,
            r.error_code@ == "invalid-client"@,
            r.message@ == message@,
    {
        AuthRejection { status: 401, error_code: owned("invalid-client"), message: owned(message) }
    }

    /// A `400 Bad Request` for an unsupported or missing grant type.
    pub fn unsupported_grant_type(message: &str) -> (r: AuthRejection)
        ensures
            r.status == 400,
            r.error_code@ == "unsupported-grant-type"@,
            r.message@ == message@,
    {
        AuthRejection { status: 400, error_code: owned("unsupported-grant-type"), message: owned(message) }
    }
}

/// The auth seam: token issuance and bearer verification, behind one trait so a
/// strict implementation substitutes for the permissive default.
pub trait Authenticator {
    /// Issue an access token for `credentials`, or decline them.
    fn issue_token(&self, credentials: &AuthCredentials) -> Result<AuthTokenResponse, AuthRejection>;

    /// Verify a presented bearer token (without the `Bearer ` prefix), if any.
    fn verify_bearer(&self, bearer: Option<&str>) -> Result<(), AuthRejection>;
}

/// The default development authenticator: any credentials succeed and any (or
/// no) bearer token is accepted.
#[derive(Clone, Copy, Debug, Default)]
pub struct PermissiveAuthenticator;

/// The token lifetime advertised by the permissive issuer (one hour).
pub const DEFAULT_EXPIRES_IN: u64 = 3600;

/// The scope granted when the client requests none.
pub const DEFAULT_SCOPE: &'static str = "medkit:read";

/// The base64url character for a 6-bit value.
pub open spec fn sextet_char(v: int) -> char {
    if v < 26 {
        (65 + v) as char
    } else if v < 52 {
        (97 + v - 26) as char
    } else if v < 62 {
        (48 + v - 52) as char
    } else if v == 62 {
        '-'
    } else {
        '_'
    }
}

/// Base64url (RFC 4648 section 5) of `b`, without padding.
pub open spec fn base64url_spec(b: Seq<u8>) -> Seq<char>
    decreases b.len(),
{
    let b0 = if b.len() > 0 { b[0] as int } else { 0 };
    let b1 = if b.len() > 1 { b[1] as int } else { 0 };
    let b2 = if b.len() > 2 { b[2] as int } else { 0 };
    if b.len() == 0 {
        seq![]
    } else if b.len() == 1 {
        seq![sextet_char(b0 / 4), sextet_char((b0 % 4) * 16)]
    } else if b.len() == 2 {
        seq![sextet_char(b0 / 4), sextet_char((b0 % 4) * 16 + b1 / 16), sextet_char((b1 % 16) * 4)]
    } else {
        seq![
            sextet_char(b0 / 4),
            sextet_char((b0 % 4) * 16 + b1 / 16),
            sextet_char((b1 % 16) * 4 + b2 / 64),
            sextet_char(b2 % 64),
        ] + base64url_spec(b.skip(3))
    }
}

/// The lowercase hexadecimal digit of `n` (below 16).
pub open spec fn hex_digit(n: int) -> char {
    if n < 10 {
        ((n + 48) as u8) as char
    } else {
        ((n + 87) as u8) as char
    }
}

/// The JSON escape of one character: `"` and `\` are backslash-escaped, the
/// control characters U+0000..U+001F take their short escape (`\b`, `\t`,
/// `\n`, `\f`, `\r`) or `\u00XX`, and every other character stands as it is.
pub open spec fn escape_char(c: char) -> Seq<char> {
    if c == '"' {
        seq!['\\', '"']
    } else if c == '\\' {
        seq!['\\', '\\']
    } else if c == '\x08' {
        seq!['\\', 'b']
    } else if c == '\t' {
        seq!['\\', 't']
    } else if c == '\n' {
        seq!['\\', 'n']
    } else if c == '\x0C' {
        seq!['\\', 'f']
    } else if c == '\r' {
        seq!['\\', 'r']
    } else if (c as u32) < 0x20 {
        seq!['\\', 'u', '0', '0', hex_digit((c as u32) as int / 16), hex_digit((c as u32) as int % 16)]
    } else {
        seq![c]
    }
}

/// The JSON escape of `s`, character by character.
pub open spec fn json_escape(s: Seq<char>) -> Seq<char>
    decreases s.len(),
{
    if s.len() == 0 {
        seq![]
    } else {
        escape_char(s[0]) + json_escape(s.skip(1))
    }
}

/// `s` as a JSON string literal.
pub open spec fn json_string_spec(s: Seq<char>) -> Seq<char> {
    seq!['"'] + json_escape(s) + seq!['"']
}

/// The claims document of a development token.
pub open spec fn dev_claims(subject: Seq<char>, scope: Seq<char>, expires_in: u64) -> Seq<char> {
    "{\"sub\":"@ + json_string_spec(subject) + ",\"scope\":"@ + json_string_spec(scope)
        + ",\"token_use\":\"access\",\"exp_in\":"@ + decimal(expires_in as nat) + "}"@
}

/// The header segment of a development token.
pub open spec fn dev_header() -> Seq<char> {
    base64url_spec(encode_utf8("{\"alg\":\"none\",\"typ\":\"JWT\"}"@))
}

/// The placeholder signature segment of a development token.
pub open spec fn dev_signature() -> Seq<char> {
    base64url_spec(encode_utf8("unsigned-dev-token"@))
}

/// The development token for `subject`, `scope` and lifetime `expires_in`.
pub open spec fn dev_jwt_spec(subject: Seq<char>, scope: Seq<char>, expires_in: u64) -> Seq<char> {
    dev_header() + seq!['.'] + base64url_spec(encode_utf8(dev_claims(subject, scope, expires_in)))
        + seq!['.'] + dev_signature()
}

/// The scope a permissive token grants for a requested scope.
pub open spec fn granted_scope(requested: Option<String>) -> Seq<char> {
    match requested {
        Some(s) => if s@.len() > 0 {
            s@
        } else {
            DEFAULT_SCOPE@
        },
        None => DEFAULT_SCOPE@,
    }
}

/// The subject a permissive token names for a presented client id.
pub open spec fn token_subject(client_id: Option<String>) -> Seq<char> {
    match client_id {
        Some(s) => s@,
        None => "dev-client"@,
    }
}

/// Base64url output never holds a `.` and is empty only for empty input.
pub proof fn lemma_base64url_shape(b: Seq<u8>)
    ensures
        !base64url_spec(b).contains('.'),
        (b.len() > 0) == (base64url_spec(b).len() > 0),
    decreases b.len(),
{
    if b.len() > 3 {
        lemma_base64url_shape(b.skip(3));
    }
    let r = base64url_spec(b);
    assert forall|i: int| 0 <= i < r.len() implies r[i] != '.' by {
        if b.len() > 3 && i >= 4 {
            assert(r[i] == base64url_spec(b.skip(3))[i - 4]);
        } else {
            assert forall|v: int| 0 <= v < 64 implies sextet_char(v) != '.' by {
                lemma_sextet_not_dot(v);
            }
            let b0 = b[0] as int;
            let b1 = if b.len() > 1 { b[1] as int } else { 0 };
            let b2 = if b.len() > 2 { b[2] as int } else { 0 };
            assert(0 <= b0 / 4 < 64);
            assert(0 <= (b0 % 4) * 16 + b1 / 16 < 64);
            assert(0 <= (b1 % 16) * 4 + b2 / 64 < 64);
            assert(0 <= b2 % 64 < 64);
            assert(0 <= (b0 % 4) * 16 < 64);
            assert(0 <= (b1 % 16) * 4 < 64);
            if b.len() == 1 {
                assert(r[i] == seq![sextet_char(b0 / 4), sextet_char((b0 % 4) * 16)][i]);
            } else if b.len() == 2 {
                assert(r[i] == seq![
                    sextet_char(b0 / 4),
                    sextet_char((b0 % 4) * 16 + b1 / 16),
                    sextet_char((b1 % 16) * 4),
                ][i]);
            } else {
                let head = seq![
                    sextet_char(b0 / 4),
                    sextet_char((b0 % 4) * 16 + b1 / 16),
                    sextet_char((b1 % 16) * 4 + b2 / 64),
                    sextet_char(b2 % 64),
                ];
                assert(r == head + base64url_spec(b.skip(3)));
                assert(r[i] == head[i]);
            }
        }
    }
}

proof fn lemma_sextet_not_dot(v: int)
    requires
        0 <= v < 64,
    ensures
        sextet_char(v) != '.',
{
    assert('.' as u32 == 46);
    if v < 26 {
        assert(((65 + v) as char) as u32 == 65 + v);
    } else if v < 52 {
        assert(((97 + v - 26) as char) as u32 == 97 + v - 26);
    } else if v < 62 {
        assert(((48 + v - 52) as char) as u32 == 48 + v - 52);
    }
}

fn sextet(v: u32) -> (c: char)
    requires
        v < 64,
    ensures
        c == sextet_char(v as int),
{
    if v < 26 {
        ((65 + v) as u8) as char
    } else if v < 52 {
        ((97 + v - 26) as u8) as char
    } else if v < 62 {
        ((48 + v - 52) as u8) as char
    } else if v == 62 {
        '-'
    } else {
        '_'
    }
}

/// Base64url (RFC 4648 section 5) without padding.
pub fn base64url(input: &[u8]) -> (r: String)
    ensures
        r@ == base64url_spec(input@),
{
    let n = input.len();
    let mut out = String::new();
    let mut i: usize = 0;
    assert(input@.skip(0) =~= input@);
    while i < n
        invariant
            n == input@.len(),
            i <= n,
            base64url_spec(input@) == out@ + base64url_spec(input@.skip(i as int)),
        decreases n - i,
    {
        let rest = n - i;
        let b0 = input[i] as u32;
        let b1: u32 = if rest > 1 { input[i + 1] as u32 } else { 0 };
        let b2: u32 = if rest > 2 { input[i + 2] as u32 } else { 0 };
        let triple = (b0 << 16) | (b1 << 8) | b2;
        proof {
            assert(b0 < 256 && b1 < 256 && b2 < 256 ==> ((b0 << 16) | (b1 << 8) | b2) >> 18 & 0x3f == b0 / 4
                && ((b0 << 16) | (b1 << 8) | b2) >> 12 & 0x3f == (b0 % 4) * 16 + b1 / 16
                && ((b0 << 16) | (b1 << 8) | b2) >> 6 & 0x3f == (b1 % 16) * 4 + b2 / 64
                && ((b0 << 16) | (b1 << 8) | b2) & 0x3f == b2 % 64) by (bit_vector);
        }
        let ghost s = input@.skip(i as int);
        let ghost before = out@;
        push_char(&mut out, sextet((triple >> 18) & 0x3f));
        push_char(&mut out, sextet((triple >> 12) & 0x3f));
        if rest > 1 {
            push_char(&mut out, sextet((triple >> 6) & 0x3f));
        }
        if rest > 2 {
            push_char(&mut out, sextet(triple & 0x3f));
        }
        proof {
            assert(s[0] == input@[i as int]);
            if rest > 1 {
                assert(s[1] == input@[i + 1]);
            }
            if rest > 2 {
                assert(s[2] == input@[i + 2]);
            }
        }
        if rest <= 3 {
            proof {
                assert(input@.skip(n as int) =~= Seq::<u8>::empty());
                if rest == 3 {
                    assert(s.skip(3) =~= Seq::<u8>::empty());
                }
                assert(out@ =~= before + base64url_spec(s));
            }
            i = n;
        } else {
            proof {
                assert(s.skip(3) =~= input@.skip(i + 3));
                assert(before + base64url_spec(s) =~= out@ + base64url_spec(input@.skip(i + 3)));
            }
            i = i + 3;
        }
    }
    proof {
        assert(input@.skip(n as int) =~= Seq::<u8>::empty());
        assert(out@ + Seq::<char>::empty() =~= out@);
    }
    out
}

/// The lowercase hexadecimal digit of `n`.
fn hex_char(n: u32) -> (r: char)
    requires
        n < 16,
    ensures
        r == hex_digit(n as int),
{
    if n < 10 {
        ((n + 48) as u8) as char
    } else {
        ((n + 87) as u8) as char
    }
}

/// Append the JSON escape of `c` to `out`.
fn push_escaped(out: &mut String, c: char)
    ensures
        final(out)@ == old(out)@ + escape_char(c),
{
    let code = c as u32;
    if c == '"' {
        push_char(out, '\\');
        push_char(out, '"');
    } else if c == '\\' {
        push_char(out, '\\');
        push_char(out, '\\');
    } else if c == '\x08' {
        push_char(out, '\\');
        push_char(out, 'b');
    } else if c == '\t' {
        push_char(out, '\\');
        push_char(out, 't');
    } else if c == '\n' {
        push_char(out, '\\');
        push_char(out, 'n');
    } else if c == '\x0C' {
        push_char(out, '\\');
        push_char(out, 'f');
    } else if c == '\r' {
        push_char(out, '\\');
        push_char(out, 'r');
    } else if code < 0x20 {
        push_char(out, '\\');
        push_char(out, 'u');
        push_char(out, '0');
        push_char(out, '0');
        push_char(out, hex_char(code / 16));
        push_char(out, hex_char(code % 16));
    } else {
        push_char(out, c);
    }
    proof {
        assert(final(out)@ =~= old(out)@ + escape_char(c));
    }
}

/// `value` as a JSON string literal: quoted, with `"`, `\` and the control
/// characters U+0000..U+001F escaped, so the claims built from it stay valid
/// JSON for any client id or scope.
pub fn json_string(value: &str) -> (r: String)
    ensures
        r@ == json_string_spec(value@),
{
    let n = value.unicode_len();
    let mut out = String::new();
    push_char(&mut out, '"');
    let mut i: usize = 0;
    assert(value@.skip(0) =~= value@);
    while i < n
        invariant
            n == value@.len(),
            i <= n,
            out@ + json_escape(value@.skip(i as int)) == seq!['"'] + json_escape(value@),
        decreases n - i,
    {
        let ch = value.get_char(i);
        let ghost before = out@;
        let ghost s = value@.skip(i as int);
        assert(s[0] == ch);
        push_escaped(&mut out, ch);
        proof {
            assert(s.skip(1) =~= value@.skip(i + 1));
            assert(before + json_escape(s) =~= out@ + json_escape(value@.skip(i + 1)));
        }
        i = i + 1;
    }
    push_char(&mut out, '"');
    proof {
        assert(value@.skip(n as int) =~= Seq::<char>::empty());
    }
    out
}

/// Mint a shape-valid, unsigned development JWT.
pub fn dev_jwt(subject: &str, scope: &str, expires_in: u64) -> (r: String)
    ensures
        r@ == dev_jwt_spec(subject@, scope@, expires_in),
{
    let header = base64url("{\"alg\":\"none\",\"typ\":\"JWT\"}".as_bytes());
    let mut claims = owned("{\"sub\":");
    let sub = json_string(subject);
    append_str(&mut claims, sub.as_str());
    append_str(&mut claims, ",\"scope\":");
    let sc = json_string(scope);
    append_str(&mut claims, sc.as_str());
    append_str(&mut claims, ",\"token_use\":\"access\",\"exp_in\":");
    push_decimal(&mut claims, expires_in);
    append_str(&mut claims, "}");
    let payload = base64url(claims.as_str().as_bytes());
    let signature = base64url("unsigned-dev-token".as_bytes());
    let mut token = header;
    push_char(&mut token, '.');
    append_str(&mut token, payload.as_str());
    push_char(&mut token, '.');
    append_str(&mut token, signature.as_str());
    proof {
        assert(claims@ =~= dev_claims(subject@, scope@, expires_in));
        assert(token@ =~= dev_jwt_spec(subject@, scope@, expires_in));
    }
    token
}

/// A development token splits at its two dots into three non-empty,
/// dot-free segments: header, claims and signature.
pub proof fn lemma_dev_jwt_three_segments(subject: Seq<char>, scope: Seq<char>, expires_in: u64)
    ensures
        ({
            let h = dev_header();
            let c = base64url_spec(encode_utf8(dev_claims(subject, scope, expires_in)));
            let s = dev_signature();
            &&& dev_jwt_spec(subject, scope, expires_in) == h + seq!['.'] + c + seq!['.'] + s
            &&& h.len() > 0 && c.len() > 0 && s.len() > 0
            &&& !h.contains('.') && !c.contains('.') && !s.contains('.')
        }),
{
    reveal_strlit("{\"alg\":\"none\",\"typ\":\"JWT\"}");
    reveal_strlit("unsigned-dev-token");
    reveal_strlit("{\"sub\":");
    let hc = "{\"alg\":\"none\",\"typ\":\"JWT\"}"@;
    let sc = "unsigned-dev-token"@;
    let cc = dev_claims(subject, scope, expires_in);
    assert(hc.len() > 0);
    assert(sc.len() > 0);
    assert(cc.len() > 0);
    assert(encode_utf8(hc).len() > 0);
    assert(encode_utf8(sc).len() > 0);
    assert(encode_utf8(cc).len() > 0);
    lemma_base64url_shape(encode_utf8(hc));
    lemma_base64url_shape(encode_utf8(sc));
    lemma_base64url_shape(encode_utf8(cc));
}

impl Authenticator for PermissiveAuthenticator {
    /// Any credentials succeed: the granted scope is the requested one (or
    /// `medkit:read` when none or an empty one is requested) and the token
    /// names the client id (or `dev-client`).
    fn issue_token(&self, credentials: &AuthCredentials) -> (r: Result<AuthTokenResponse, AuthRejection>)
        ensures
            r matches Ok(t) && t.token_type@ == "Bearer"@ && t.expires_in == DEFAULT_EXPIRES_IN
                && t.scope@ == granted_scope(credentials.scope) && t.refresh_token is None
                && t.access_token@ == dev_jwt_spec(
                token_subject(credentials.client_id),
                granted_scope(credentials.scope),
                DEFAULT_EXPIRES_IN,
            ),
    {
        let scope = match &credentials.scope {
            Some(s) => {
                if s.as_str().unicode_len() > 0 {
                    s.clone()
                } else {
                    owned(DEFAULT_SCOPE)
                }
            },
            None => owned(DEFAULT_SCOPE),
        };
        let access_token = match &credentials.client_id {
            Some(c) => dev_jwt(c.as_str(), scope.as_str(), DEFAULT_EXPIRES_IN),
            None => dev_jwt("dev-client", scope.as_str(), DEFAULT_EXPIRES_IN),
        };
        Ok(
            AuthTokenResponse {
                access_token,
                token_type: owned("Bearer"),
                expires_in: DEFAULT_EXPIRES_IN,
                scope,
                refresh_token: None,
            },
        )
    }

    /// Any (or no) bearer token is accepted.
    fn verify_bearer(&self, bearer: Option<&str>) -> (r: Result<(), AuthRejection>)
        ensures
            r is Ok,
    {
        Ok(())
    }
}

} // verus!
