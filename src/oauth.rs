//! Decisions of the OAuth callback: which authorization codes are passed
//! on, which granted scope is accepted, and how long the sealed-token
//! cookie lives.
use vstd::prelude::*;
use vstd::string::*;
use vstd::utf8::*;

verus! {

/// The only scope whose grant the linking flow accepts.
pub const REQUIRED_SCOPE: &'static str = "role_connections.write";

/// Seconds taken off the token's lifetime for the cookie that carries it.
pub const LIFETIME_MARGIN_SECS: u64 = 100;

/// Whether `c` is alphabetic or numeric in the Unicode sense.
pub uninterp spec fn alphanumeric(c: char) -> bool;

/// Relies on `char::is_alphanumeric`: Unicode `Alphabetic` or numeric.
#[verifier::external_body]
fn char_is_alphanumeric(c: char) -> (r: bool)
    ensures
        r == alphanumeric(c),
{
    c.is_alphanumeric()
}

/// An authorization code is passed on only when every character of it is
/// alphanumeric.
pub fn authorization_code_valid(code: &str) -> (r: bool)
    ensures
        r == forall|i: int| 0 <= i < code@.len() ==> alphanumeric(#[trigger] code@[i]),
{
    let n = code.unicode_len();
    let mut i: usize = 0;
    while i < n
        invariant
            i <= n,
            n == code@.len(),
            forall|j: int| 0 <= j < i ==> alphanumeric(#[trigger] code@[j]),
        decreases n - i,
    {
        let c = code.get_char(i);
        if !char_is_alphanumeric(c) {
            return false;
        }
        i = i + 1;
    }
    true
}

/// Whether the granted scope is exactly the one the flow asks for.
pub fn scope_accepted(scope: &str) -> (r: bool)
    ensures
        r == (scope@ == REQUIRED_SCOPE@),
{
    String::from_str(scope) == String::from_str(REQUIRED_SCOPE)
}

/// Lifetime of the cookie for a token that expires in `expires_in`
/// seconds: the margin less, and no less than zero.
pub fn cookie_lifetime_secs(expires_in: u64) -> (r: u64)
    ensures
        r == if expires_in >= LIFETIME_MARGIN_SECS {
            expires_in - LIFETIME_MARGIN_SECS
        } else {
            0
        },
{
    if expires_in >= LIFETIME_MARGIN_SECS {
        expires_in - LIFETIME_MARGIN_SECS
    } else {
        0
    }
}

/// Bytes that percent-encoding leaves as they are: ASCII letters, digits,
/// and `-`, `.`, `_`, `~`.
pub open spec fn url_unreserved(b: u8) -> bool {
    (48 <= b <= 57) || (65 <= b <= 90) || (97 <= b <= 122) || b == 45 || b == 46 || b == 95 || b == 126
}

/// An upper-case hexadecimal digit.
pub open spec fn hex_upper(d: u8) -> char {
    seq!['0', '1', '2', '3', '4', '5', '6', '7', '8', '9', 'A', 'B', 'C', 'D', 'E', 'F'][d as int]
}

/// One byte, percent-encoded unless it is unreserved.
pub open spec fn url_escape_byte(b: u8) -> Seq<char> {
    if url_unreserved(b) {
        seq![b as char]
    } else {
        seq!['%', hex_upper(b / 16), hex_upper(b % 16)]
    }
}

/// The percent-encoding of a byte string, byte by byte.
pub open spec fn url_encoded(bytes: Seq<u8>) -> Seq<char>
    decreases bytes.len(),
{
    if bytes.len() == 0 {
        seq![]
    } else {
        url_escape_byte(bytes[0]) + url_encoded(bytes.drop_first())
    }
}

/// Relies on `urlencoding::encode`: each UTF-8 byte of the text is kept if
/// unreserved, else written `%` and two upper-case hexadecimal digits.
#[verifier::external_body]
fn url_encode(text: &str) -> (r: String)
    ensures
        r@ == url_encoded(encode_utf8(text@)),
{
    urlencoding::encode(text).into_owned()
}

/// The address Discord sends the user back to after authorizing `game`.
pub fn auth_redirect_uri(domain: &str, game: &str) -> (r: String)
    ensures
        r@ == "https://"@ + domain@ + "/games/"@ + game@ + "/discord-auth-flow"@,
{
    proof {
        reveal_strlit("https://");
        reveal_strlit("/games/");
        reveal_strlit("/discord-auth-flow");
    }
    String::from_str("https://").concat(domain).concat("/games/").concat(game).concat("/discord-auth-flow")
}

/// The form body that trades an authorization code for a token.
pub fn token_request_body(code: &str, redirect_uri: &str) -> (r: String)
    ensures
        r@ == "grant_type=authorization_code&code="@ + code@ + "&redirect_uri="@ + url_encoded(
            encode_utf8(redirect_uri@),
        ),
{
    proof {
        reveal_strlit("grant_type=authorization_code&code=");
        reveal_strlit("&redirect_uri=");
    }
    let encoded = url_encode(redirect_uri);
    String::from_str("grant_type=authorization_code&code=").concat(code).concat("&redirect_uri=").concat(
        encoded.as_str(),
    )
}

} // verus!
