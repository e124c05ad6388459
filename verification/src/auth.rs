use vstd::prelude::*;
use crate::config::AuthInfo;
use crate::error::FlockError;
use crate::text::{bytes_eq, bytes_range, find_byte_at, find_first, lemma_find_first};
use vstd::utf8::encode_utf8;

verus! {

/// A request that passed the shared-credential check, with the replication
/// marker carried through as a pass-through flag for downstream policy.
#[derive(Debug, Clone, PartialEq, Eq)]
pub struct AuthorizedReq {
    pub is_replicated: bool,
}

/// Visible ASCII: the only bytes a header value may carry to be read as text.
pub open spec fn visible_ascii(h: Seq<u8>) -> bool {
    forall|i: int| 0 <= i < h.len() ==> 32 <= #[trigger] h[i] < 127
}

/// ASCII lowercasing of one byte.
pub open spec fn ascii_lower(b: u8) -> u8 {
    if 65 <= b <= 90 {
        (b + 32) as u8
    } else {
        b
    }
}

/// The replication header reads "true" in any ASCII case.
pub open spec fn spec_is_true(h: Seq<u8>) -> bool {
    h.len() == 4 && ascii_lower(h[0]) == 116 && ascii_lower(h[1]) == 114 && ascii_lower(h[2])
        == 117 && ascii_lower(h[3]) == 101
}

/// What base64 decoding yields: a function of the input bytes alone.
pub uninterp spec fn base64_decode_of(s: Seq<u8>) -> Option<Seq<u8>>;

/// Relies on base64::decode (standard alphabet, padded): it succeeds or
/// fails, and yields its bytes, as a function of the input alone.
#[verifier::external_body]
fn base64_decode(s: &[u8]) -> (r: Option<Vec<u8>>)
    ensures
        match r {
            Some(v) => base64_decode_of(s@) == Some(v@),
            None => base64_decode_of(s@) is None,
        },
{
    match base64::decode(s) {
        Ok(v) => Some(v),
        Err(_) => None,
    }
}

/// The bytes of the scheme token `Basic`.
pub open spec fn basic_token() -> Seq<u8> {
    seq![66u8, 97u8, 115u8, 105u8, 99u8]
}

/// An Authorization header authenticates exactly when it is `Basic`, a
/// space, and the base64 of `user:password` for the configured credential.
pub open spec fn spec_auth_ok(h: Seq<u8>, user: Seq<u8>, pass: Seq<u8>) -> bool {
    match find_first(h, 32u8) {
        None => false,
        Some(i) => {
            &&& h.subrange(0, i) == basic_token()
            &&& match base64_decode_of(h.subrange(i + 1, h.len() as int)) {
                None => false,
                Some(d) => match find_first(d, 58u8) {
                    None => false,
                    Some(j) => d.subrange(0, j) == user && d.subrange(j + 1, d.len() as int)
                        == pass,
                },
            }
        },
    }
}

fn all_visible_ascii(h: &Vec<u8>) -> (r: bool)
    ensures
        r == visible_ascii(h@),
{
    let n = h.len();
    let mut i: usize = 0;
    while i < n
        invariant
            i <= n,
            n == h@.len(),
            forall|j: int| 0 <= j < i ==> 32 <= #[trigger] h@[j] < 127,
        decreases n - i,
    {
        if h[i] < 32 || h[i] >= 127 {
            return false;
        }
        i += 1;
    }
    true
}

fn lower_byte(b: u8) -> (r: u8)
    ensures
        r == ascii_lower(b),
{
    if 65 <= b && b <= 90 {
        b + 32
    } else {
        b
    }
}

fn is_true_bytes(h: &Vec<u8>) -> (r: bool)
    ensures
        r == spec_is_true(h@),
{
    if h.len() != 4 {
        return false;
    }
    lower_byte(h[0]) == 116 && lower_byte(h[1]) == 114 && lower_byte(h[2]) == 117 && lower_byte(
        h[3],
    ) == 101
}

/// Checks the replication marker and the shared credential, exactly as the
/// HTTP layer hands the two header values in. Returns `Unauthorized` before
/// any state is touched: on a replication header that is not visible ASCII,
/// on a missing Authorization header, and on one that does not authenticate.
pub fn check_auth(
    authorization: Option<&Vec<u8>>,
    replication: Option<&Vec<u8>>,
    auth: &AuthInfo,
) -> (r: Result<AuthorizedReq, FlockError>)
    ensures
        match r {
            Ok(a) => {
                &&& match replication {
                    Some(h) => visible_ascii(h@) && a.is_replicated == spec_is_true(h@),
                    None => a.is_replicated == false,
                }
                &&& match authorization {
                    Some(h) => spec_auth_ok(
                        h@,
                        encode_utf8(auth.username@),
                        encode_utf8(auth.password@),
                    ),
                    None => false,
                }
            },
            Err(e) => {
                &&& e == FlockError::Unauthorized
                &&& ((match replication {
                    Some(h) => !visible_ascii(h@),
                    None => false,
                }) || (match authorization {
                    Some(h) => !spec_auth_ok(
                        h@,
                        encode_utf8(auth.username@),
                        encode_utf8(auth.password@),
                    ),
                    None => true,
                }))
            },
        },
{
    let is_replicated: bool = match replication {
        None => false,
        Some(h) => {
            if !all_visible_ascii(h) {
                return Err(FlockError::Unauthorized);
            }
            is_true_bytes(h)
        },
    };
    match authorization {
        None => Err(FlockError::Unauthorized),
        Some(h) => {
            let hl = h.len();
            match find_byte_at(h.as_slice(), 32) {
                None => Err(FlockError::Unauthorized),
                Some(i) => {
                    proof {
                        lemma_find_first(h@, 32u8);
                    }
                    let token = bytes_range(h.as_slice(), 0, i);
                    let basic: Vec<u8> = vec![66u8, 97u8, 115u8, 105u8, 99u8];
                    proof {
                        assert(basic@ =~= basic_token());
                    }
                    if !bytes_eq(token.as_slice(), basic.as_slice()) {
                        return Err(FlockError::Unauthorized);
                    }
                    let rest = bytes_range(h.as_slice(), i + 1, hl);
                    match base64_decode(rest.as_slice()) {
                        None => Err(FlockError::Unauthorized),
                        Some(d) => {
                            let dl = d.len();
                            match find_byte_at(d.as_slice(), 58) {
                                None => Err(FlockError::Unauthorized),
                                Some(j) => {
                                    proof {
                                        lemma_find_first(d@, 58u8);
                                    }
                                    let user = bytes_range(d.as_slice(), 0, j);
                                    let pass = bytes_range(d.as_slice(), j + 1, dl);
                                    let user_ok = bytes_eq(
                                        user.as_slice(),
                                        auth.username.as_str().as_bytes(),
                                    );
                                    let pass_ok = bytes_eq(
                                        pass.as_slice(),
                                        auth.password.as_str().as_bytes(),
                                    );
                                    if user_ok && pass_ok {
                                        Ok(AuthorizedReq { is_replicated })
                                    } else {
                                        Err(FlockError::Unauthorized)
                                    }
                                },
                            }
                        },
                    }
                },
            }
        },
    }
}

} // verus!
