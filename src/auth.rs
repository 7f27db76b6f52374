use candid::Principal;
use vstd::prelude::*;

verus! {

/// The bytes of the principal that a textual principal id names, if the text is
/// a well-formed principal id.
pub uninterp spec fn principal_of_text(text: Seq<char>) -> Option<Seq<u8>>;

/// Relies on `Principal::from_text` to parse (and checksum-check) the text, and on
/// `Principal::as_slice` for the parsed principal's bytes.
#[verifier::external_body]
pub(crate) fn parse_principal(text: &str) -> (r: Option<Vec<u8>>)
    ensures
        r is None <==> principal_of_text(text@) is None,
        r matches Some(b) ==> principal_of_text(text@) == Some(b@),
{
    match Principal::from_text(text) {
        Ok(p) => Some(p.as_slice().to_vec()),
        Err(_) => None,
    }
}

/// Whether two byte strings are equal.
pub fn bytes_equal(a: &[u8], b: &[u8]) -> (r: bool)
    ensures
        r == (a@ == b@),
{
    if a.len() != b.len() {
        return false;
    }
    let mut i: usize = 0;
    while i < a.len()
        invariant
            a@.len() == b@.len(),
            i <= a@.len(),
            forall|j: int| 0 <= j < i ==> a@[j] == b@[j],
        decreases a@.len() - i,
    {
        if a[i] != b[i] {
            return false;
        }
        i = i + 1;
    }
    assert(a@ =~= b@);
    true
}

/// Why a caller may not change the store, if it may not: the configured admin
/// id is malformed, or the caller is someone else.
pub open spec fn auth_failure(admin: Option<Seq<u8>>, caller: Seq<u8>) -> Option<Seq<char>> {
    match admin {
        None => Some(msg_invalid_admin()),
        Some(a) => if a == caller {
            None
        } else {
            Some(msg_unauthorized())
        },
    }
}

/// The bytes of an optional principal.
pub open spec fn id_bytes(a: Option<Vec<u8>>) -> Option<Seq<u8>> {
    match a {
        Some(v) => Some(v@),
        None => None,
    }
}

pub open spec fn msg_invalid_admin() -> Seq<char> {
    "Invalid authorized principal"@
}

pub open spec fn msg_unauthorized() -> Seq<char> {
    "Unauthorized: only the admin can call this method"@
}

/// Checks the caller against the admin id; on refusal, the reason.
pub fn authorize(admin: &Option<Vec<u8>>, caller: &[u8]) -> (r: Option<String>)
    ensures
        r is None <==> auth_failure(id_bytes(*admin), caller@) is None,
        r matches Some(m) ==> Some(m@) == auth_failure(id_bytes(*admin), caller@),
{
    match admin {
        None => Some("Invalid authorized principal".to_owned()),
        Some(a) => {
            if bytes_equal(a.as_slice(), caller) {
                None
            } else {
                Some("Unauthorized: only the admin can call this method".to_owned())
            }
        },
    }
}

} // verus!
