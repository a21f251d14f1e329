use vstd::prelude::*;

verus! {

/// A lowercase hexadecimal digit.
pub open spec fn is_lower_hex(c: char) -> bool {
    ('0' <= c && c <= '9') || ('a' <= c && c <= 'f')
}

/// The text of a random (version 4, RFC variant) UUID in hyphenated
/// lowercase form: `xxxxxxxx-xxxx-4xxx-Nxxx-xxxxxxxxxxxx`, `N` one of
/// `8`, `9`, `a`, `b`.
pub open spec fn is_v4_uuid_text(s: Seq<char>) -> bool {
    &&& s.len() == 36
    &&& forall|i: int|
        0 <= i < 36 ==> if i == 8 || i == 13 || i == 18 || i == 23 {
            #[trigger] s[i] == '-'
        } else {
            is_lower_hex(s[i])
        }
    &&& s[14] == '4'
    &&& (s[19] == '8' || s[19] == '9' || s[19] == 'a' || s[19] == 'b')
}

/// A fresh random UUID as text, from `uuid::Uuid::new_v4` shown by its
/// `Display` impl. The claim: the text has the hyphenated lowercase form,
/// with the version digit `4` and the RFC variant digit in place (the
/// crate masks those bits into the random value and formats each byte as
/// two lowercase hex digits). Which UUID comes out is chance.
#[verifier::external_body]
fn random_uuid_text() -> (s: String)
    ensures
        is_v4_uuid_text(s@),
{
    uuid::Uuid::new_v4().to_string()
}

/// A fresh correlation id for the log lines of one request.
pub fn new_session_id() -> (id: String)
    ensures
        is_v4_uuid_text(id@),
{
    random_uuid_text()
}

} // verus!
