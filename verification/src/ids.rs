//! Persistence ids: version 7 UUIDs in their hyphenated text form.

use vstd::prelude::*;

verus! {

/// A lowercase hexadecimal digit.
pub open spec fn is_lower_hex(c: char) -> bool {
    ('0' <= c && c <= '9') || ('a' <= c && c <= 'f')
}

/// A position of the hyphenated form that holds a hyphen.
pub open spec fn is_hyphen_position(i: int) -> bool {
    i == 8 || i == 13 || i == 18 || i == 23
}

/// The hyphenated lowercase text of a version 7, RFC 9562 variant UUID:
/// `xxxxxxxx-xxxx-7xxx-Vxxx-xxxxxxxxxxxx` with `V` one of `8 9 a b`.
pub open spec fn is_v7_id_text(s: Seq<char>) -> bool {
    &&& s.len() == 36
    &&& forall|i: int| 0 <= i < 36 ==> if is_hyphen_position(i) { s[i] == '-' } else { is_lower_hex(#[trigger] s[i]) }
    &&& s[14] == '7'
    &&& (s[19] == '8' || s[19] == '9' || s[19] == 'a' || s[19] == 'b')
}

/// A fresh id for a stored row.
///
/// Calls `uuid::Uuid::now_v7` and formats it with the crate's `Display`,
/// which writes the hyphenated lowercase form; `now_v7` sets the version
/// nibble to 7 and the RFC 9562 variant bits. Which id comes out depends on
/// the clock and on random bits, and is left unsaid.
#[verifier::external_body]
pub(crate) fn new_persistence_id() -> (id: String)
    ensures
        is_v7_id_text(id@),
{
    uuid::Uuid::now_v7().to_string()
}

/// A fresh id for a stored record: a version 7 UUID in hyphenated text.
pub fn now_id() -> (id: String)
    ensures
        is_v7_id_text(id@),
{
    new_persistence_id()
}

/// The UUID version number of `s` when `uuid::Uuid::parse_str` accepts it.
pub uninterp spec fn parsed_uuid_version(s: Seq<char>) -> Option<usize>;

/// Parses `value` with `uuid::Uuid::parse_str` and reads its version number
/// with `get_version_num`. The formats the parser accepts are not restated;
/// the result is named by [`parsed_uuid_version`]. The hyphenated form is one
/// that the parser accepts, and its version is the digit at position 14.
#[verifier::external_body]
fn uuid_version_of(value: &str) -> (r: Option<usize>)
    ensures
        r == parsed_uuid_version(value@),
        is_v7_id_text(value@) ==> r == Some(7usize),
{
    match uuid::Uuid::parse_str(value) {
        Ok(id) => Some(id.get_version_num()),
        Err(_) => None,
    }
}

/// Whether `value` parses as a UUID of version 7; every id that
/// [`now_id`] gives does.
pub fn is_uuid_v7(value: &str) -> (b: bool)
    ensures
        b == (parsed_uuid_version(value@) == Some(7usize)),
        is_v7_id_text(value@) ==> b,
{
    match uuid_version_of(value) {
        Some(v) => v == 7,
        None => false,
    }
}

} // verus!
