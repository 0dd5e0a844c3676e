use vstd::prelude::*;
use uuid::Uuid;

verus! {

pub open spec fn hex_digits() -> Seq<char> {
    seq!['0', '1', '2', '3', '4', '5', '6', '7', '8', '9', 'a', 'b', 'c', 'd', 'e', 'f']
}

/// Hex digit `k` of `id`, counting from the most significant of its 32.
pub open spec fn uuid_digit(id: u128, k: int) -> char {
    hex_digits()[((id >> ((124 - 4 * k) as u128)) & 15u128) as int]
}

/// Character `p` of the hyphenated text: 32 digits, with `-` after digits 8, 12, 16, 20.
pub open spec fn uuid_char(id: u128, p: int) -> char {
    if p < 8 {
        uuid_digit(id, p)
    } else if p == 8 || p == 13 || p == 18 || p == 23 {
        '-'
    } else if p < 13 {
        uuid_digit(id, p - 1)
    } else if p < 18 {
        uuid_digit(id, p - 2)
    } else if p < 23 {
        uuid_digit(id, p - 3)
    } else {
        uuid_digit(id, p - 4)
    }
}

/// The lower-case hyphenated text of the UUID whose 128-bit value is `id`.
pub open spec fn uuid_text(id: u128) -> Seq<char> {
    Seq::new(36, |p: int| uuid_char(id, p))
}

/// Relies on `uuid::Uuid::new_v4`: a random version-4 UUID, handed on as its 128-bit
/// value (`Uuid::as_u128`). Nothing is promised of the value.
#[verifier::external_body]
pub(crate) fn new_uuid() -> (r: u128) {
    Uuid::new_v4().as_u128()
}

/// Relies on `uuid::Uuid::from_u128` (the value's bytes most significant first) and
/// `Uuid`'s `Display`, which writes them as lower-case hex in the hyphenated form.
#[verifier::external_body]
pub(crate) fn uuid_string(id: u128) -> (r: String)
    ensures
        r@ == uuid_text(id),
{
    Uuid::from_u128(id).to_string()
}

} // verus!
