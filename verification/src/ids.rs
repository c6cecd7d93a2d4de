//! Record identifiers: twelve bytes, written as twenty-four hexadecimal
//! digits of either case.

use crate::error::LookupError;
use vstd::prelude::*;

verus! {

/// The value of a hexadecimal digit of either case.
pub open spec fn hex_value(c: char) -> Option<int> {
    let n = c as int;
    if 48 <= n <= 57 {
        Some(n - 48)
    } else if 97 <= n <= 102 {
        Some(n - 87)
    } else if 65 <= n <= 70 {
        Some(n - 55)
    } else {
        None
    }
}

/// Twenty-four hexadecimal digits.
pub open spec fn is_object_id(s: Seq<char>) -> bool {
    &&& s.len() == 24
    &&& forall|i: int| 0 <= i < 24 ==> hex_value(#[trigger] s[i]) is Some
}

/// The twelve bytes that twenty-four hexadecimal digits stand for, two
/// digits per byte, the high one first.
pub open spec fn object_id_of(s: Seq<char>) -> Seq<u8> {
    Seq::new(
        12,
        |i: int| (16 * hex_value(s[2 * i]).unwrap() + hex_value(s[2 * i + 1]).unwrap()) as u8,
    )
}

/// Calls `mongodb_cursor_pagination::get_object_id` and hands out the
/// bytes of the identifier it built.
///
/// The contract claims what that function does through
/// `bson::oid::ObjectId::parse_str` and `hex::decode` beneath it: the
/// string is accepted exactly when it is twenty-four hexadecimal digits
/// of either case, and each byte is sixteen times its first digit plus
/// its second.
#[verifier::external_body]
fn object_id_bytes(id: &str) -> (r: Option<Vec<u8>>)
    ensures
        match r {
            Some(bytes) => is_object_id(id@) && bytes@ == object_id_of(id@),
            None => !is_object_id(id@),
        },
{
    match mongodb_cursor_pagination::get_object_id(id) {
        Ok(oid) => Some(oid.bytes().to_vec()),
        Err(_) => None,
    }
}

/// The twelve bytes of a record identifier, or `InvalidId` where the
/// string is not twenty-four hexadecimal digits.
pub fn get_object_id(id: &str) -> (r: Result<Vec<u8>, LookupError>)
    ensures
        match r {
            Ok(bytes) => is_object_id(id@) && bytes@ == object_id_of(id@),
            Err(e) => e == LookupError::InvalidId && !is_object_id(id@),
        },
{
    match object_id_bytes(id) {
        Some(bytes) => Ok(bytes),
        None => Err(LookupError::InvalidId),
    }
}

/// Whether `candidate` is the identifier whose bytes are `wanted`.
pub fn is_id(candidate: &str, wanted: &Vec<u8>) -> (r: bool)
    ensures
        r == (is_object_id(candidate@) && object_id_of(candidate@) == wanted@),
{
    match object_id_bytes(candidate) {
        Some(bytes) => crate::key::bytes_same(&bytes, wanted),
        None => false,
    }
}

} // verus!
