//! Object ids in their hexadecimal notation.

use gix::hash::ObjectId;
use vstd::prelude::*;
use vstd::string::*;
use crate::error::AppError;
use crate::text::decimal;
use crate::types::{ref_views, string_views, RefInfo, RefInfoView};

verus! {

/// `gix::hash::ObjectId`, of which the verifier sees nothing but the name.
#[verifier::external_type_specification]
#[verifier::external_body]
pub struct ExObjectId(ObjectId);

/// Why a string is no object id.
#[derive(Debug, Clone, Copy, PartialEq, Eq, Structural)]
pub enum IdFault {
    /// It has another length than an id has; the length is counted in bytes.
    Length(usize),
    /// It has the length of an id and holds something else than hexadecimal digits.
    Digit,
}

/// `c` is a hexadecimal digit, in either case.
pub open spec fn is_hex_digit(c: char) -> bool {
    let u = c as u32;
    ||| 0x30 <= u <= 0x39
    ||| 0x41 <= u <= 0x46
    ||| 0x61 <= u <= 0x66
}

/// `s` is the notation of an object id: forty hexadecimal digits.
pub open spec fn is_object_id(s: Seq<char>) -> bool {
    s.len() == 40 && forall|i: int| 0 <= i < s.len() ==> is_hex_digit(#[trigger] s[i])
}

/// What is wrong with a string that is no object id.
pub open spec fn fault_of(hex: &str) -> IdFault {
    if hex.spec_bytes().len() != 40 {
        IdFault::Length(hex.spec_bytes().len() as usize)
    } else {
        IdFault::Digit
    }
}

/// The text in which the decoder names a fault.
pub open spec fn fault_text(fault: IdFault) -> Seq<char> {
    match fault {
        IdFault::Length(n) => "A hash sized "@ + decimal(n as nat)
            + " hexadecimal characters is invalid"@,
        IdFault::Digit => "Invalid character encountered"@,
    }
}

/// The text that tells a user what is wrong with an id: the decoder's own
/// text behind `Invalid OID: `.
pub open spec fn fault_message(fault: IdFault) -> Seq<char> {
    "Invalid OID: "@ + fault_text(fault)
}

/// The number that a hexadecimal digit stands for.
pub open spec fn hex_value(c: char) -> int {
    let u = c as u32;
    if 0x30 <= u <= 0x39 {
        u - 0x30
    } else if 0x41 <= u <= 0x46 {
        u - 0x41 + 10
    } else {
        u - 0x61 + 10
    }
}

/// The bytes that hexadecimal digits spell, two digits to the byte, the
/// high half first.
pub open spec fn hex_bytes(s: Seq<char>) -> Seq<u8> {
    Seq::new(s.len() / 2, |i: int| (hex_value(s[2 * i]) * 16 + hex_value(s[2 * i + 1])) as u8)
}

/// The bytes that an object id holds.
pub uninterp spec fn object_id_bytes(id: ObjectId) -> Seq<u8>;

/// `ObjectId::from_hex` on the bytes of `hex`, with a failure turned into
/// its text. It accepts forty hexadecimal digits of either case, the
/// notation of a SHA-1 id, and nothing else: ids of another kind are not
/// built in. The id holds the bytes that the digits spell. Any other length
/// is refused with that length in bytes, and forty bytes that are not all
/// digits as invalid, in the words of the decoder.
#[verifier::external_body]
fn decode_object_id(hex: &str) -> (decoded: Result<ObjectId, String>)
    ensures
        decoded is Ok <==> is_object_id(hex@),
        decoded matches Ok(id) ==> object_id_bytes(id) == hex_bytes(hex@),
        decoded matches Err(text) ==> text@ == fault_text(fault_of(hex)),
{
    match ObjectId::from_hex(hex.as_bytes()) {
        Ok(id) => Ok(id),
        Err(fault) => Err(fault.to_string()),
    }
}

/// Reads an object id from its hexadecimal notation: the id of the bytes
/// that the digits spell. A string that is no such notation is refused as
/// an invalid id, with the reason.
pub fn parse_object_id(hex: &str) -> (parsed: Result<ObjectId, AppError>)
    ensures
        parsed is Ok <==> is_object_id(hex@),
        parsed matches Ok(id) ==> object_id_bytes(id) == hex_bytes(hex@),
        parsed matches Err(e) ==> e matches AppError::InvalidId(m) && m@ == fault_message(
            fault_of(hex),
        ),
{
    match decode_object_id(hex) {
        Ok(id) => Ok(id),
        Err(text) => Err(
            AppError::InvalidId(String::from_str("Invalid OID: ").concat(text.as_str())),
        ),
    }
}

/// Whether `hex` is the notation of an object id.
pub fn is_object_id_text(hex: &str) -> (r: bool)
    ensures
        r == is_object_id(hex@),
{
    decode_object_id(hex).is_ok()
}

/// The targets of the refs that are object ids, in the order of the refs.
pub open spec fn tips_of(refs: Seq<RefInfoView>) -> Seq<Seq<char>>
    decreases refs.len(),
{
    if refs.len() == 0 {
        Seq::empty()
    } else if is_object_id(refs.last().target_oid) {
        tips_of(refs.drop_last()).push(refs.last().target_oid)
    } else {
        tips_of(refs.drop_last())
    }
}

/// The ids at which a walk over the whole history starts: the target of
/// every ref whose target is an object id. A ref with another target gives
/// no starting point.
pub fn tip_ids(refs: &Vec<RefInfo>) -> (tips: Vec<String>)
    ensures
        string_views(tips@) == tips_of(ref_views(refs@)),
{
    let mut tips: Vec<String> = Vec::new();
    let mut i: usize = 0;
    assert(ref_views(refs@).take(0) =~= Seq::empty());
    while i < refs.len()
        invariant
            i <= refs@.len(),
            string_views(tips@) == tips_of(ref_views(refs@).take(i as int)),
        decreases refs@.len() - i,
    {
        let ghost seen = ref_views(refs@).take(i + 1);
        assert(seen.drop_last() =~= ref_views(refs@).take(i as int));
        assert(seen.last() == refs@[i as int]@);
        if is_object_id_text(refs[i].target_oid.as_str()) {
            let ghost was = string_views(tips@);
            tips.push(refs[i].target_oid.clone());
            assert(string_views(tips@) =~= was.push(refs@[i as int].target_oid@));
        }
        i += 1;
    }
    assert(ref_views(refs@).take(refs@.len() as int) =~= ref_views(refs@));
    tips
}

} // verus!
