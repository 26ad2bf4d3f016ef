//! What is read from JSON objects, and what is written into them.

use serde_json::Value;
use vstd::prelude::*;

use crate::numbers::{Binary32, Binary64};

verus! {

/// `serde_json::Value`, of which only its members are spoken of here.
#[verifier::external_type_specification]
#[verifier::external_body]
pub struct ExValue(serde_json::Value);

/// The members of a JSON object that are booleans; none, where the value is no object.
pub uninterp spec fn boolean_members(value: serde_json::Value) -> Map<Seq<char>, bool>;

/// The members of a JSON object that are numbers, as binary64 patterns; none, where the
/// value is no object.
pub uninterp spec fn number_members(value: serde_json::Value) -> Map<Seq<char>, u64>;

/// `Value::get` with a string, and `Value::as_bool` on what it finds: the member `key` of
/// an object, if there is one and it is a boolean.
#[verifier::external_body]
fn boolean_member(value: &Value, key: &str) -> (r: Option<bool>)
    ensures
        match r {
            Some(b) => boolean_members(*value).contains_key(key@) && boolean_members(*value)[key@]
                == b,
            None => !boolean_members(*value).contains_key(key@),
        },
{
    value.get(key).and_then(|member| member.as_bool())
}

/// `Value::get` with a string, and `Value::as_f64` on what it finds: the member `key` of
/// an object, if there is one and it is a number, in the bits that `to_bits` gives.
#[verifier::external_body]
fn number_member(value: &Value, key: &str) -> (r: Option<u64>)
    ensures
        match r {
            Some(n) => number_members(*value).contains_key(key@) && number_members(*value)[key@]
                == n,
            None => !number_members(*value).contains_key(key@),
        },
{
    value.get(key).and_then(|member| member.as_f64()).map(|number| number.to_bits())
}

/// A boolean member, false where there is none.
pub open spec fn flag(value: Value, key: Seq<char>) -> bool {
    boolean_members(value).contains_key(key) && boolean_members(value)[key]
}

/// A number member, zero where there is none.
pub open spec fn number(value: Value, key: Seq<char>) -> Binary64 {
    if number_members(value).contains_key(key) {
        Binary64 { bits: number_members(value)[key] }
    } else {
        Binary64 { bits: 0 }
    }
}

/// The value of a member that is written.
#[derive(Clone, Copy, PartialEq, Eq, Debug)]
pub enum Member {
    Flag(bool),
    /// A number with a fraction. One that is not finite is written as null.
    Number(Binary32),
    Count(u64),
    Text(&'static str),
}

/// The members of an object, each with its name.
pub open spec fn named(members: Seq<(&'static str, Member)>) -> Seq<(Seq<char>, Member)> {
    members.map_values(|m: (&'static str, Member)| (m.0@, m.1))
}

/// `value` holds a member: a boolean as it is, a finite number with the precision that JSON
/// numbers are read with, and no number in place of one that is not finite.
pub open spec fn holds(value: Value, name: Seq<char>, member: Member) -> bool {
    match member {
        Member::Flag(b) => boolean_members(value).contains_key(name) && boolean_members(
            value,
        )[name] == b,
        Member::Number(x) => if x.finite() {
            number_members(value).contains_key(name) && number_members(value)[name]
                == x.widened().bits
        } else {
            !number_members(value).contains_key(name)
        },
        _ => true,
    }
}

/// `value` is what the members were written into.
pub open spec fn written(value: Value, members: Seq<(Seq<char>, Member)>) -> bool {
    forall|i: int|
        0 <= i < members.len() ==> holds(value, (#[trigger] members[i]).0, members[i].1)
}

/// What the coordinator reads from the report of the detector.
#[derive(Clone, Copy, PartialEq, Eq, Structural, Debug)]
pub struct VadReading {
    pub has_speech: bool,
    pub is_speech_start: bool,
    pub is_speech_end: bool,
    pub speech_probability: Binary32,
}

impl VadReading {
    pub open spec fn of(value: Value) -> VadReading {
        VadReading {
            has_speech: flag(value, "has_speech"@),
            is_speech_start: flag(value, "is_speech_start"@),
            is_speech_end: flag(value, "is_speech_end"@),
            speech_probability: number(value, "speech_probability"@).narrowed(),
        }
    }

    /// Reads a report. What it lacks is false or zero.
    pub fn read(value: &Value) -> (r: VadReading)
        ensures
            r == VadReading::of(*value),
    {
        let probability: Binary64 = match number_member(value, "speech_probability") {
            Some(bits) => Binary64 { bits },
            None => Binary64 { bits: 0 },
        };
        VadReading {
            has_speech: read_flag(value, "has_speech"),
            is_speech_start: read_flag(value, "is_speech_start"),
            is_speech_end: read_flag(value, "is_speech_end"),
            speech_probability: probability.narrow(),
        }
    }
}

fn read_flag(value: &Value, key: &str) -> (r: bool)
    ensures
        r == flag(*value, key@),
{
    match boolean_member(value, key) {
        Some(b) => b,
        None => false,
    }
}

} // verus!
