//! The rules of the format, as functions on sequences of bytes.
//!
//! Each rule takes the bytes that are still to be read and says what the
//! decoder makes of them: the outcome, and the bytes that it leaves unread.
//! The rules read from left to right and never look further than one byte
//! ahead.

use crate::error::DecodeError;
use crate::value::BenValue;
use vstd::prelude::*;

verus! {

/// `d`, which opens a dictionary.
pub const DICT_START: u8 = 0x64;

/// `i`, which opens an integer.
pub const INT_START: u8 = 0x69;

/// `l`, which opens a list.
pub const LIST_START: u8 = 0x6c;

/// `e`, which closes an integer, a list or a dictionary.
pub const END: u8 = 0x65;

/// `-`, the sign of a negative integer.
pub const MINUS: u8 = 0x2d;

/// `:`, which parts the length of a string from its bytes.
pub const COLON: u8 = 0x3a;

/// `0`, the first of the ten digits, which follow one another up to `9`.
pub const ZERO: u8 = 0x30;

/// `9`, the last of the digits.
pub const NINE: u8 = 0x39;

/// What a rule makes of its input.
pub struct Parse<T> {
    /// The value that was read, or why none was.
    pub outcome: Result<T, DecodeError>,
    /// The bytes that the rule has not consumed. After an error that was
    /// found by looking ahead, the offending byte is the first of them.
    pub rest: Seq<u8>,
}

/// Whether `b` is one of `0` to `9`.
pub open spec fn is_digit(b: u8) -> bool {
    ZERO <= b <= NINE
}

/// Whether `s` is not empty and begins with `b`.
pub open spec fn starts_with(s: Seq<u8>, b: u8) -> bool {
    s.len() > 0 && s[0] == b
}

/// Reads decimal digits for as long as there are any, each one turning the
/// number `acc` read so far into `acc * 10 + digit`. Gives the number and
/// the bytes from the first that is no digit. With no digit at the start of
/// `s`, the number is `acc` and nothing is consumed.
pub open spec fn digits_rule(s: Seq<u8>, acc: nat) -> (nat, Seq<u8>)
    decreases s.len(),
{
    if s.len() > 0 && is_digit(s[0]) {
        digits_rule(s.skip(1), acc * 10 + (s[0] - ZERO) as nat)
    } else {
        (acc, s)
    }
}

/// The integer rule, for input that begins with `i`: an optional `-`, then
/// digits, then `e`. A missing `e` is an error; only then is the number held
/// against the 64-bit signed range. No digit at all reads as zero, and so
/// does `-` alone.
pub open spec fn integer_rule(s: Seq<u8>) -> Parse<BenValue> {
    let after_start = s.skip(1);
    let negative = starts_with(after_start, MINUS);
    let (magnitude, tail) = digits_rule(
        if negative {
            after_start.skip(1)
        } else {
            after_start
        },
        0,
    );
    let number = if negative {
        -(magnitude as int)
    } else {
        magnitude as int
    };
    if !starts_with(tail, END) {
        Parse { outcome: Err(DecodeError::MalformedInteger), rest: tail }
    } else if i64::MIN <= number <= i64::MAX {
        Parse { outcome: Ok(BenValue::Integer(number)), rest: tail.skip(1) }
    } else {
        Parse { outcome: Err(DecodeError::IntegerOverflow), rest: tail.skip(1) }
    }
}

/// The string rule: digits that give a length, then `:`, then that many
/// bytes, taken as they are. A length beyond what the input holds is an
/// error, and by then the input has been read to its end. No digit at all
/// reads as length zero.
pub open spec fn string_rule(s: Seq<u8>) -> Parse<BenValue> {
    let (length, tail) = digits_rule(s, 0);
    let body = tail.skip(1);
    if !starts_with(tail, COLON) {
        Parse { outcome: Err(DecodeError::MalformedString), rest: tail }
    } else if length <= body.len() {
        Parse {
            outcome: Ok(BenValue::Bytes(body.take(length as int))),
            rest: body.skip(length as int),
        }
    } else {
        Parse { outcome: Err(DecodeError::LengthMismatch), rest: Seq::empty() }
    }
}

/// The rule for one object: the first byte chooses among the dictionary,
/// integer, list and string rules.
pub open spec fn object_rule(s: Seq<u8>) -> Parse<BenValue>
    decreases s.len(), 1nat,
{
    if s.len() == 0 {
        Parse { outcome: Err(DecodeError::ObjectNotFound), rest: s }
    } else if s[0] == DICT_START {
        dict_rule(s)
    } else if s[0] == INT_START {
        integer_rule(s)
    } else if s[0] == LIST_START {
        list_rule(s)
    } else if is_digit(s[0]) {
        string_rule(s)
    } else {
        Parse { outcome: Err(DecodeError::UnexpectedByte), rest: s }
    }
}

/// The list rule, for input that begins with `l`: the items that follow it,
/// up to the closing `e`.
pub open spec fn list_rule(s: Seq<u8>) -> Parse<BenValue>
    decreases s.len(), 0nat,
    when s.len() > 0
{
    let body = list_body_rule(s.skip(1), Seq::empty());
    match body.outcome {
        Ok(items) => Parse { outcome: Ok(BenValue::List(items)), rest: body.rest },
        Err(e) => Parse { outcome: Err(e), rest: body.rest },
    }
}

/// The dictionary rule, for input that begins with `d`: the entries that
/// follow it, up to the closing `e`.
pub open spec fn dict_rule(s: Seq<u8>) -> Parse<BenValue>
    decreases s.len(), 0nat,
    when s.len() > 0
{
    let body = dict_body_rule(s.skip(1), Map::empty());
    match body.outcome {
        Ok(entries) => Parse { outcome: Ok(BenValue::Dict(entries)), rest: body.rest },
        Err(e) => Parse { outcome: Err(e), rest: body.rest },
    }
}

/// What follows the `l` of a list: objects up to an `e`, appended in turn to
/// the items `acc` read so far. An error in an item is the error of the
/// list.
///
/// An item always consumes at least one byte (see
/// [`crate::laws::lemma_object_rule_consumes`]), so the branch that reports
/// `MalformedList` is never taken; it is there for the definition to be
/// well founded.
pub open spec fn list_body_rule(s: Seq<u8>, acc: Seq<BenValue>) -> Parse<Seq<BenValue>>
    decreases s.len(), 2nat,
{
    if starts_with(s, END) {
        Parse { outcome: Ok(acc), rest: s.skip(1) }
    } else {
        let item = object_rule(s);
        match item.outcome {
            Err(e) => Parse { outcome: Err(e), rest: item.rest },
            Ok(value) => if item.rest.len() < s.len() {
                list_body_rule(item.rest, acc.push(value))
            } else {
                Parse { outcome: Err(DecodeError::MalformedList), rest: item.rest }
            },
        }
    }
}

/// What follows the `d` of a dictionary: pairs of a key and a value up to an
/// `e`, written in turn into the entries `acc` read so far, so that a key
/// that comes again replaces what it had. A key is read as any object is,
/// and must turn out to be a string.
///
/// As in [`list_body_rule`], the branches that report `MalformedDict` are
/// never taken.
pub open spec fn dict_body_rule(s: Seq<u8>, acc: Map<Seq<u8>, BenValue>) -> Parse<
    Map<Seq<u8>, BenValue>,
>
    decreases s.len(), 2nat,
{
    if starts_with(s, END) {
        Parse { outcome: Ok(acc), rest: s.skip(1) }
    } else {
        let key = object_rule(s);
        match key.outcome {
            Err(e) => Parse { outcome: Err(e), rest: key.rest },
            Ok(BenValue::Bytes(name)) => if key.rest.len() < s.len() {
                let value = object_rule(key.rest);
                match value.outcome {
                    Err(e) => Parse { outcome: Err(e), rest: value.rest },
                    Ok(v) => if value.rest.len() < s.len() {
                        dict_body_rule(value.rest, acc.insert(name, v))
                    } else {
                        Parse { outcome: Err(DecodeError::MalformedDict), rest: value.rest }
                    },
                }
            } else {
                Parse { outcome: Err(DecodeError::MalformedDict), rest: key.rest }
            },
            Ok(_) => Parse { outcome: Err(DecodeError::InvalidDictKey), rest: key.rest },
        }
    }
}

/// What is left in a source of bytes once the decoder is done with it.
///
/// The decoder looks one byte ahead by pulling that byte out of the source.
/// When decoding stops at a byte that it has looked at and not consumed, that
/// byte is lost with the decoder's lookahead.
pub open spec fn left_in_source<T>(parse: Parse<T>) -> Seq<u8> {
    match parse.outcome {
        Err(e) if e.found_by_lookahead() && parse.rest.len() > 0 => parse.rest.skip(1),
        _ => parse.rest,
    }
}

} // verus!
