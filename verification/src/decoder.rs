//! The decoder: one pass over a source of bytes, looking one byte ahead.
//!
//! The source is any iterator over bytes. The decoder pulls bytes out of it
//! one at a time and keeps at most one that it has looked at and not yet
//! consumed. Each function here carries out one rule of [`crate::grammar`]
//! on the bytes that are still to be read: those that the iterator will yet
//! give, behind the byte that is held, if one is.

use crate::bytestring::ByteString;
use crate::dict::BenDict;
use crate::error::DecodeError;
use crate::grammar::{
    dict_body_rule, dict_rule, digits_rule, integer_rule, is_digit, left_in_source, list_body_rule,
    list_rule, object_rule, starts_with, string_rule, Parse, COLON, DICT_START, END, INT_START,
    LIST_START, MINUS, NINE, ZERO,
};
use crate::laws::lemma_object_rule_consumes;
use crate::object::{list_view, BenObject};
use crate::value::BenValue;
use vstd::prelude::*;
use vstd::std_specs::iter::IteratorSpec;

verus! {

/// What the decoder asks of a source of bytes: that it gives finitely many
/// bytes, then says that it is exhausted, and says so again whenever it is
/// asked again. In the terms of vstd: the iterator obeys the iterator laws,
/// so that the bytes it will yet give are a sequence, and it has a measure
/// that shrinks with each byte it gives.
pub open spec fn well_behaved<I: Iterator<Item = u8>>(bytes: &I) -> bool {
    I::obeys_prophetic_iter_laws(bytes) && I::decrease(bytes) is Some
}

/// Whether `result` is what `outcome` asks for: the same error, or an
/// object that stands for the value.
pub open spec fn agrees(
    result: Result<BenObject, DecodeError>,
    outcome: Result<BenValue, DecodeError>,
) -> bool {
    match result {
        Ok(object) => outcome == Ok::<BenValue, DecodeError>(object@),
        Err(e) => outcome == Err::<BenValue, DecodeError>(e),
    }
}

/// The first byte of `s`, if it has one.
spec fn first_of(s: Seq<u8>) -> Option<u8> {
    if s.len() > 0 {
        Some(s[0])
    } else {
        None
    }
}

/// The one byte of lookahead: what the decoder knows of the next byte.
#[derive(Clone, Copy)]
enum Lookahead {
    /// Nothing: the next byte is still in the source.
    Unknown,
    /// The next byte, pulled out of the source and not yet consumed.
    Byte(u8),
    /// That there is no next byte: the source has said that it is exhausted.
    End,
}

impl Lookahead {
    /// The bytes that are still to be read, where `coming` are those that
    /// the source will yet give.
    spec fn ahead(self, coming: Seq<u8>) -> Seq<u8> {
        match self {
            Lookahead::Byte(b) => seq![b] + coming,
            _ => coming,
        }
    }

    /// Whether the lookahead fits a source that will yet give `coming`.
    spec fn fits(self, coming: Seq<u8>) -> bool {
        self is End ==> coming.len() == 0
    }

    /// A bound on the work that is left, where `steps` bounds the bytes that
    /// the source will yet give. It never grows, and it shrinks with each
    /// byte that is consumed.
    spec fn budget(self, steps: Option<nat>) -> nat {
        match self {
            Lookahead::Unknown => steps->0 + 1,
            Lookahead::Byte(_) => steps->0 + 2,
            Lookahead::End => 0,
        }
    }

    /// Whether the decoder stands as a rule with the result `parse` leaves it.
    /// It holds a byte exactly where the rule failed on a byte that it
    /// looked at.
    spec fn left_by<T>(self, parse: Parse<T>, unread: Seq<u8>) -> bool {
        &&& unread == parse.rest
        &&& self is Byte <==> (parse.outcome matches Err(e) && e.found_by_lookahead()
            && parse.rest.len() > 0)
    }
}

/// Looks at the next byte without consuming it.
fn peek<I: Iterator<Item = u8>>(bytes: &mut I, look: &mut Lookahead) -> (next: Option<u8>)
    requires
        well_behaved(old(bytes)),
        old(look).fits(I::remaining(old(bytes))),
    ensures
        well_behaved(final(bytes)),
        final(look).fits(I::remaining(final(bytes))),
        final(look).ahead(I::remaining(final(bytes))) == old(look).ahead(
            I::remaining(old(bytes)),
        ),
        next == first_of(old(look).ahead(I::remaining(old(bytes)))),
        *final(look) == (match next {
            Some(b) => Lookahead::Byte(b),
            None => Lookahead::End,
        }),
        final(look).budget(I::decrease(final(bytes))) <= old(look).budget(
            I::decrease(old(bytes)),
        ),
{
    match *look {
        Lookahead::Byte(b) => Some(b),
        Lookahead::End => None,
        Lookahead::Unknown => {
            let ghost coming = I::remaining(bytes);
            let next = bytes.next();
            match next {
                Some(b) => {
                    *look = Lookahead::Byte(b);
                    assert(seq![b] + I::remaining(bytes) =~= coming);
                },
                None => {
                    *look = Lookahead::End;
                },
            }
            next
        },
    }
}

/// Consumes the next byte, if there is one.
fn next_byte<I: Iterator<Item = u8>>(bytes: &mut I, look: &mut Lookahead) -> (next: Option<u8>)
    requires
        well_behaved(old(bytes)),
        old(look).fits(I::remaining(old(bytes))),
    ensures
        well_behaved(final(bytes)),
        final(look).fits(I::remaining(final(bytes))),
        next == first_of(old(look).ahead(I::remaining(old(bytes)))),
        final(look).ahead(I::remaining(final(bytes))) == (if next is Some {
            old(look).ahead(I::remaining(old(bytes))).skip(1)
        } else {
            old(look).ahead(I::remaining(old(bytes)))
        }),
        *final(look) == (if next is Some {
            Lookahead::Unknown
        } else {
            Lookahead::End
        }),
        final(look).budget(I::decrease(final(bytes))) <= old(look).budget(
            I::decrease(old(bytes)),
        ),
        next is Some ==> final(look).budget(I::decrease(final(bytes))) < old(look).budget(
            I::decrease(old(bytes)),
        ),
{
    match *look {
        Lookahead::Byte(b) => {
            *look = Lookahead::Unknown;
            assert((seq![b] + I::remaining(bytes)).skip(1) =~= I::remaining(bytes));
            Some(b)
        },
        Lookahead::End => None,
        Lookahead::Unknown => {
            let ghost coming = I::remaining(bytes);
            let next = bytes.next();
            match next {
                Some(_) => {
                    assert(coming.skip(1) =~= coming.drop_first());
                },
                None => {
                    *look = Lookahead::End;
                },
            }
            next
        },
    }
}

impl BenObject {
    /// Consumes the next byte if it is `ch`, and says whether it did.
    fn skip_if_match<I: Iterator<Item = u8>>(bytes: &mut I, look: &mut Lookahead, ch: u8) -> (matched:
        bool)
        requires
            well_behaved(old(bytes)),
            old(look).fits(I::remaining(old(bytes))),
        ensures
            well_behaved(final(bytes)),
            final(look).fits(I::remaining(final(bytes))),
            matched == starts_with(old(look).ahead(I::remaining(old(bytes))), ch),
            final(look).ahead(I::remaining(final(bytes))) == (if matched {
                old(look).ahead(I::remaining(old(bytes))).skip(1)
            } else {
                old(look).ahead(I::remaining(old(bytes)))
            }),
            *final(look) == (if matched {
                Lookahead::Unknown
            } else {
                match first_of(old(look).ahead(I::remaining(old(bytes)))) {
                    Some(b) => Lookahead::Byte(b),
                    None => Lookahead::End,
                }
            }),
            final(look).budget(I::decrease(final(bytes))) <= old(look).budget(
                I::decrease(old(bytes)),
            ),
            matched ==> final(look).budget(I::decrease(final(bytes))) < old(look).budget(
                I::decrease(old(bytes)),
            ),
    {
        if peek(bytes, look) == Some(ch) {
            let _ = next_byte(bytes, look);
            true
        } else {
            false
        }
    }

    /// Reads decimal digits for as long as there are any, and gives their
    /// number, or `None` where it does not fit in 64 bits. Either way all
    /// the digits are consumed.
    fn decode_uint<I: Iterator<Item = u8>>(bytes: &mut I, look: &mut Lookahead) -> (number: Option<
        u64,
    >)
        requires
            well_behaved(old(bytes)),
            old(look).fits(I::remaining(old(bytes))),
        ensures
            well_behaved(final(bytes)),
            final(look).fits(I::remaining(final(bytes))),
            ({
                let (value, tail) = digits_rule(old(look).ahead(I::remaining(old(bytes))), 0);
                &&& final(look).ahead(I::remaining(final(bytes))) == tail
                &&& number == (if value <= u64::MAX {
                    Some(value as u64)
                } else {
                    None
                })
            }),
            final(look).budget(I::decrease(final(bytes))) <= old(look).budget(
                I::decrease(old(bytes)),
            ),
    {
        let mut number: Option<u64> = Some(0);
        let ghost mut acc: nat = 0;
        loop
            invariant
                well_behaved(bytes),
                look.fits(I::remaining(bytes)),
                digits_rule(old(look).ahead(I::remaining(old(bytes))), 0) == digits_rule(
                    look.ahead(I::remaining(bytes)),
                    acc,
                ),
                number == (if acc <= u64::MAX {
                    Some(acc as u64)
                } else {
                    None
                }),
                look.budget(I::decrease(bytes)) <= old(look).budget(I::decrease(old(bytes))),
            ensures
                first_of(look.ahead(I::remaining(bytes))) matches Some(b) ==> !is_digit(b),
            decreases look.budget(I::decrease(bytes)),
        {
            let digit: u8 = match peek(bytes, look) {
                Some(b) if ZERO <= b && b <= NINE => b - ZERO,
                _ => { break ; },
            };
            let _ = next_byte(bytes, look);
            number = match number {
                Some(n) => match n.checked_mul(10) {
                    Some(tens) => tens.checked_add(digit as u64),
                    None => None,
                },
                None => None,
            };
            proof {
                acc = acc * 10 + digit as nat;
            }
        }
        number
    }

    /// Carries out the integer rule. The next byte must be `i`.
    fn decode_benint<I: Iterator<Item = u8>>(bytes: &mut I, look: &mut Lookahead) -> (result: Result<
        BenObject,
        DecodeError,
    >)
        requires
            well_behaved(old(bytes)),
            old(look).fits(I::remaining(old(bytes))),
            starts_with(old(look).ahead(I::remaining(old(bytes))), INT_START),
        ensures
            well_behaved(final(bytes)),
            final(look).fits(I::remaining(final(bytes))),
            agrees(result, integer_rule(old(look).ahead(I::remaining(old(bytes)))).outcome),
            final(look).left_by(
                integer_rule(old(look).ahead(I::remaining(old(bytes)))),
                final(look).ahead(I::remaining(final(bytes))),
            ),
            final(look).budget(I::decrease(final(bytes))) < old(look).budget(
                I::decrease(old(bytes)),
            ),
    {
        let _ = next_byte(bytes, look);
        let negative = Self::skip_if_match(bytes, look, MINUS);
        let magnitude = Self::decode_uint(bytes, look);
        if !Self::skip_if_match(bytes, look, END) {
            return Err(DecodeError::MalformedInteger);
        }
        match magnitude {
            Some(m) if !negative && m <= 0x7fff_ffff_ffff_ffff => Ok(BenObject::I(m as i64)),
            Some(m) if negative && m < 0x8000_0000_0000_0000 => Ok(BenObject::I(-(m as i64))),
            Some(m) if negative && m == 0x8000_0000_0000_0000 => Ok(BenObject::I(i64::MIN)),
            _ => Err(DecodeError::IntegerOverflow),
        }
    }

    /// Carries out the string rule.
    fn decode_benstring<I: Iterator<Item = u8>>(bytes: &mut I, look: &mut Lookahead) -> (result:
        Result<BenObject, DecodeError>)
        requires
            well_behaved(old(bytes)),
            old(look).fits(I::remaining(old(bytes))),
        ensures
            well_behaved(final(bytes)),
            final(look).fits(I::remaining(final(bytes))),
            agrees(result, string_rule(old(look).ahead(I::remaining(old(bytes)))).outcome),
            final(look).left_by(
                string_rule(old(look).ahead(I::remaining(old(bytes)))),
                final(look).ahead(I::remaining(final(bytes))),
            ),
            final(look).budget(I::decrease(final(bytes))) <= old(look).budget(
                I::decrease(old(bytes)),
            ),
            result is Ok ==> final(look).budget(I::decrease(final(bytes))) < old(look).budget(
                I::decrease(old(bytes)),
            ),
    {
        let ghost start = look.ahead(I::remaining(bytes));
        let length = Self::decode_uint(bytes, look);
        if !Self::skip_if_match(bytes, look, COLON) {
            return Err(DecodeError::MalformedString);
        }
        let ghost body = look.ahead(I::remaining(bytes));
        let mut buf: Vec<u8> = Vec::new();
        proof {
            assert(body.take(0) =~= Seq::<u8>::empty());
            assert(body.skip(0) =~= body);
        }
        loop
            invariant
                start == old(look).ahead(I::remaining(old(bytes))),
                starts_with(digits_rule(start, 0).1, COLON),
                body == digits_rule(start, 0).1.skip(1),
                length == (if digits_rule(start, 0).0 <= u64::MAX {
                    Some(digits_rule(start, 0).0 as u64)
                } else {
                    None
                }),
                well_behaved(bytes),
                look.fits(I::remaining(bytes)),
                !(*look is Byte),
                buf@.len() <= body.len(),
                buf@ == body.take(buf@.len() as int),
                look.ahead(I::remaining(bytes)) == body.skip(buf@.len() as int),
                length matches Some(n) ==> buf@.len() <= n,
                look.budget(I::decrease(bytes)) < old(look).budget(I::decrease(old(bytes))),
            decreases look.budget(I::decrease(bytes)),
        {
            let filled = buf.len();
            if let Some(n) = length {
                if filled as u64 >= n {
                    return Ok(BenObject::S(ByteString(buf)));
                }
            }
            match next_byte(bytes, look) {
                Some(b) => {
                    buf.push(b);
                    proof {
                        let k = buf@.len() as int;
                        assert(body.skip(k - 1).skip(1) =~= body.skip(k));
                        assert(body.take(k - 1).push(body[k - 1]) =~= body.take(k));
                    }
                },
                None => {
                    assert(look.ahead(I::remaining(bytes)) =~= Seq::<u8>::empty());
                    assert(body.skip(filled as int).len() == body.len() - filled);
                    return Err(DecodeError::LengthMismatch);
                },
            }
        }
    }

    /// Carries out the rule for one object: looks at the next byte and goes
    /// on with the rule that it calls for.
    fn decode_benobject<I: Iterator<Item = u8>>(bytes: &mut I, look: &mut Lookahead) -> (result:
        Result<BenObject, DecodeError>)
        requires
            well_behaved(old(bytes)),
            old(look).fits(I::remaining(old(bytes))),
        ensures
            well_behaved(final(bytes)),
            final(look).fits(I::remaining(final(bytes))),
            agrees(result, object_rule(old(look).ahead(I::remaining(old(bytes)))).outcome),
            final(look).left_by(
                object_rule(old(look).ahead(I::remaining(old(bytes)))),
                final(look).ahead(I::remaining(final(bytes))),
            ),
            final(look).budget(I::decrease(final(bytes))) <= old(look).budget(
                I::decrease(old(bytes)),
            ),
            result is Ok ==> final(look).budget(I::decrease(final(bytes))) < old(look).budget(
                I::decrease(old(bytes)),
            ),
        decreases old(look).budget(I::decrease(old(bytes))), 1nat,
    {
        match peek(bytes, look) {
            None => Err(DecodeError::ObjectNotFound),
            Some(c) => {
                if c == DICT_START {
                    Self::decode_bendict(bytes, look)
                } else if c == INT_START {
                    Self::decode_benint(bytes, look)
                } else if c == LIST_START {
                    Self::decode_benlist(bytes, look)
                } else if ZERO <= c && c <= NINE {
                    Self::decode_benstring(bytes, look)
                } else {
                    Err(DecodeError::UnexpectedByte)
                }
            },
        }
    }

    /// Carries out the list rule. The next byte must be `l`.
    fn decode_benlist<I: Iterator<Item = u8>>(bytes: &mut I, look: &mut Lookahead) -> (result: Result<
        BenObject,
        DecodeError,
    >)
        requires
            well_behaved(old(bytes)),
            old(look).fits(I::remaining(old(bytes))),
            starts_with(old(look).ahead(I::remaining(old(bytes))), LIST_START),
        ensures
            well_behaved(final(bytes)),
            final(look).fits(I::remaining(final(bytes))),
            agrees(result, list_rule(old(look).ahead(I::remaining(old(bytes)))).outcome),
            final(look).left_by(
                list_rule(old(look).ahead(I::remaining(old(bytes)))),
                final(look).ahead(I::remaining(final(bytes))),
            ),
            final(look).budget(I::decrease(final(bytes))) < old(look).budget(
                I::decrease(old(bytes)),
            ),
        decreases old(look).budget(I::decrease(old(bytes))), 0nat,
    {
        let _ = next_byte(bytes, look);
        let ghost body = look.ahead(I::remaining(bytes));
        let mut items: Vec<BenObject> = Vec::new();
        proof {
            assert(list_view(items@) =~= Seq::<BenValue>::empty());
        }
        loop
            invariant
                well_behaved(bytes),
                look.fits(I::remaining(bytes)),
                body == old(look).ahead(I::remaining(old(bytes))).skip(1),
                old(look).ahead(I::remaining(old(bytes))).len() > 0,
                list_body_rule(body, Seq::empty()) == list_body_rule(
                    look.ahead(I::remaining(bytes)),
                    list_view(items@),
                ),
                look.budget(I::decrease(bytes)) < old(look).budget(I::decrease(old(bytes))),
            ensures
                starts_with(look.ahead(I::remaining(bytes)), END),
            decreases look.budget(I::decrease(bytes)),
        {
            if peek(bytes, look) == Some(END) {
                break ;
            }
            let ghost unread = look.ahead(I::remaining(bytes));
            let ghost read = list_view(items@);
            match Self::decode_benobject(bytes, look) {
                Ok(item) => {
                    proof {
                        lemma_object_rule_consumes(unread);
                        assert(list_view(items@.push(item)) =~= read.push(item@));
                    }
                    items.push(item);
                },
                Err(e) => {
                    return Err(e);
                },
            }
        }
        if Self::skip_if_match(bytes, look, END) {
            Ok(BenObject::L(items))
        } else {
            Err(DecodeError::MalformedList)
        }
    }

    /// Carries out the dictionary rule. The next byte must be `d`.
    fn decode_bendict<I: Iterator<Item = u8>>(bytes: &mut I, look: &mut Lookahead) -> (result: Result<
        BenObject,
        DecodeError,
    >)
        requires
            well_behaved(old(bytes)),
            old(look).fits(I::remaining(old(bytes))),
            starts_with(old(look).ahead(I::remaining(old(bytes))), DICT_START),
        ensures
            well_behaved(final(bytes)),
            final(look).fits(I::remaining(final(bytes))),
            agrees(result, dict_rule(old(look).ahead(I::remaining(old(bytes)))).outcome),
            final(look).left_by(
                dict_rule(old(look).ahead(I::remaining(old(bytes)))),
                final(look).ahead(I::remaining(final(bytes))),
            ),
            final(look).budget(I::decrease(final(bytes))) < old(look).budget(
                I::decrease(old(bytes)),
            ),
        decreases old(look).budget(I::decrease(old(bytes))), 0nat,
    {
        let _ = next_byte(bytes, look);
        let ghost body = look.ahead(I::remaining(bytes));
        let mut entries = BenDict::new();
        loop
            invariant
                well_behaved(bytes),
                look.fits(I::remaining(bytes)),
                body == old(look).ahead(I::remaining(old(bytes))).skip(1),
                old(look).ahead(I::remaining(old(bytes))).len() > 0,
                dict_body_rule(body, Map::empty()) == dict_body_rule(
                    look.ahead(I::remaining(bytes)),
                    entries@,
                ),
                look.budget(I::decrease(bytes)) < old(look).budget(I::decrease(old(bytes))),
            ensures
                starts_with(look.ahead(I::remaining(bytes)), END),
            decreases look.budget(I::decrease(bytes)),
        {
            if peek(bytes, look) == Some(END) {
                break ;
            }
            let ghost unread = look.ahead(I::remaining(bytes));
            let key = match Self::decode_benobject(bytes, look) {
                Ok(BenObject::S(key)) => key,
                Ok(_) => {
                    return Err(DecodeError::InvalidDictKey);
                },
                Err(e) => {
                    return Err(e);
                },
            };
            let ghost after_key = look.ahead(I::remaining(bytes));
            proof {
                lemma_object_rule_consumes(unread);
            }
            let value = match Self::decode_benobject(bytes, look) {
                Ok(value) => value,
                Err(e) => {
                    return Err(e);
                },
            };
            proof {
                lemma_object_rule_consumes(after_key);
            }
            entries.insert(key, value);
        }
        if Self::skip_if_match(bytes, look, END) {
            Ok(BenObject::D(entries))
        } else {
            Err(DecodeError::MalformedDict)
        }
    }

    /// Reads one object from `bytes`.
    ///
    /// The result is what the rule for one object makes of the bytes that
    /// `bytes` had still to give: the object that they begin with, or the
    /// first error. After an object has been read, `bytes` stands right
    /// behind it, so that whatever follows can still be read. After an
    /// error it stands where the error was found, one byte further if the
    /// error was found by looking at that byte.
    ///
    /// `bytes` must give finitely many bytes and then go on saying that it
    /// is exhausted.
    pub fn decode<I: Iterator<Item = u8>>(bytes: &mut I) -> (result: Result<BenObject, DecodeError>)
        requires
            well_behaved(old(bytes)),
        ensures
            well_behaved(final(bytes)),
            agrees(result, object_rule(I::remaining(old(bytes))).outcome),
            I::remaining(final(bytes)) == left_in_source(object_rule(I::remaining(old(bytes)))),
    {
        let mut look = Lookahead::Unknown;
        let result = Self::decode_benobject(bytes, &mut look);
        proof {
            if let Lookahead::Byte(b) = look {
                assert((seq![b] + I::remaining(bytes)).skip(1) =~= I::remaining(bytes));
            }
        }
        result
    }
}

} // verus!
