//! What holds of the rules of the format, for every input.

use crate::bytestring::ByteString;
use crate::dict::BenDict;
use crate::error::DecodeError;
use crate::grammar::{
    dict_body_rule, digits_rule, integer_rule, is_digit, list_body_rule, object_rule, starts_with,
    string_rule, COLON, DICT_START, END, INT_START, LIST_START, MINUS, ZERO,
};
use crate::object::BenObject;
use crate::value::BenValue;
use vstd::prelude::*;

verus! {

/// Reading digits leaves a tail of the input that does not begin with a
/// digit, and never makes the number smaller.
pub proof fn lemma_digits_rule_tail(s: Seq<u8>, acc: nat)
    ensures
        is_tail_of(digits_rule(s, acc).1, s),
        digits_rule(s, acc).1.len() > 0 ==> !is_digit(digits_rule(s, acc).1[0]),
        digits_rule(s, acc).0 >= acc,
    decreases s.len(),
{
    if s.len() > 0 && is_digit(s[0]) {
        let next = acc * 10 + (s[0] - ZERO) as nat;
        lemma_digits_rule_tail(s.skip(1), next);
        lemma_skip_is_tail(s, 1);
        lemma_tail_of_tail(digits_rule(s, acc).1, s.skip(1), s);
    } else {
        assert(s.skip(0) =~= s);
    }
}

/// Whether `e` says that a list or a dictionary lacks its closing `e`.
pub open spec fn reports_missing_end(e: DecodeError) -> bool {
    e == DecodeError::MalformedList || e == DecodeError::MalformedDict
}

/// Whether `rest` is what is left of `s` once some bytes have been taken
/// from its front.
pub open spec fn is_tail_of(rest: Seq<u8>, s: Seq<u8>) -> bool {
    rest.len() <= s.len() && rest == s.skip(s.len() - rest.len())
}

/// The object rule reads from the front: what it leaves is a tail of its
/// input, shorter than the input where an object was read. And no input
/// makes it report that a list or a dictionary lacks its closing `e`: where
/// the `e` is missing, the rule goes on to read one more object, and it is
/// that object's error that is reported (at the end of the input, that no
/// object was found).
pub proof fn lemma_object_rule_consumes(s: Seq<u8>)
    ensures
        is_tail_of(object_rule(s).rest, s),
        object_rule(s).outcome is Ok ==> object_rule(s).rest.len() < s.len(),
        object_rule(s).outcome matches Err(e) ==> !reports_missing_end(e),
    decreases s.len(), 1nat,
{
    assert(is_tail_of(s, s)) by {
        assert(s.skip(0) =~= s);
    }
    if s.len() == 0 {
    } else if s[0] == DICT_START {
        lemma_skip_is_tail(s, 1);
        lemma_dict_body_rule_consumes(s.skip(1), Map::empty());
        lemma_tail_of_tail(dict_body_rule(s.skip(1), Map::empty()).rest, s.skip(1), s);
    } else if s[0] == INT_START {
        let after_start = s.skip(1);
        let digits = if starts_with(after_start, MINUS) {
            after_start.skip(1)
        } else {
            after_start
        };
        let tail = digits_rule(digits, 0).1;
        lemma_skip_is_tail(s, 1);
        if starts_with(after_start, MINUS) {
            lemma_skip_is_tail(after_start, 1);
            lemma_tail_of_tail(digits, after_start, s);
        }
        lemma_digits_rule_tail(digits, 0);
        lemma_tail_of_tail(tail, digits, s);
        if starts_with(tail, END) {
            lemma_skip_is_tail(tail, 1);
            lemma_tail_of_tail(tail.skip(1), tail, s);
        }
    } else if s[0] == LIST_START {
        lemma_skip_is_tail(s, 1);
        lemma_list_body_rule_consumes(s.skip(1), Seq::empty());
        lemma_tail_of_tail(list_body_rule(s.skip(1), Seq::empty()).rest, s.skip(1), s);
    } else if is_digit(s[0]) {
        let (length, tail) = digits_rule(s, 0);
        lemma_digits_rule_tail(s, 0);
        if starts_with(tail, COLON) {
            let body = tail.skip(1);
            lemma_skip_is_tail(tail, 1);
            lemma_tail_of_tail(body, tail, s);
            if length <= body.len() {
                lemma_skip_is_tail(body, length as int);
                lemma_tail_of_tail(body.skip(length as int), body, s);
            } else {
                lemma_skip_is_tail(s, s.len() as int);
                assert(s.skip(s.len() as int) =~= Seq::<u8>::empty());
            }
        }
    }
}

/// What is left behind the first `k` bytes is a tail.
proof fn lemma_skip_is_tail(s: Seq<u8>, k: int)
    requires
        0 <= k <= s.len(),
    ensures
        is_tail_of(s.skip(k), s),
{
    assert(s.skip(s.len() - s.skip(k).len()) =~= s.skip(k));
}

/// A tail of a tail is a tail.
proof fn lemma_tail_of_tail(inner: Seq<u8>, middle: Seq<u8>, outer: Seq<u8>)
    requires
        is_tail_of(inner, middle),
        is_tail_of(middle, outer),
    ensures
        is_tail_of(inner, outer),
{
    assert(outer.skip(outer.len() - middle.len()).skip(middle.len() - inner.len()) =~= outer.skip(
        outer.len() - inner.len(),
    ));
}

/// The same of the body of a list, which takes at least its closing `e`.
pub proof fn lemma_list_body_rule_consumes(s: Seq<u8>, acc: Seq<BenValue>)
    ensures
        is_tail_of(list_body_rule(s, acc).rest, s),
        list_body_rule(s, acc).outcome is Ok ==> list_body_rule(s, acc).rest.len() < s.len(),
        list_body_rule(s, acc).outcome matches Err(e) ==> !reports_missing_end(e),
    decreases s.len(), 2nat,
{
    if !starts_with(s, END) {
        lemma_object_rule_consumes(s);
        let item = object_rule(s);
        if let Ok(value) = item.outcome {
            lemma_list_body_rule_consumes(item.rest, acc.push(value));
            lemma_tail_of_tail(list_body_rule(item.rest, acc.push(value)).rest, item.rest, s);
        }
    }
}

/// The same of the body of a dictionary.
pub proof fn lemma_dict_body_rule_consumes(s: Seq<u8>, acc: Map<Seq<u8>, BenValue>)
    ensures
        is_tail_of(dict_body_rule(s, acc).rest, s),
        dict_body_rule(s, acc).outcome is Ok ==> dict_body_rule(s, acc).rest.len() < s.len(),
        dict_body_rule(s, acc).outcome matches Err(e) ==> !reports_missing_end(e),
    decreases s.len(), 2nat,
{
    if !starts_with(s, END) {
        lemma_object_rule_consumes(s);
        let key = object_rule(s);
        if let Ok(BenValue::Bytes(name)) = key.outcome {
            lemma_object_rule_consumes(key.rest);
            let value = object_rule(key.rest);
            lemma_tail_of_tail(value.rest, key.rest, s);
            if let Ok(v) = value.outcome {
                lemma_dict_body_rule_consumes(value.rest, acc.insert(name, v));
                lemma_tail_of_tail(
                    dict_body_rule(value.rest, acc.insert(name, v)).rest,
                    value.rest,
                    s,
                );
            }
        }
    }
}

/// The decimal digits of `n`, the most significant first, without leading
/// zeros: `0` for zero.
pub open spec fn decimal(n: nat) -> Seq<u8>
    decreases n,
{
    if n < 10 {
        seq![(ZERO + n) as u8]
    } else {
        decimal(n / 10).push((ZERO + n % 10) as u8)
    }
}

/// How the integer `n` is written in the format: `i`, the decimal digits of
/// `n` behind a `-` if `n` is negative, `e`.
pub open spec fn encoded_integer(n: int) -> Seq<u8> {
    if n < 0 {
        seq![INT_START, MINUS] + decimal((-n) as nat) + seq![END]
    } else {
        seq![INT_START] + decimal(n as nat) + seq![END]
    }
}

/// How the byte string `bytes` is written in the format: its length in
/// decimal digits, `:`, the bytes themselves.
pub open spec fn encoded_string(bytes: Seq<u8>) -> Seq<u8> {
    decimal(bytes.len()) + seq![COLON] + bytes
}

/// Whether every byte of `s` is a digit.
pub open spec fn all_digits(s: Seq<u8>) -> bool {
    forall|i: int| 0 <= i < s.len() ==> is_digit(#[trigger] s[i])
}

/// Digits at the front of the input are read as they are read alone, and
/// reading goes on behind them with the number that they gave.
pub proof fn lemma_digits_rule_prefix(digits: Seq<u8>, behind: Seq<u8>, acc: nat)
    requires
        all_digits(digits),
    ensures
        digits_rule(digits + behind, acc) == digits_rule(behind, digits_rule(digits, acc).0),
    decreases digits.len(),
{
    if digits.len() == 0 {
        assert(digits + behind =~= behind);
    } else {
        let next = acc * 10 + (digits[0] - ZERO) as nat;
        assert((digits + behind)[0] == digits[0]);
        assert((digits + behind).skip(1) =~= digits.skip(1) + behind);
        assert(all_digits(digits.skip(1))) by {
            assert forall|i: int| 0 <= i < digits.skip(1).len() implies is_digit(
                #[trigger] digits.skip(1)[i],
            ) by {
                assert(digits.skip(1)[i] == digits[i + 1]);
            }
        }
        lemma_digits_rule_prefix(digits.skip(1), behind, next);
    }
}

/// The decimal digits of `n` are digits, at least one of them, and read
/// back as `n`.
pub proof fn lemma_decimal_reads_back(n: nat)
    ensures
        decimal(n).len() > 0,
        all_digits(decimal(n)),
        digits_rule(decimal(n), 0).0 == n,
    decreases n,
{
    if n < 10 {
        let only = decimal(n);
        assert(only[0] == ZERO + n);
        assert(only.skip(1) =~= Seq::<u8>::empty());
        assert(digits_rule(only.skip(1), n) == (n, only.skip(1)));
    } else {
        let front = decimal(n / 10);
        let last = (ZERO + n % 10) as u8;
        lemma_decimal_reads_back(n / 10);
        assert(decimal(n) =~= front + seq![last]);
        lemma_digits_rule_prefix(front, seq![last], 0);
        assert(seq![last].skip(1) =~= Seq::<u8>::empty());
        assert(digits_rule(seq![last].skip(1), (n / 10) * 10 + n % 10) == (
            (n / 10) * 10 + n % 10,
            seq![last].skip(1),
        ));
        assert(digits_rule(seq![last], n / 10).0 == n);
    }
}

/// The decimal digits of `n`, in front of bytes that do not begin with a
/// digit, are read as `n`, and those bytes are left.
pub proof fn lemma_digits_rule_decimal(n: nat, behind: Seq<u8>)
    requires
        behind.len() > 0 ==> !is_digit(behind[0]),
    ensures
        digits_rule(decimal(n) + behind, 0) == (n, behind),
{
    lemma_decimal_reads_back(n);
    lemma_digits_rule_prefix(decimal(n), behind, 0);
}

/// Every integer of the 64-bit signed range, written in the format, is read
/// back as that integer, and what stands behind it is left unread.
pub proof fn lemma_encoded_integer_decodes(n: int, behind: Seq<u8>)
    requires
        i64::MIN <= n <= i64::MAX,
    ensures
        object_rule(encoded_integer(n) + behind).outcome == Ok::<BenValue, DecodeError>(
            BenValue::Integer(n),
        ),
        object_rule(encoded_integer(n) + behind).rest == behind,
{
    let s = encoded_integer(n) + behind;
    let magnitude: nat = if n < 0 {
        (-n) as nat
    } else {
        n as nat
    };
    let tail = seq![END] + behind;
    lemma_decimal_reads_back(magnitude);
    lemma_digits_rule_decimal(magnitude, tail);
    assert(tail.skip(1) =~= behind);
    assert(s[0] == INT_START);
    if n < 0 {
        assert(s.skip(1) =~= seq![MINUS] + decimal(magnitude) + tail);
        assert(s.skip(1).skip(1) =~= decimal(magnitude) + tail);
    } else {
        assert(s.skip(1) =~= decimal(magnitude) + tail);
        assert(s.skip(1)[0] == decimal(magnitude)[0]);
    }
    assert(object_rule(s) == integer_rule(s));
}

/// Every byte string, written in the format, is read back as the very same
/// bytes, whatever they are, and what stands behind it is left unread.
pub proof fn lemma_encoded_string_decodes(bytes: Seq<u8>, behind: Seq<u8>)
    ensures
        object_rule(encoded_string(bytes) + behind).outcome == Ok::<BenValue, DecodeError>(
            BenValue::Bytes(bytes),
        ),
        object_rule(encoded_string(bytes) + behind).rest == behind,
{
    let s = encoded_string(bytes) + behind;
    let tail = seq![COLON] + bytes + behind;
    lemma_decimal_reads_back(bytes.len());
    lemma_digits_rule_decimal(bytes.len(), tail);
    assert(s =~= decimal(bytes.len()) + tail);
    assert(s[0] == decimal(bytes.len())[0]);
    assert(tail.skip(1) =~= bytes + behind);
    assert((bytes + behind).take(bytes.len() as int) =~= bytes);
    assert((bytes + behind).skip(bytes.len() as int) =~= behind);
    assert(object_rule(s) == string_rule(s));
}

/// Asking an object twice whether it is an integer gives the same answer
/// twice: the answer depends on the object alone, and asking changes
/// nothing.
pub proof fn lemma_as_int_repeats(object: BenObject, first: Option<i64>, second: Option<i64>)
    requires
        call_ensures(BenObject::as_int, (&object,), first),
        call_ensures(BenObject::as_int, (&object,), second),
    ensures
        first == second,
{
}

/// Asking an object twice whether it is a byte string gives the same answer
/// twice.
pub proof fn lemma_as_str_repeats(
    object: BenObject,
    first: Option<&ByteString>,
    second: Option<&ByteString>,
)
    requires
        call_ensures(BenObject::as_str, (&object,), first),
        call_ensures(BenObject::as_str, (&object,), second),
    ensures
        first == second,
{
}

/// Asking an object twice whether it is a list gives the same answer twice.
pub proof fn lemma_as_list_repeats(
    object: BenObject,
    first: Option<&Vec<BenObject>>,
    second: Option<&Vec<BenObject>>,
)
    requires
        call_ensures(BenObject::as_list, (&object,), first),
        call_ensures(BenObject::as_list, (&object,), second),
    ensures
        first == second,
{
}

/// Asking an object twice whether it is a dictionary gives the same answer
/// twice.
pub proof fn lemma_as_dict_repeats(
    object: BenObject,
    first: Option<&BenDict>,
    second: Option<&BenDict>,
)
    requires
        call_ensures(BenObject::as_dict, (&object,), first),
        call_ensures(BenObject::as_dict, (&object,), second),
    ensures
        first == second,
{
}

} // verus!
