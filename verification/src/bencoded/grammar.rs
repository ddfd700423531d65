//! The bencode grammar as mathematics: what a value encodes to, and what a
//! byte string parses to.
use vstd::prelude::*;
use super::encoding::Error;
use super::value::{BValue, dict_insert};

verus! {

/// The name under which input that matches no production is reported.
pub const GRAMMAR: &'static str = "bencode";

/// First byte of an integer: `i`.
pub const INT_PREFIX: u8 = 0x69;

/// First byte of a list: `l`.
pub const LIST_PREFIX: u8 = 0x6c;

/// First byte of a dictionary: `d`.
pub const DICTIONARY_PREFIX: u8 = 0x64;

/// The byte between a string's length and its contents: `:`.
pub const STRING_INFIX: u8 = 0x3a;

/// Last byte of an integer, a list and a dictionary: `e`.
pub const END_SUFFIX: u8 = 0x65;

/// The sign that a number may begin with: `+`.
pub const PLUS_SIGN: u8 = 0x2b;

/// An ASCII decimal digit.
pub open spec fn is_digit(b: u8) -> bool {
    0x30 <= b && b <= 0x39
}

/// Every byte is an ASCII decimal digit.
pub open spec fn all_digits(s: Seq<u8>) -> bool {
    forall|i: int| 0 <= i < s.len() ==> is_digit(#[trigger] s[i])
}

/// The number that a string of decimal digits denotes.
pub open spec fn digits_value(s: Seq<u8>) -> nat
    decreases s.len(),
{
    if s.len() == 0 {
        0
    } else {
        10 * digits_value(s.drop_last()) + (s.last() as int - 0x30) as nat
    }
}

/// The digits of a number field: the field itself, without one leading `+`.
pub open spec fn number_digits(s: Seq<u8>) -> Seq<u8> {
    if s.len() > 0 && s[0] == PLUS_SIGN {
        s.drop_first()
    } else {
        s
    }
}

/// A number field as an unsigned 64-bit integer: an optional `+`, then one
/// or more decimal digits, leading zeros allowed, whose value fits. Anything
/// else, a `-` included, is no number.
pub open spec fn parse_number(s: Seq<u8>) -> Option<u64> {
    let digits = number_digits(s);
    if digits.len() > 0 && all_digits(digits) && digits_value(digits) <= u64::MAX {
        Some(digits_value(digits) as u64)
    } else {
        None
    }
}

/// The decimal digits of a number, without leading zeros.
pub open spec fn decimal(n: nat) -> Seq<u8>
    decreases n,
{
    if n < 10 {
        seq![(0x30 + n) as u8]
    } else {
        decimal(n / 10).push((0x30 + n % 10) as u8)
    }
}

/// The index of the first `b` in `s`, or the length of `s` if there is none.
pub open spec fn find(s: Seq<u8>, b: u8) -> int
    decreases s.len(),
{
    if s.len() == 0 || s[0] == b {
        0
    } else {
        1 + find(s.drop_first(), b)
    }
}

/// The bytes of a byte string: its length in decimal, `:`, its contents.
pub open spec fn encode_bytes(s: Seq<u8>) -> Seq<u8> {
    decimal(s.len()) + seq![STRING_INFIX] + s
}

/// The bytes of an integer: `i`, its decimal digits, `e`.
pub open spec fn encode_int(n: u64) -> Seq<u8> {
    seq![INT_PREFIX] + decimal(n as nat) + seq![END_SUFFIX]
}

/// The bytes of a value. Dictionary entries are written in the order of the
/// model, which is ascending key order.
pub open spec fn encode_value(v: BValue) -> Seq<u8>
    decreases v, 0nat,
{
    match v {
        BValue::Integer(n) => encode_int(n),
        BValue::ByteString(s) => encode_bytes(s),
        BValue::List(l) => seq![LIST_PREFIX] + encode_items(l) + seq![END_SUFFIX],
        BValue::Dictionary(d) => seq![DICTIONARY_PREFIX] + encode_pairs(d) + seq![END_SUFFIX],
    }
}

/// The bytes of the items of a list, one after the other.
pub open spec fn encode_items(l: Seq<BValue>) -> Seq<u8>
    decreases l, l.len(),
{
    if l.len() == 0 {
        Seq::empty()
    } else {
        encode_value(l[0]) + encode_items(l.drop_first())
    }
}

/// The bytes of the entries of a dictionary: each key as a byte string, then its value.
pub open spec fn encode_pairs(d: Seq<(Seq<u8>, BValue)>) -> Seq<u8>
    decreases d, d.len(),
{
    if d.len() == 0 {
        Seq::empty()
    } else {
        encode_bytes(d[0].0) + encode_value(d[0].1) + encode_pairs(d.drop_first())
    }
}

/// An integer at the start of `input`, and what follows it.
pub open spec fn parse_int(input: Seq<u8>) -> Result<(u64, Seq<u8>), Error> {
    if input.len() == 0 || input[0] != INT_PREFIX {
        Err(Error::InvalidFormat(GRAMMAR))
    } else {
        let body = input.drop_first();
        let k = find(body, END_SUFFIX);
        match parse_number(body.take(k)) {
            None => Err(Error::InvalidValue),
            Some(n) => if k == body.len() {
                Err(Error::UnexpectedEOF)
            } else {
                Ok((n, body.skip(k + 1)))
            },
        }
    }
}

/// A byte string at the start of `input`, and what follows it.
pub open spec fn parse_bytes(input: Seq<u8>) -> Result<(Seq<u8>, Seq<u8>), Error> {
    let k = find(input, STRING_INFIX);
    match parse_number(input.take(k)) {
        None => Err(Error::InvalidValue),
        Some(n) => if k == input.len() || input.len() - (k + 1) < n {
            Err(Error::UnexpectedEOF)
        } else {
            Ok((input.subrange(k + 1, k + 1 + n), input.skip(k + 1 + n)))
        },
    }
}

/// A value at the start of `input`, and what follows it.
pub open spec fn parse_value(input: Seq<u8>) -> Result<(BValue, Seq<u8>), Error>
    decreases input.len(), 0nat,
{
    if input.len() == 0 {
        Err(Error::InvalidFormat(GRAMMAR))
    } else if input[0] == INT_PREFIX {
        match parse_int(input) {
            Ok((n, rest)) => Ok((BValue::Integer(n), rest)),
            Err(e) => Err(e),
        }
    } else if input[0] == LIST_PREFIX {
        match parse_items(input.drop_first()) {
            Ok((l, rest)) => Ok((BValue::List(l), rest)),
            Err(e) => Err(e),
        }
    } else if input[0] == DICTIONARY_PREFIX {
        match parse_pairs(input.drop_first()) {
            Ok((d, rest)) => Ok((BValue::Dictionary(from_pairs(d)), rest)),
            Err(e) => Err(e),
        }
    } else if is_digit(input[0]) {
        match parse_bytes(input) {
            Ok((s, rest)) => Ok((BValue::ByteString(s), rest)),
            Err(e) => Err(e),
        }
    } else {
        Err(Error::InvalidFormat(GRAMMAR))
    }
}

/// The items of a list up to its `e`, and what follows that `e`.
pub open spec fn parse_items(input: Seq<u8>) -> Result<(Seq<BValue>, Seq<u8>), Error>
    decreases input.len(), 1nat,
{
    if input.len() == 0 {
        Err(Error::UnexpectedEOF)
    } else if input[0] == END_SUFFIX {
        Ok((Seq::empty(), input.drop_first()))
    } else {
        match parse_value(input) {
            Err(e) => Err(e),
            Ok((v, rest)) => if rest.len() < input.len() {
                match parse_items(rest) {
                    Err(e) => Err(e),
                    Ok((l, after)) => Ok((seq![v] + l, after)),
                }
            } else {
                Err(Error::InvalidFormat(GRAMMAR))
            },
        }
    }
}

/// The entries of a dictionary as they are written, up to its `e`, and what
/// follows that `e`. Each key is a byte string.
pub open spec fn parse_pairs(input: Seq<u8>) -> Result<
    (Seq<(Seq<u8>, BValue)>, Seq<u8>),
    Error,
>
    decreases input.len(), 1nat,
{
    if input.len() == 0 {
        Err(Error::UnexpectedEOF)
    } else if input[0] == END_SUFFIX {
        Ok((Seq::empty(), input.drop_first()))
    } else {
        match parse_bytes(input) {
            Err(e) => Err(e),
            Ok((k, rest)) => if rest.len() < input.len() {
                match parse_value(rest) {
                    Err(e) => Err(e),
                    Ok((v, rest2)) => if rest2.len() < rest.len() {
                        match parse_pairs(rest2) {
                            Err(e) => Err(e),
                            Ok((d, after)) => Ok((seq![(k, v)] + d, after)),
                        }
                    } else {
                        Err(Error::InvalidFormat(GRAMMAR))
                    },
                }
            } else {
                Err(Error::InvalidFormat(GRAMMAR))
            },
        }
    }
}

/// A list at the start of `input`, and what follows it.
pub open spec fn parse_list(input: Seq<u8>) -> Result<(Seq<BValue>, Seq<u8>), Error> {
    if input.len() == 0 || input[0] != LIST_PREFIX {
        Err(Error::InvalidFormat(GRAMMAR))
    } else {
        parse_items(input.drop_first())
    }
}

/// A dictionary at the start of `input`, and what follows it.
pub open spec fn parse_dictionary(input: Seq<u8>) -> Result<
    (Seq<(Seq<u8>, BValue)>, Seq<u8>),
    Error,
> {
    if input.len() == 0 || input[0] != DICTIONARY_PREFIX {
        Err(Error::InvalidFormat(GRAMMAR))
    } else {
        match parse_pairs(input.drop_first()) {
            Ok((d, rest)) => Ok((from_pairs(d), rest)),
            Err(e) => Err(e),
        }
    }
}

/// The dictionary that written entries make: each is bound in turn, so of
/// two entries with one key the later stays.
pub open spec fn from_pairs(d: Seq<(Seq<u8>, BValue)>) -> Seq<(Seq<u8>, BValue)>
    decreases d.len(),
{
    if d.len() == 0 {
        Seq::empty()
    } else {
        dict_insert(from_pairs(d.drop_last()), d.last().0, d.last().1)
    }
}

} // verus!
