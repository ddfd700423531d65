//! Typed extraction: from a value to the native type of its shape.
use vstd::prelude::*;
use vstd::utf8::{encode_utf8, valid_utf8};
use super::encoding::{list_view, BDictionary, BList, Entry};
use super::value::BValue;
use super::{BInt, BString};

verus! {

/// A native type that a value of the right shape converts to.
pub trait FromEntry: Sized {
    /// Whether a value has the shape that the type takes.
    spec fn accepts(v: BValue) -> bool;

    /// The value that was converted.
    spec fn extracted(&self) -> BValue;

    /// Converts `entry`, or gives it back where its shape does not match.
    fn from_entry(entry: Entry) -> (r: Result<Self, Entry>)
        ensures
            match r {
                Ok(t) => Self::accepts(entry@) && t.extracted() == entry@,
                Err(e) => !Self::accepts(entry@) && e@ == entry@,
            },
    ;
}

/// `String::from_utf8` of std, with `FromUtf8Error::into_bytes` on failure:
/// bytes that are valid UTF-8 become the text that they encode, and any
/// others are handed back as they were.
#[verifier::external_body]
fn string_from_utf8(bytes: Vec<u8>) -> (r: Result<String, Vec<u8>>)
    ensures
        match r {
            Ok(s) => valid_utf8(bytes@) && encode_utf8(s@) == bytes@,
            Err(b) => !valid_utf8(bytes@) && b@ == bytes@,
        },
{
    match String::from_utf8(bytes) {
        Ok(s) => Ok(s),
        Err(e) => Err(e.into_bytes()),
    }
}

impl FromEntry for BInt {
    open spec fn accepts(v: BValue) -> bool {
        v is Integer
    }

    open spec fn extracted(&self) -> BValue {
        BValue::Integer(*self)
    }

    fn from_entry(entry: Entry) -> (r: Result<Self, Entry>) {
        match entry {
            Entry::Integer(n) => Ok(n),
            other => Err(other),
        }
    }
}

impl FromEntry for BString {
    open spec fn accepts(v: BValue) -> bool {
        v is ByteString
    }

    open spec fn extracted(&self) -> BValue {
        BValue::ByteString(self@)
    }

    fn from_entry(entry: Entry) -> (r: Result<Self, Entry>) {
        match entry {
            Entry::String(s) => Ok(s),
            other => Err(other),
        }
    }
}

impl FromEntry for BList {
    open spec fn accepts(v: BValue) -> bool {
        v is List
    }

    open spec fn extracted(&self) -> BValue {
        BValue::List(list_view(self@))
    }

    fn from_entry(entry: Entry) -> (r: Result<Self, Entry>) {
        match entry {
            Entry::List(l) => Ok(l),
            other => Err(other),
        }
    }
}

impl FromEntry for BDictionary {
    open spec fn accepts(v: BValue) -> bool {
        v is Dictionary
    }

    open spec fn extracted(&self) -> BValue {
        BValue::Dictionary(self@)
    }

    fn from_entry(entry: Entry) -> (r: Result<Self, Entry>) {
        match entry {
            Entry::Dictionary(d) => Ok(d),
            other => Err(other),
        }
    }
}

impl FromEntry for String {
    open spec fn accepts(v: BValue) -> bool {
        v matches BValue::ByteString(s) && valid_utf8(s)
    }

    open spec fn extracted(&self) -> BValue {
        BValue::ByteString(encode_utf8(self@))
    }

    fn from_entry(entry: Entry) -> (r: Result<Self, Entry>) {
        match entry {
            Entry::String(s) => match string_from_utf8(s.0) {
                Ok(text) => Ok(text),
                Err(bytes) => Err(Entry::String(BString(bytes))),
            },
            other => Err(other),
        }
    }
}

impl Entry {
    /// Converts the value to the native type of its shape, or fails with `err`.
    pub fn parse_or_err<T: FromEntry, E>(self, err: E) -> (r: Result<T, E>)
        ensures
            match r {
                Ok(t) => T::accepts(self@) && t.extracted() == self@,
                Err(e) => !T::accepts(self@) && e == err,
            },
    {
        match T::from_entry(self) {
            Ok(t) => Ok(t),
            Err(_) => Err(err),
        }
    }

    /// Converts the value to the native type of its shape, if it has that shape.
    pub fn parse<T: FromEntry>(self) -> (r: Option<T>)
        ensures
            match r {
                Some(t) => T::accepts(self@) && t.extracted() == self@,
                None => !T::accepts(self@),
            },
    {
        match T::from_entry(self) {
            Ok(t) => Some(t),
            Err(_) => None,
        }
    }
}

} // verus!
