//! Keys, values and sequence numbers.

use vstd::prelude::*;

use crate::bytes::copy_bytes;
use crate::text::push_decimal;

verus! {

/// A key in the key-value store, wrapping raw bytes.
#[derive(Debug, Clone, PartialEq, Eq, PartialOrd, Ord, Hash)]
pub struct Key(pub Vec<u8>);

/// A value in the key-value store, wrapping raw bytes.
#[derive(Debug, Clone, PartialEq, Eq)]
pub struct Value(pub Vec<u8>);

/// Monotonically increasing sequence number for MVCC ordering.
///
/// Each write operation is assigned a unique sequence number so that reads can
/// see a consistent snapshot in time.
#[derive(Debug, Clone, Copy, PartialEq, Eq, PartialOrd, Ord, Hash)]
pub struct SequenceNumber(pub u64);

impl SequenceNumber {
    /// The smallest sequence number.
    pub fn min_value() -> (r: Self)
        ensures
            r.0 == 0,
    {
        SequenceNumber(0)
    }

    /// The largest sequence number.
    pub fn max_value() -> (r: Self)
        ensures
            r.0 == u64::MAX,
    {
        SequenceNumber(u64::MAX)
    }

    /// The next sequence number. The largest has none.
    pub fn next(self) -> (r: Self)
        requires
            self.0 < u64::MAX,
        ensures
            r.0 == self.0 + 1,
    {
        SequenceNumber(self.0 + 1)
    }

    /// The number in the form `seq:7`.
    pub fn to_string(&self) -> (r: String)
        ensures
            r@ == "seq:"@ + crate::text::decimal(self.0 as nat),
    {
        let mut r = "seq:".to_string();
        push_decimal(&mut r, self.0);
        r
    }
}

impl From<Vec<u8>> for Key {
    fn from(v: Vec<u8>) -> (r: Self) {
        Key(v)
    }
}

impl vstd::std_specs::convert::FromSpecImpl<Vec<u8>> for Key {
    open spec fn obeys_from_spec() -> bool {
        true
    }

    open spec fn from_spec(v: Vec<u8>) -> Key {
        Key(v)
    }
}

impl From<&[u8]> for Key {
    fn from(s: &[u8]) -> (r: Self)
        ensures
            r.0@ == s@,
    {
        Key(copy_bytes(s))
    }
}

impl vstd::std_specs::convert::FromSpecImpl<&[u8]> for Key {
    open spec fn obeys_from_spec() -> bool {
        false
    }

    open spec fn from_spec(s: &[u8]) -> Key {
        arbitrary()
    }
}

impl AsRef<[u8]> for Key {
    fn as_ref(&self) -> (r: &[u8])
        ensures
            r@ == self.0@,
    {
        self.0.as_slice()
    }
}

impl From<Vec<u8>> for Value {
    fn from(v: Vec<u8>) -> (r: Self) {
        Value(v)
    }
}

impl vstd::std_specs::convert::FromSpecImpl<Vec<u8>> for Value {
    open spec fn obeys_from_spec() -> bool {
        true
    }

    open spec fn from_spec(v: Vec<u8>) -> Value {
        Value(v)
    }
}

impl From<&[u8]> for Value {
    fn from(s: &[u8]) -> (r: Self)
        ensures
            r.0@ == s@,
    {
        Value(copy_bytes(s))
    }
}

impl vstd::std_specs::convert::FromSpecImpl<&[u8]> for Value {
    open spec fn obeys_from_spec() -> bool {
        false
    }

    open spec fn from_spec(s: &[u8]) -> Value {
        arbitrary()
    }
}

impl AsRef<[u8]> for Value {
    fn as_ref(&self) -> (r: &[u8])
        ensures
            r@ == self.0@,
    {
        self.0.as_slice()
    }
}

impl From<u64> for SequenceNumber {
    fn from(v: u64) -> (r: Self) {
        SequenceNumber(v)
    }
}

impl vstd::std_specs::convert::FromSpecImpl<u64> for SequenceNumber {
    open spec fn obeys_from_spec() -> bool {
        true
    }

    open spec fn from_spec(v: u64) -> SequenceNumber {
        SequenceNumber(v)
    }
}

} // verus!
