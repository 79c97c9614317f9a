//! The error type of the storage engine.

use vstd::prelude::*;

use crate::text::push_hex_padded;

verus! {

/// What the standard library's input and output report.
#[verifier::external_type_specification]
#[verifier::external_body]
pub struct ExIoError(std::io::Error);

/// What went wrong in the storage engine.
#[derive(Debug)]
pub enum KvError {
    /// I/O error from the underlying filesystem.
    Io(std::io::Error),
    /// Data corruption detected (a truncated record, an offset out of range).
    Corruption(String),
    /// The requested key was not found.
    KeyNotFound(Vec<u8>),
    /// An invalid argument was passed to an API call.
    InvalidArgument(String),
    /// The database has been closed and is no longer accepting operations.
    Closed,
    /// A WAL record's CRC32 does not match the stored checksum.
    ChecksumMismatch { expected: u32, actual: u32 },
    /// An operation was attempted that violates internal invariants.
    Internal(String),
}

/// Type alias used throughout the engine.
pub type Result<T> = std::result::Result<T, KvError>;

impl From<std::io::Error> for KvError {
    fn from(err: std::io::Error) -> (r: Self)
    {
        KvError::Io(err)
    }
}

impl vstd::std_specs::convert::FromSpecImpl<std::io::Error> for KvError {
    open spec fn obeys_from_spec() -> bool {
        true
    }

    open spec fn from_spec(err: std::io::Error) -> KvError {
        KvError::Io(err)
    }
}

/// What `String::from_utf8_lossy` makes of the bytes.
pub uninterp spec fn utf8_lossy_of(bytes: Seq<u8>) -> Seq<char>;

/// What formatting a string with `{:?}` writes.
pub uninterp spec fn str_debug_of(text: Seq<char>) -> Seq<char>;

/// `String::from_utf8_lossy`: bytes that are UTF-8 come out as the text they
/// encode; of other bytes only that the text is determined by them.
#[verifier::external_body]
pub(crate) fn utf8_lossy(bytes: &[u8]) -> (r: String)
    ensures
        r@ == utf8_lossy_of(bytes@),
        vstd::utf8::valid_utf8(bytes@) ==> r@ == vstd::utf8::decode_utf8(bytes@),
{
    String::from_utf8_lossy(bytes).to_string()
}

/// The `Debug` form of a string: quoted, with the escapes that `str` has there.
#[verifier::external_body]
fn str_debug(text: &str) -> (r: String)
    ensures
        r@ == str_debug_of(text@),
{
    format!("{:?}", text)
}

/// The text that `std::io::Error` shows for itself. It may come from the
/// operating system, so nothing is claimed of it.
#[verifier::external_body]
fn io_error_text(err: &std::io::Error) -> (r: String) {
    err.to_string()
}

/// The message of an I/O error whose own text is `text`.
pub fn io_message(text: &str) -> (r: String)
    ensures
        r@ == "IO error: "@ + text@,
{
    let mut r = "IO error: ".to_string();
    r.append(text);
    r
}

/// The message for a key that was not found, where `quoted` shows the key.
pub fn key_message(quoted: &str) -> (r: String)
    ensures
        r@ == "key not found: "@ + quoted@,
{
    let mut r = "key not found: ".to_string();
    r.append(quoted);
    r
}

impl KvError {
    /// Whether `text` is the message of this error.
    pub open spec fn has_message(self, text: Seq<char>) -> bool {
        match self {
            KvError::Io(_) => "IO error: "@.is_prefix_of(text),
            KvError::Corruption(msg) => text == "data corruption: "@ + msg@,
            KvError::KeyNotFound(key) => text == "key not found: "@ + str_debug_of(
                utf8_lossy_of(key@),
            ),
            KvError::InvalidArgument(msg) => text == "invalid argument: "@ + msg@,
            KvError::Closed => text == "database is closed"@,
            KvError::ChecksumMismatch { expected, actual } => text
                == "checksum mismatch: expected 0x"@ + crate::text::hex_padded(expected as nat, 8)
                + ", got 0x"@ + crate::text::hex_padded(actual as nat, 8),
            KvError::Internal(msg) => text == "internal error: "@ + msg@,
        }
    }

    /// The message of this error, for people to read. That of an I/O error ends
    /// in the operating system's words.
    pub fn to_string(&self) -> (r: String)
        ensures
            self.has_message(r@),
    {
        match self {
            KvError::Io(err) => {
                let text = io_error_text(err);
                io_message(text.as_str())
            },
            KvError::Corruption(msg) => {
                let mut r = "data corruption: ".to_string();
                r.append(msg.as_str());
                r
            },
            KvError::KeyNotFound(key) => {
                let lossy = utf8_lossy(key.as_slice());
                let quoted = str_debug(lossy.as_str());
                key_message(quoted.as_str())
            },
            KvError::InvalidArgument(msg) => {
                let mut r = "invalid argument: ".to_string();
                r.append(msg.as_str());
                r
            },
            KvError::Closed => "database is closed".to_string(),
            KvError::ChecksumMismatch { expected, actual } => {
                let mut r = "checksum mismatch: expected 0x".to_string();
                push_hex_padded(&mut r, *expected as u64, 8);
                r.append(", got 0x");
                push_hex_padded(&mut r, *actual as u64, 8);
                r
            },
            KvError::Internal(msg) => {
                let mut r = "internal error: ".to_string();
                r.append(msg.as_str());
                r
            },
        }
    }

    /// The I/O error behind this one, if there is one.
    pub fn source(&self) -> (r: Option<&std::io::Error>)
        ensures
            match *self {
                KvError::Io(err) => r == Some(&err),
                _ => r is None,
            },
    {
        match self {
            KvError::Io(err) => Some(err),
            _ => None,
        }
    }
}

/// `e` is a corruption error with the given message.
pub open spec fn is_corruption(e: KvError, msg: Seq<char>) -> bool {
    e is Corruption && e->Corruption_0@ == msg
}

/// A corruption error that carries the given message.
pub(crate) fn corruption(msg: &str) -> (e: KvError)
    ensures
        is_corruption(e, msg@),
{
    KvError::Corruption(msg.to_string())
}

/// `e` is an invalid-argument error with the given message.
pub open spec fn is_invalid_argument(e: KvError, msg: Seq<char>) -> bool {
    e is InvalidArgument && e->InvalidArgument_0@ == msg
}

/// `e` is an internal error with the given message.
pub open spec fn is_internal(e: KvError, msg: Seq<char>) -> bool {
    e is Internal && e->Internal_0@ == msg
}

/// An internal error that carries the given message.
pub(crate) fn internal(msg: &str) -> (e: KvError)
    ensures
        is_internal(e, msg@),
{
    KvError::Internal(msg.to_string())
}

/// An invalid-argument error that carries the given message.
pub(crate) fn invalid_argument(msg: &str) -> (e: KvError)
    ensures
        is_invalid_argument(e, msg@),
{
    KvError::InvalidArgument(msg.to_string())
}

/// Errors carry their message in full.
pub proof fn errors_carry_their_message(e: KvError, msg: Seq<char>)
    ensures
        is_corruption(e, msg) <==> e is Corruption && e->Corruption_0@ == msg,
        is_invalid_argument(e, msg) <==> e is InvalidArgument && e->InvalidArgument_0@ == msg,
        is_internal(e, msg) <==> e is Internal && e->Internal_0@ == msg,
{
}

/// The text of an error is what kind it is of, followed by its message in full,
/// however long that is.
pub proof fn texts_keep_the_message(e: KvError, text: Seq<char>)
    requires
        e.has_message(text),
    ensures
        (e matches KvError::Io(_) ==> "IO error: "@.is_prefix_of(text)),
        (e matches KvError::Corruption(msg) ==> text == "data corruption: "@ + msg@),
        (e matches KvError::KeyNotFound(key) ==> text == "key not found: "@ + str_debug_of(
            utf8_lossy_of(key@),
        )),
        (e matches KvError::InvalidArgument(msg) ==> text == "invalid argument: "@ + msg@),
        (e matches KvError::Closed ==> text == "database is closed"@),
        (e matches KvError::ChecksumMismatch { expected, actual } ==> text
            == "checksum mismatch: expected 0x"@ + crate::text::hex_padded(expected as nat, 8)
            + ", got 0x"@ + crate::text::hex_padded(actual as nat, 8)),
        (e matches KvError::Internal(msg) ==> text == "internal error: "@ + msg@),
{
}

} // verus!
