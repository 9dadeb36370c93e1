//! The error type of the library.

use vstd::prelude::*;

verus! {

/// All errors that the library returns.
#[non_exhaustive]
#[derive(Debug, PartialEq, Eq)]
pub enum Error {
    /// Ring name must not be empty.
    RingNameEmpty,
    /// Ring name must not contain whitespace or NUL bytes.
    RingNameInvalidChars,
    /// The ring name is reserved by the implementation and cannot be used by callers.
    RingNameReserved(String),
    /// A ring with this name already exists.
    RingAlreadyExists(String),
    /// No ring with this name was found in the registry.
    RingNotFound(String),
    /// The resource id is longer than the protocol maximum.
    ResourceIdTooLong(usize),
    /// A status byte received on the wire was not recognised.
    UnknownStatusByte(u8),
    /// The operation byte received on the wire was not a recognised permission.
    UnknownOperationByte(u8),
    /// The open ring may only be associated with the `Read` permission.
    ///
    /// Granting `Write` or `Delete` to the open ring would allow any peer
    /// to modify or disassociate resources.
    OpenRingReadOnly,
    /// A ring–resource association was requested with an empty permission set.
    EmptyPermissionSet,
    /// The storage backend failed, or holds data that cannot be read back; says how.
    Storage(String),
}

/// What an [`Error`] says, with its texts as character sequences.
pub enum ErrorView {
    RingNameEmpty,
    RingNameInvalidChars,
    RingNameReserved(Seq<char>),
    RingAlreadyExists(Seq<char>),
    RingNotFound(Seq<char>),
    ResourceIdTooLong(int),
    UnknownStatusByte(u8),
    UnknownOperationByte(u8),
    OpenRingReadOnly,
    EmptyPermissionSet,
    Storage(Seq<char>),
}

impl View for Error {
    type V = ErrorView;

    open spec fn view(&self) -> ErrorView {
        match *self {
            Error::RingNameEmpty => ErrorView::RingNameEmpty,
            Error::RingNameInvalidChars => ErrorView::RingNameInvalidChars,
            Error::RingNameReserved(name) => ErrorView::RingNameReserved(name@),
            Error::RingAlreadyExists(name) => ErrorView::RingAlreadyExists(name@),
            Error::RingNotFound(name) => ErrorView::RingNotFound(name@),
            Error::ResourceIdTooLong(len) => ErrorView::ResourceIdTooLong(len as int),
            Error::UnknownStatusByte(byte) => ErrorView::UnknownStatusByte(byte),
            Error::UnknownOperationByte(byte) => ErrorView::UnknownOperationByte(byte),
            Error::OpenRingReadOnly => ErrorView::OpenRingReadOnly,
            Error::EmptyPermissionSet => ErrorView::EmptyPermissionSet,
            Error::Storage(message) => ErrorView::Storage(message@),
        }
    }
}

/// Whether a call failed because the storage backend did.
pub open spec fn storage_failed<T>(result: Result<T, Error>) -> bool {
    result matches Err(Error::Storage(_))
}

/// The character of a digit, decimal or hexadecimal.
pub open spec fn digit_text(digit: u8) -> Seq<char> {
    match digit {
        0 => "0"@,
        1 => "1"@,
        2 => "2"@,
        3 => "3"@,
        4 => "4"@,
        5 => "5"@,
        6 => "6"@,
        7 => "7"@,
        8 => "8"@,
        9 => "9"@,
        10 => "a"@,
        11 => "b"@,
        12 => "c"@,
        13 => "d"@,
        14 => "e"@,
        _ => "f"@,
    }
}

/// A number in decimal digits.
pub open spec fn decimal_text(n: nat) -> Seq<char>
    decreases n,
{
    if n < 10 {
        digit_text(n as u8)
    } else {
        decimal_text(n / 10) + digit_text((n % 10) as u8)
    }
}

/// A byte in hexadecimal digits, with its prefix.
pub open spec fn hex_text(byte: u8) -> Seq<char> {
    "0x"@ + digit_text((byte / 16) as u8) + digit_text((byte % 16) as u8)
}

/// What an error says, in words.
pub open spec fn message(error: ErrorView) -> Seq<char> {
    match error {
        ErrorView::RingNameEmpty => "ring name must not be empty"@,
        ErrorView::RingNameInvalidChars => "ring name must not contain whitespace or NUL bytes"@,
        ErrorView::RingNameReserved(name) => "'"@ + name + "' is a reserved ring name"@,
        ErrorView::RingAlreadyExists(name) => "ring '"@ + name + "' already exists"@,
        ErrorView::RingNotFound(name) => "ring '"@ + name + "' not found"@,
        ErrorView::ResourceIdTooLong(len) => "resource id length "@ + decimal_text(len as nat) + " exceeds maximum"@,
        ErrorView::UnknownStatusByte(byte) => "unexpected status byte: "@ + hex_text(byte),
        ErrorView::UnknownOperationByte(byte) => "unknown operation byte: "@ + hex_text(byte),
        ErrorView::OpenRingReadOnly => "the open ring may only be associated with Read permission"@,
        ErrorView::EmptyPermissionSet => "permission set must not be empty"@,
        ErrorView::Storage(text) => "storage error: "@ + text,
    }
}

/// The character of a digit.
fn digit_str(digit: u8) -> (text: &'static str)
    requires
        digit < 16,
    ensures
        text@ == digit_text(digit),
{
    match digit {
        0 => "0",
        1 => "1",
        2 => "2",
        3 => "3",
        4 => "4",
        5 => "5",
        6 => "6",
        7 => "7",
        8 => "8",
        9 => "9",
        10 => "a",
        11 => "b",
        12 => "c",
        13 => "d",
        14 => "e",
        _ => "f",
    }
}

/// A number in decimal digits.
fn decimal(n: usize) -> (text: String)
    ensures
        text@ == decimal_text(n as nat),
    decreases n,
{
    if n < 10 {
        digit_str(n as u8).to_string()
    } else {
        let mut text = decimal(n / 10);
        text.append(digit_str((n % 10) as u8));
        text
    }
}

/// A byte in hexadecimal digits, with its prefix.
fn hex(byte: u8) -> (text: String)
    ensures
        text@ == hex_text(byte),
{
    let mut text = "0x".to_string();
    text.append(digit_str(byte / 16));
    text.append(digit_str(byte % 16));
    text
}

/// Three texts, one after the other.
fn join(first: &str, second: &str, third: &str) -> (text: String)
    ensures
        text@ == first@ + second@ + third@,
{
    let mut text = first.to_string();
    text.append(second);
    text.append(third);
    text
}

impl Error {
    /// The message of the error, for display.
    pub fn to_string(&self) -> (text: String)
        ensures
            text@ == message(self@),
    {
        match self {
            Error::RingNameEmpty => "ring name must not be empty".to_string(),
            Error::RingNameInvalidChars => "ring name must not contain whitespace or NUL bytes".to_string(),
            Error::RingNameReserved(name) => join("'", name.as_str(), "' is a reserved ring name"),
            Error::RingAlreadyExists(name) => join("ring '", name.as_str(), "' already exists"),
            Error::RingNotFound(name) => join("ring '", name.as_str(), "' not found"),
            Error::ResourceIdTooLong(len) => {
                join("resource id length ", decimal(*len).as_str(), " exceeds maximum")
            },
            Error::UnknownStatusByte(byte) => {
                let mut text = "unexpected status byte: ".to_string();
                text.append(hex(*byte).as_str());
                text
            },
            Error::UnknownOperationByte(byte) => {
                let mut text = "unknown operation byte: ".to_string();
                text.append(hex(*byte).as_str());
                text
            },
            Error::OpenRingReadOnly => {
                "the open ring may only be associated with Read permission".to_string()
            },
            Error::EmptyPermissionSet => "permission set must not be empty".to_string(),
            Error::Storage(text) => {
                let mut message = "storage error: ".to_string();
                message.append(text.as_str());
                message
            },
        }
    }
}

/// Digits are single characters: `0` to `9`, and then `a` to `f`.
pub proof fn law_digits(digit: u8)
    requires
        digit < 16,
    ensures
        digit < 10 ==> digit_text(digit) == seq![(48 + digit) as char],
        digit >= 10 ==> digit_text(digit) == seq![(87 + digit) as char],
{
    reveal_strlit("0");
    reveal_strlit("1");
    reveal_strlit("2");
    reveal_strlit("3");
    reveal_strlit("4");
    reveal_strlit("5");
    reveal_strlit("6");
    reveal_strlit("7");
    reveal_strlit("8");
    reveal_strlit("9");
    reveal_strlit("a");
    reveal_strlit("b");
    reveal_strlit("c");
    reveal_strlit("d");
    reveal_strlit("e");
    reveal_strlit("f");
    assert('0' as int == 48 && '1' as int == 49 && '2' as int == 50 && '3' as int == 51 && '4' as int == 52);
    assert('5' as int == 53 && '6' as int == 54 && '7' as int == 55 && '8' as int == 56 && '9' as int == 57);
    assert('a' as int == 97 && 'b' as int == 98 && 'c' as int == 99);
    assert('d' as int == 100 && 'e' as int == 101 && 'f' as int == 102);
    assert(digit_text(digit) =~= seq![digit_text(digit)[0]]);
}

/// A number in decimal ends in the digit of its ones, after the digits of its tens and more, if
/// there are any.
pub proof fn law_decimal(n: nat)
    ensures
        n < 10 ==> decimal_text(n) == seq![(48 + n) as char],
        n >= 10 ==> decimal_text(n) == decimal_text(n / 10).push((48 + n % 10) as char),
{
    law_digits((n % 10) as u8);
    if n >= 10 {
        assert(decimal_text(n) =~= decimal_text(n / 10).push((48 + n % 10) as char));
    }
}

/// What each error says: a fixed text, with the name, the number or the byte that it is about in its
/// place.
pub proof fn law_messages(error: Error, text: String)
    requires
        call_ensures(Error::to_string, (&error,), text),
    ensures
        match error {
            Error::RingNameEmpty => text@ == "ring name must not be empty"@,
            Error::RingNameInvalidChars => text@ == "ring name must not contain whitespace or NUL bytes"@,
            Error::RingNameReserved(name) => text@ == "'"@ + name@ + "' is a reserved ring name"@,
            Error::RingAlreadyExists(name) => text@ == "ring '"@ + name@ + "' already exists"@,
            Error::RingNotFound(name) => text@ == "ring '"@ + name@ + "' not found"@,
            Error::ResourceIdTooLong(len) => text@ == "resource id length "@ + decimal_text(len as nat)
                + " exceeds maximum"@,
            Error::UnknownStatusByte(byte) => text@ == "unexpected status byte: "@ + ("0x"@ + digit_text(
                (byte / 16) as u8,
            ) + digit_text((byte % 16) as u8)),
            Error::UnknownOperationByte(byte) => text@ == "unknown operation byte: "@ + ("0x"@ + digit_text(
                (byte / 16) as u8,
            ) + digit_text((byte % 16) as u8)),
            Error::OpenRingReadOnly => text@ == "the open ring may only be associated with Read permission"@,
            Error::EmptyPermissionSet => text@ == "permission set must not be empty"@,
            Error::Storage(reason) => text@ == "storage error: "@ + reason@,
        },
{
}

} // verus!
