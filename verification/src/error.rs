//! Error types.

use vstd::prelude::*;
use vstd::string::*;

verus! {

/// `std::io::Error`, carried through without a look inside.
#[verifier::external_type_specification]
#[verifier::external_body]
pub struct ExIoError(std::io::Error);

/// `std::io::Error` rendered with its `Display` implementation. Nothing is
/// claimed of the text: for operating-system errors it comes from the platform.
#[verifier::external_body]
fn io_error_text(e: &std::io::Error) -> String {
    e.to_string()
}

/// `text` is what the `Display` implementation of `std::io::Error` gave for `e`.
pub closed spec fn shown_as(e: std::io::Error, text: Seq<char>) -> bool {
    exists|t: String| #[trigger] call_ensures(io_error_text, (&e,), t) && text == t@
}

/// The class of a [`ForstError`].
#[derive(Debug, Clone, Copy, PartialEq, Eq, Structural)]
pub enum ErrorKind {
    Io,
    Corruption,
    NotFound,
    NotSupported,
    InvalidArgument,
    Incomplete,
    Aborted,
    Busy,
    TimedOut,
    Expired,
    Internal,
}

/// The error of every fallible operation. Each variant corresponds to a
/// status code of the storage engine.
#[derive(Debug)]
#[non_exhaustive]
pub enum ForstError {
    /// An I/O error occurred during a file-system or network operation.
    Io(std::io::Error),
    /// Data on disk or in memory failed an integrity check.
    Corruption(String),
    /// The requested key, file, or resource does not exist.
    NotFound(String),
    /// The operation is not supported by this implementation or configuration.
    NotSupported(String),
    /// A caller-supplied argument is invalid.
    InvalidArgument(String),
    /// Required data is missing, such as a partial merge result.
    Incomplete(String),
    /// The operation was aborted by a conflict or a cancellation.
    Aborted(String),
    /// A resource is temporarily busy.
    Busy(String),
    /// The operation exceeded its deadline.
    TimedOut(String),
    /// A time-bound resource has expired.
    Expired(String),
    /// An internal invariant was violated and no progress is possible.
    Internal(String),
}

/// The result of a fallible operation.
pub type ForstResult<T> = std::result::Result<T, ForstError>;

impl ForstError {
    /// The class of this error.
    pub open spec fn kind(self) -> ErrorKind {
        match self {
            ForstError::Io(_) => ErrorKind::Io,
            ForstError::Corruption(_) => ErrorKind::Corruption,
            ForstError::NotFound(_) => ErrorKind::NotFound,
            ForstError::NotSupported(_) => ErrorKind::NotSupported,
            ForstError::InvalidArgument(_) => ErrorKind::InvalidArgument,
            ForstError::Incomplete(_) => ErrorKind::Incomplete,
            ForstError::Aborted(_) => ErrorKind::Aborted,
            ForstError::Busy(_) => ErrorKind::Busy,
            ForstError::TimedOut(_) => ErrorKind::TimedOut,
            ForstError::Expired(_) => ErrorKind::Expired,
            ForstError::Internal(_) => ErrorKind::Internal,
        }
    }

    /// The message of this error; empty for an I/O error, whose text is the
    /// platform's.
    pub open spec fn message(self) -> Seq<char> {
        match self {
            ForstError::Io(_) => Seq::empty(),
            ForstError::Corruption(m) => m@,
            ForstError::NotFound(m) => m@,
            ForstError::NotSupported(m) => m@,
            ForstError::InvalidArgument(m) => m@,
            ForstError::Incomplete(m) => m@,
            ForstError::Aborted(m) => m@,
            ForstError::Busy(m) => m@,
            ForstError::TimedOut(m) => m@,
            ForstError::Expired(m) => m@,
            ForstError::Internal(m) => m@,
        }
    }

    /// This error has class `kind` and message `message`.
    pub open spec fn says(self, kind: ErrorKind, message: Seq<char>) -> bool {
        self.kind() == kind && self.message() == message
    }

    /// What precedes the message when the error is displayed.
    pub open spec fn prefix(self) -> Seq<char> {
        match self {
            ForstError::Io(_) => "IO error: "@,
            ForstError::Corruption(_) => "Data corruption: "@,
            ForstError::NotFound(_) => "Not found: "@,
            ForstError::NotSupported(_) => "Not supported: "@,
            ForstError::InvalidArgument(_) => "Invalid argument: "@,
            ForstError::Incomplete(_) => "Incomplete: "@,
            ForstError::Aborted(_) => "Aborted: "@,
            ForstError::Busy(_) => "Resource busy: "@,
            ForstError::TimedOut(_) => "Timed out: "@,
            ForstError::Expired(_) => "Expired: "@,
            ForstError::Internal(_) => "Internal: "@,
        }
    }

    /// A [`ForstError::Corruption`] whose message is `msg`, converted to a `String`.
    pub fn corruption<M: Into<String>>(msg: M) -> (r: Self)
        ensures
            r matches ForstError::Corruption(s) && call_ensures(<M as Into<String>>::into, (msg,), s),
    {
        ForstError::Corruption(msg.into())
    }

    /// A [`ForstError::NotFound`] whose message is `msg`, converted to a `String`.
    pub fn not_found<M: Into<String>>(msg: M) -> (r: Self)
        ensures
            r matches ForstError::NotFound(s) && call_ensures(<M as Into<String>>::into, (msg,), s),
    {
        ForstError::NotFound(msg.into())
    }

    /// A [`ForstError::NotSupported`] whose message is `msg`, converted to a `String`.
    pub fn not_supported<M: Into<String>>(msg: M) -> (r: Self)
        ensures
            r matches ForstError::NotSupported(s) && call_ensures(<M as Into<String>>::into, (msg,), s),
    {
        ForstError::NotSupported(msg.into())
    }

    /// A [`ForstError::InvalidArgument`] whose message is `msg`, converted to a `String`.
    pub fn invalid_argument<M: Into<String>>(msg: M) -> (r: Self)
        ensures
            r matches ForstError::InvalidArgument(s) && call_ensures(<M as Into<String>>::into, (msg,), s),
    {
        ForstError::InvalidArgument(msg.into())
    }

    /// A [`ForstError::Incomplete`] whose message is `msg`, converted to a `String`.
    pub fn incomplete<M: Into<String>>(msg: M) -> (r: Self)
        ensures
            r matches ForstError::Incomplete(s) && call_ensures(<M as Into<String>>::into, (msg,), s),
    {
        ForstError::Incomplete(msg.into())
    }

    /// A [`ForstError::Aborted`] whose message is `msg`, converted to a `String`.
    pub fn aborted<M: Into<String>>(msg: M) -> (r: Self)
        ensures
            r matches ForstError::Aborted(s) && call_ensures(<M as Into<String>>::into, (msg,), s),
    {
        ForstError::Aborted(msg.into())
    }

    /// A [`ForstError::Busy`] whose message is `msg`, converted to a `String`.
    pub fn busy<M: Into<String>>(msg: M) -> (r: Self)
        ensures
            r matches ForstError::Busy(s) && call_ensures(<M as Into<String>>::into, (msg,), s),
    {
        ForstError::Busy(msg.into())
    }

    /// A [`ForstError::TimedOut`] whose message is `msg`, converted to a `String`.
    pub fn timed_out<M: Into<String>>(msg: M) -> (r: Self)
        ensures
            r matches ForstError::TimedOut(s) && call_ensures(<M as Into<String>>::into, (msg,), s),
    {
        ForstError::TimedOut(msg.into())
    }

    /// A [`ForstError::Expired`] whose message is `msg`, converted to a `String`.
    pub fn expired<M: Into<String>>(msg: M) -> (r: Self)
        ensures
            r matches ForstError::Expired(s) && call_ensures(<M as Into<String>>::into, (msg,), s),
    {
        ForstError::Expired(msg.into())
    }

    /// A [`ForstError::Internal`] whose message is `msg`, converted to a `String`.
    pub fn internal<M: Into<String>>(msg: M) -> (r: Self)
        ensures
            r matches ForstError::Internal(s) && call_ensures(<M as Into<String>>::into, (msg,), s),
    {
        ForstError::Internal(msg.into())
    }

    /// Whether this is a [`ForstError::Io`].
    pub fn is_io(&self) -> (r: bool)
        ensures
            r == (self.kind() == ErrorKind::Io),
    {
        matches!(self, ForstError::Io(_))
    }

    /// Whether this is a [`ForstError::Corruption`].
    pub fn is_corruption(&self) -> (r: bool)
        ensures
            r == (self.kind() == ErrorKind::Corruption),
    {
        matches!(self, ForstError::Corruption(_))
    }

    /// Whether this is a [`ForstError::NotFound`].
    pub fn is_not_found(&self) -> (r: bool)
        ensures
            r == (self.kind() == ErrorKind::NotFound),
    {
        matches!(self, ForstError::NotFound(_))
    }

    /// Whether this is a [`ForstError::NotSupported`].
    pub fn is_not_supported(&self) -> (r: bool)
        ensures
            r == (self.kind() == ErrorKind::NotSupported),
    {
        matches!(self, ForstError::NotSupported(_))
    }

    /// Whether this is a [`ForstError::InvalidArgument`].
    pub fn is_invalid_argument(&self) -> (r: bool)
        ensures
            r == (self.kind() == ErrorKind::InvalidArgument),
    {
        matches!(self, ForstError::InvalidArgument(_))
    }

    /// Whether this is a [`ForstError::Incomplete`].
    pub fn is_incomplete(&self) -> (r: bool)
        ensures
            r == (self.kind() == ErrorKind::Incomplete),
    {
        matches!(self, ForstError::Incomplete(_))
    }

    /// Whether this is a [`ForstError::Aborted`].
    pub fn is_aborted(&self) -> (r: bool)
        ensures
            r == (self.kind() == ErrorKind::Aborted),
    {
        matches!(self, ForstError::Aborted(_))
    }

    /// Whether this is a [`ForstError::Busy`].
    pub fn is_busy(&self) -> (r: bool)
        ensures
            r == (self.kind() == ErrorKind::Busy),
    {
        matches!(self, ForstError::Busy(_))
    }

    /// Whether this is a [`ForstError::TimedOut`].
    pub fn is_timed_out(&self) -> (r: bool)
        ensures
            r == (self.kind() == ErrorKind::TimedOut),
    {
        matches!(self, ForstError::TimedOut(_))
    }

    /// Whether this is a [`ForstError::Expired`].
    pub fn is_expired(&self) -> (r: bool)
        ensures
            r == (self.kind() == ErrorKind::Expired),
    {
        matches!(self, ForstError::Expired(_))
    }

    /// Whether this is a [`ForstError::Internal`].
    pub fn is_internal(&self) -> (r: bool)
        ensures
            r == (self.kind() == ErrorKind::Internal),
    {
        matches!(self, ForstError::Internal(_))
    }

    /// The displayed form: the class prefix followed by the message. The text of
    /// an I/O error is its own.
    pub fn to_string(&self) -> (r: String)
        ensures
            match self {
                ForstError::Io(e) => exists|text: Seq<char>| #[trigger]
                    shown_as(*e, text) && r@ == self.prefix() + text,
                _ => r@ == self.prefix() + self.message(),
            },
    {
        let mut out = String::new();
        match self {
            ForstError::Io(e) => {
                out.append("IO error: ");
                let text = io_error_text(e);
                out.append(text.as_str());
                assert(shown_as(*e, text@));
            },
            ForstError::Corruption(m) => {
                out.append("Data corruption: ");
                out.append(m.as_str());
            },
            ForstError::NotFound(m) => {
                out.append("Not found: ");
                out.append(m.as_str());
            },
            ForstError::NotSupported(m) => {
                out.append("Not supported: ");
                out.append(m.as_str());
            },
            ForstError::InvalidArgument(m) => {
                out.append("Invalid argument: ");
                out.append(m.as_str());
            },
            ForstError::Incomplete(m) => {
                out.append("Incomplete: ");
                out.append(m.as_str());
            },
            ForstError::Aborted(m) => {
                out.append("Aborted: ");
                out.append(m.as_str());
            },
            ForstError::Busy(m) => {
                out.append("Resource busy: ");
                out.append(m.as_str());
            },
            ForstError::TimedOut(m) => {
                out.append("Timed out: ");
                out.append(m.as_str());
            },
            ForstError::Expired(m) => {
                out.append("Expired: ");
                out.append(m.as_str());
            },
            ForstError::Internal(m) => {
                out.append("Internal: ");
                out.append(m.as_str());
            },
        }
        out
    }
}

impl From<std::io::Error> for ForstError {
    fn from(e: std::io::Error) -> (r: Self) {
        ForstError::Io(e)
    }
}

impl vstd::std_specs::convert::FromSpecImpl<std::io::Error> for ForstError {
    open spec fn obeys_from_spec() -> bool {
        true
    }

    open spec fn from_spec(e: std::io::Error) -> Self {
        ForstError::Io(e)
    }
}

/// A [`ForstError::Corruption`] with a fixed text.
pub(crate) fn corruption_text(msg: &str) -> (r: ForstError)
    ensures
        r.says(ErrorKind::Corruption, msg@),
{
    ForstError::Corruption(msg.to_owned())
}

/// A [`ForstError::InvalidArgument`] with a fixed text.
pub(crate) fn invalid_argument_text(msg: &str) -> (r: ForstError)
    ensures
        r.says(ErrorKind::InvalidArgument, msg@),
{
    ForstError::InvalidArgument(msg.to_owned())
}

/// An error is of the kind of its variant and says the message that it holds.
pub proof fn law_errors_say_what_they_hold(e: ForstError, kind: ErrorKind, message: Seq<char>)
    ensures
        e.says(kind, message) <==> e.kind() == kind && e.message() == message,
        match e {
            ForstError::Io(_) => e.kind() is Io && e.message().len() == 0,
            ForstError::Corruption(m) => e.kind() is Corruption && e.message() == m@,
            ForstError::NotFound(m) => e.kind() is NotFound && e.message() == m@,
            ForstError::NotSupported(m) => e.kind() is NotSupported && e.message() == m@,
            ForstError::InvalidArgument(m) => e.kind() is InvalidArgument && e.message() == m@,
            ForstError::Incomplete(m) => e.kind() is Incomplete && e.message() == m@,
            ForstError::Aborted(m) => e.kind() is Aborted && e.message() == m@,
            ForstError::Busy(m) => e.kind() is Busy && e.message() == m@,
            ForstError::TimedOut(m) => e.kind() is TimedOut && e.message() == m@,
            ForstError::Expired(m) => e.kind() is Expired && e.message() == m@,
            ForstError::Internal(m) => e.kind() is Internal && e.message() == m@,
        },
{
}

/// Errors of different kinds are shown with different words in front.
pub proof fn law_kinds_are_told_apart_by_their_words(a: ForstError, b: ForstError)
    ensures
        a.kind() != b.kind() ==> a.prefix() != b.prefix(),
        a.kind() == b.kind() ==> a.prefix() == b.prefix(),
        a.prefix().len() > 2,
        a.prefix()[a.prefix().len() - 2] == ':',
        a.prefix()[a.prefix().len() - 1] == ' ',
{
    reveal_strlit("IO error: ");
    reveal_strlit("Data corruption: ");
    reveal_strlit("Not found: ");
    reveal_strlit("Not supported: ");
    reveal_strlit("Invalid argument: ");
    reveal_strlit("Incomplete: ");
    reveal_strlit("Aborted: ");
    reveal_strlit("Resource busy: ");
    reveal_strlit("Timed out: ");
    reveal_strlit("Expired: ");
    reveal_strlit("Internal: ");
    lemma_words(a);
    lemma_words(b);
}

proof fn lemma_words(e: ForstError)
    ensures
        ({
            let p = e.prefix();
            match e.kind() {
                ErrorKind::Io => p.len() == 10 && p[0] == 'I' && p[1] == 'O',
                ErrorKind::Corruption => p.len() == 17 && p[0] == 'D' && p[1] == 'a',
                ErrorKind::NotFound => p.len() == 11 && p[0] == 'N' && p[1] == 'o',
                ErrorKind::NotSupported => p.len() == 15 && p[0] == 'N' && p[1] == 'o',
                ErrorKind::InvalidArgument => p.len() == 18 && p[0] == 'I' && p[1] == 'n',
                ErrorKind::Incomplete => p.len() == 12 && p[0] == 'I' && p[1] == 'n',
                ErrorKind::Aborted => p.len() == 9 && p[0] == 'A' && p[1] == 'b',
                ErrorKind::Busy => p.len() == 15 && p[0] == 'R' && p[1] == 'e',
                ErrorKind::TimedOut => p.len() == 11 && p[0] == 'T' && p[1] == 'i',
                ErrorKind::Expired => p.len() == 9 && p[0] == 'E' && p[1] == 'x',
                ErrorKind::Internal => p.len() == 10 && p[0] == 'I' && p[1] == 'n',
            }
        }),
{
    reveal_strlit("IO error: ");
    reveal_strlit("Data corruption: ");
    reveal_strlit("Not found: ");
    reveal_strlit("Not supported: ");
    reveal_strlit("Invalid argument: ");
    reveal_strlit("Incomplete: ");
    reveal_strlit("Aborted: ");
    reveal_strlit("Resource busy: ");
    reveal_strlit("Timed out: ");
    reveal_strlit("Expired: ");
    reveal_strlit("Internal: ");
}

} // verus!
