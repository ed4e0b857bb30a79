//! What can go wrong with a container.

use vstd::prelude::*;

verus! {

/// `std::io::Error`: what the operating system reported, carried as it is.
#[verifier::external_type_specification]
#[verifier::external_body]
pub struct ExIoError(std::io::Error);

/// The result of an operation on a container.
pub type Result<T> = std::result::Result<T, NcmError>;

/// Why a container could not be read.
#[derive(Debug)]
pub enum NcmError {
    /// Reading or writing failed.
    Io(std::io::Error),
    /// The container is not valid; the text says why.
    Invalid(String),
}

/// What an error says, apart from what the operating system reported.
pub enum Failure {
    Io,
    Invalid(Seq<char>),
}

impl View for NcmError {
    type V = Failure;

    open spec fn view(&self) -> Failure {
        match self {
            NcmError::Io(_) => Failure::Io,
            NcmError::Invalid(message) => Failure::Invalid(message@),
        }
    }
}

impl From<std::io::Error> for NcmError {
    fn from(value: std::io::Error) -> (error: Self) {
        NcmError::Io(value)
    }
}

impl vstd::std_specs::convert::FromSpecImpl<std::io::Error> for NcmError {
    open spec fn obeys_from_spec() -> bool {
        true
    }

    open spec fn from_spec(value: std::io::Error) -> Self {
        NcmError::Io(value)
    }
}

/// An error for reading past the end, by `std::io::Error::new` with the kind of
/// an unexpected end of file and `text` as what it carries: where the error is
/// shown, it shows that text. Nothing is claimed of the kind.
#[verifier::external_body]
pub(crate) fn unexpected_end(text: &str) -> (error: std::io::Error)
    ensures
        shows(&error, text@),
{
    std::io::Error::new(std::io::ErrorKind::UnexpectedEof, text)
}

/// Whether `text` is what an error of the operating system shows, as its
/// `to_string` gives it.
pub open spec fn shows(error: &std::io::Error, text: Seq<char>) -> bool {
    forall|detail: String| #[trigger]
        vstd::string::to_string_from_display_ensures::<std::io::Error>(error, detail) ==> detail@
            == text
}

/// What stands before the text of an error of the operating system.
pub open spec fn io_prefix() -> Seq<char> {
    "I/O 错误: "@
}

/// The line for an error of the operating system with the text `detail`.
pub fn io_message(detail: &str) -> (text: String)
    ensures
        text@ == io_prefix() + detail@,
{
    let mut text: String = String::from_str("I/O 错误: ");
    text.append(detail);
    text
}

impl NcmError {
    /// The error as one line of text. What the operating system reported stands
    /// in it as its `to_string` gives it.
    pub fn message(&self) -> (text: String)
        ensures
            match self {
                NcmError::Io(error) => exists|detail: String| #[trigger]
                    vstd::string::to_string_from_display_ensures::<std::io::Error>(error, detail)
                        && text@ == io_prefix() + detail@,
                NcmError::Invalid(message) => text@ == message@,
            },
    {
        match self {
            NcmError::Io(error) => {
                let detail: String = error.to_string();
                io_message(detail.as_str())
            },
            NcmError::Invalid(message) => message.clone(),
        }
    }
}

/// A failure with a message.
pub fn invalid<T>(message: String) -> (result: Result<T>)
    ensures
        result == Err::<T, NcmError>(NcmError::Invalid(message)),
{
    Err(NcmError::Invalid(message))
}

} // verus!
