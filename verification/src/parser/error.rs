//! What can go wrong while parsing.
use vstd::prelude::*;
use vstd::utf8::*;
use crate::text::{push_str, to_owned_string};

verus! {

/// `std::io::Error`, carried opaquely.
#[verifier::external_type_specification]
#[verifier::external_body]
pub struct ExIoError(std::io::Error);

/// Why parsing failed.
#[derive(Debug)]
pub enum ParseError {
    /// libclang could not be set up.
    Clang(String),
    /// The translation unit could not be built.
    TranslationUnit(String),
    /// Reading or writing a file failed.
    Io(std::io::Error),
}

/// `std::io::Error`'s `Display` text. It depends on the operating system's
/// error messages: nothing is stated of it.
#[verifier::external_body]
fn io_error_text(e: &std::io::Error) -> String {
    e.to_string()
}

impl ParseError {
    /// A libclang error with this message.
    pub fn clang(message: &str) -> (e: ParseError)
        ensures
            e matches ParseError::Clang(m) && m@ == message@,
    {
        ParseError::Clang(to_owned_string(message))
    }

    /// The error's text: `clang error: `, `failed to create translation
    /// unit: ` or `io error: `, then the details.
    pub fn message(&self) -> (r: String)
        ensures
            self matches ParseError::Clang(m) ==> r@ == "clang error: "@ + m@,
            self matches ParseError::TranslationUnit(m) ==> r@ == "failed to create translation unit: "@ + m@,
            self is Io ==> exists|rest: Seq<char>| r@ == "io error: "@ + rest,
    {
        match self {
            ParseError::Clang(m) => {
                let mut r = to_owned_string("clang error: ");
                push_str(&mut r, m.as_str());
                r
            },
            ParseError::TranslationUnit(m) => {
                let mut r = to_owned_string("failed to create translation unit: ");
                push_str(&mut r, m.as_str());
                r
            },
            ParseError::Io(e) => {
                let mut r = to_owned_string("io error: ");
                let detail = io_error_text(e);
                push_str(&mut r, detail.as_str());
                assert(r@ == "io error: "@ + detail@);
                r
            },
        }
    }
}

} // verus!
