//! What can go wrong reading a zone or a query.

use vstd::prelude::*;
use vstd::string::*;
use crate::text::{string_bytes, string_of, push_str, decimal_digits, decimal_string};

verus! {

/// std's I/O error, carried through untouched.
#[verifier::external_type_specification]
#[verifier::external_body]
pub struct ExIoError(std::io::Error);

#[derive(Debug)]
pub enum Error {
    Io { path: String, source: std::io::Error },
    Parse { path: String, line: usize, message: String },
    Query(String),
    /// Writing the matches failed, e.g. with a broken pipe.
    Output(std::io::Error),
}

impl Error {
    /// Reading `path` failed.
    pub fn io(path: &str, source: std::io::Error) -> (e: Error)
        ensures
            e matches Error::Io { path: p, .. } && p@ == path@,
    {
        Error::Io { path: path.to_owned(), source }
    }

    /// Line `line` of `path` doesn't parse.
    pub fn parse(path: &str, line: usize, message: String) -> (e: Error)
        ensures
            e matches Error::Parse { path: p, line: l, message: m } && p@ == path@ && l == line
                && m == message,
    {
        Error::Parse { path: path.to_owned(), line, message }
    }

    /// The error as one line of text, like `path:line: message`.
    pub fn to_string(&self) -> (s: String)
        ensures
            self matches Error::Parse { path, line, message } ==> string_bytes(&s) == string_bytes(
                &path,
            ) + seq![58u8] + decimal_digits(line as nat) + ": ".spec_bytes() + string_bytes(
                &message,
            ),
            self matches Error::Query(m) ==> string_bytes(&s) == "bad query: ".spec_bytes()
                + string_bytes(&m),
            self matches Error::Io { path, source } ==> exists|detail: String|
                to_string_from_display_ensures::<std::io::Error>(&source, detail) && string_bytes(&s)
                    == string_bytes(&path) + ": ".spec_bytes() + string_bytes(&detail),
            self matches Error::Output(source) ==> exists|detail: String|
                to_string_from_display_ensures::<std::io::Error>(&source, detail) && string_bytes(&s)
                    == "writing output: ".spec_bytes() + string_bytes(&detail),
    {
        match self {
            Error::Io { path, source } => {
                let mut s = path.clone();
                push_str(&mut s, ": ");
                let detail = source.to_string();
                push_str(&mut s, detail.as_str());
                proof {
                    assert(to_string_from_display_ensures::<std::io::Error>(source, detail));
                }
                s
            },
            Error::Parse { path, line, message } => {
                let mut s = path.clone();
                push_str(&mut s, ":");
                let n = decimal_string(*line as u64);
                push_str(&mut s, n.as_str());
                push_str(&mut s, ": ");
                push_str(&mut s, message.as_str());
                proof {
                    reveal_strlit(":");
                    crate::text::lemma_ascii_str(":");
                    assert(":".spec_bytes() =~= seq![58u8]);
                }
                s
            },
            Error::Query(m) => {
                let mut s = string_of("bad query: ");
                push_str(&mut s, m.as_str());
                s
            },
            Error::Output(source) => {
                let mut s = string_of("writing output: ");
                let detail = source.to_string();
                push_str(&mut s, detail.as_str());
                proof {
                    assert(to_string_from_display_ensures::<std::io::Error>(source, detail));
                }
                s
            },
        }
    }
}

} // verus!
