//! Error type for loading, compiling and running models.

use vstd::prelude::*;
use vstd::string::*;
use crate::text::{concat2, concat4, dec_i64, dec_int};

verus! {

/// Everything that can go wrong between reading a model and running it.
#[derive(Debug, Clone)]
pub enum Error {
    /// I/O error (file not found, read failure, etc.).
    Io(String),
    /// Malformed model bytes.
    Parse(String),
    /// Operator set version that is not supported.
    UnsupportedOpset {
        /// The version the model asks for.
        found: i64,
        /// The version that is supported.
        expected: i64,
    },
    /// Unsupported operator.
    UnsupportedOp {
        /// Operator type.
        op_type: String,
        /// Node that uses it.
        node_name: String,
        /// Why it is not supported.
        reason: String,
    },
    /// Shape inference error.
    Shape(String),
    /// Graph validation error.
    Validation(String),
    /// Compilation error.
    Compile(String),
    /// Runtime execution error.
    Runtime(String),
    /// Backend error.
    Backend(String),
}

/// The contents of an [`Error`], with text as character sequences.
pub enum ErrorView {
    Io(Seq<char>),
    Parse(Seq<char>),
    UnsupportedOpset { found: i64, expected: i64 },
    UnsupportedOp { op_type: Seq<char>, node_name: Seq<char>, reason: Seq<char> },
    Shape(Seq<char>),
    Validation(Seq<char>),
    Compile(Seq<char>),
    Runtime(Seq<char>),
    Backend(Seq<char>),
}

impl View for Error {
    type V = ErrorView;

    open spec fn view(&self) -> ErrorView {
        match *self {
            Error::Io(m) => ErrorView::Io(m@),
            Error::Parse(m) => ErrorView::Parse(m@),
            Error::UnsupportedOpset { found, expected } => ErrorView::UnsupportedOpset { found, expected },
            Error::UnsupportedOp { op_type, node_name, reason } => ErrorView::UnsupportedOp {
                op_type: op_type@,
                node_name: node_name@,
                reason: reason@,
            },
            Error::Shape(m) => ErrorView::Shape(m@),
            Error::Validation(m) => ErrorView::Validation(m@),
            Error::Compile(m) => ErrorView::Compile(m@),
            Error::Runtime(m) => ErrorView::Runtime(m@),
            Error::Backend(m) => ErrorView::Backend(m@),
        }
    }
}

/// The message shown for an error.
pub open spec fn error_text(e: ErrorView) -> Seq<char> {
    match e {
        ErrorView::Io(m) => "I/O error: "@ + m,
        ErrorView::Parse(m) => "parse error: "@ + m,
        ErrorView::UnsupportedOpset { found, expected } => "unsupported opset version "@ + dec_int(
            found as int,
        ) + ", expected "@ + dec_int(expected as int),
        ErrorView::UnsupportedOp { op_type, node_name, reason } => "unsupported op '"@ + op_type
            + "' at node '"@ + node_name + "': "@ + reason,
        ErrorView::Shape(m) => "shape error: "@ + m,
        ErrorView::Validation(m) => "validation error: "@ + m,
        ErrorView::Compile(m) => "compilation error: "@ + m,
        ErrorView::Runtime(m) => "runtime error: "@ + m,
        ErrorView::Backend(m) => "backend error: "@ + m,
    }
}

impl Error {
    /// The message shown for this error.
    pub fn message(&self) -> (r: String)
        ensures
            r@ == error_text(self@),
    {
        match self {
            Error::Io(m) => concat2("I/O error: ", m.as_str()),
            Error::Parse(m) => concat2("parse error: ", m.as_str()),
            Error::UnsupportedOpset { found, expected } => {
                let f: String = dec_i64(*found);
                let e: String = dec_i64(*expected);
                concat4("unsupported opset version ", f.as_str(), ", expected ", e.as_str())
            },
            Error::UnsupportedOp { op_type, node_name, reason } => {
                let mut s: String = concat4(
                    "unsupported op '",
                    op_type.as_str(),
                    "' at node '",
                    node_name.as_str(),
                );
                s.append("': ");
                s.append(reason.as_str());
                s
            },
            Error::Shape(m) => concat2("shape error: ", m.as_str()),
            Error::Validation(m) => concat2("validation error: ", m.as_str()),
            Error::Compile(m) => concat2("compilation error: ", m.as_str()),
            Error::Runtime(m) => concat2("runtime error: ", m.as_str()),
            Error::Backend(m) => concat2("backend error: ", m.as_str()),
        }
    }
}

/// The outcome of an operation, with both sides seen through their views.
pub open spec fn outcome<T: View>(r: Result<T, Error>) -> Result<T::V, ErrorView> {
    match r {
        Ok(v) => Ok(v@),
        Err(e) => Err(e@),
    }
}

} // verus!
