//! What can be wrong with endpoints, clusters and sets of servers.

use crate::text::{decimal, number_error_text, push_decimal, NumberError};
use vstd::prelude::*;

verus! {

/// An error in an endpoint, a cluster or a set of servers.
#[derive(Clone, Debug, PartialEq, Eq)]
pub enum AvalonError {
    /// An endpoint without a host.
    EmptyHostname,
    /// A port that is no TCP port.
    PortTooLarge { port: u32 },
    /// A text with two or more `://`.
    ManySchemes { input: String },
    /// A text that is not one host and one port.
    NotHostPort { remainder: String },
    /// A port that is no number.
    BadPort { remainder: String, cause: NumberError },
    /// A cluster whose source node is none of its nodes.
    SourceNodeMissing { id: u32 },
    /// More servers than slots can name.
    TooManyServers,
}

/// An `AvalonError` with its texts as sequences of characters.
#[verifier::ext_equal]
pub enum AvalonErrorView {
    EmptyHostname,
    PortTooLarge { port: u32 },
    ManySchemes { input: Seq<char> },
    NotHostPort { remainder: Seq<char> },
    BadPort { remainder: Seq<char>, cause: NumberError },
    SourceNodeMissing { id: u32 },
    TooManyServers,
}

impl View for AvalonError {
    type V = AvalonErrorView;

    open spec fn view(&self) -> AvalonErrorView {
        match *self {
            AvalonError::EmptyHostname => AvalonErrorView::EmptyHostname,
            AvalonError::PortTooLarge { port } => AvalonErrorView::PortTooLarge { port },
            AvalonError::ManySchemes { input } => AvalonErrorView::ManySchemes { input: input@ },
            AvalonError::NotHostPort { remainder } => AvalonErrorView::NotHostPort {
                remainder: remainder@,
            },
            AvalonError::BadPort { remainder, cause } => AvalonErrorView::BadPort {
                remainder: remainder@,
                cause,
            },
            AvalonError::SourceNodeMissing { id } => AvalonErrorView::SourceNodeMissing { id },
            AvalonError::TooManyServers => AvalonErrorView::TooManyServers,
        }
    }
}

/// What is said of an error.
pub open spec fn error_text(e: AvalonErrorView) -> Seq<char> {
    match e {
        AvalonErrorView::EmptyHostname => "Invalid empty hostname."@,
        AvalonErrorView::PortTooLarge { port } => "Invalid overly large port number "@ + decimal(
            port as nat,
        ) + "."@,
        AvalonErrorView::ManySchemes { input } => "Unable to parse "@ + input
            + ": found more than one occurrence of ://"@,
        AvalonErrorView::NotHostPort { remainder } => "Unable to parse "@ + remainder
            + " as a host:port pair."@,
        AvalonErrorView::BadPort { remainder, cause } => "Unable to parse the second half of "@
            + remainder + " as a port: "@ + number_error_text(cause),
        AvalonErrorView::SourceNodeMissing { id } => "Source node id was "@ + decimal(id as nat)
            + ", but that node was not found in the response nodes."@,
        AvalonErrorView::TooManyServers => "The number of servers cannot be more than 65534."@,
    }
}

impl AvalonError {
    /// What is said of this error.
    pub fn to_string(&self) -> (r: String)
        ensures
            r@ =~= error_text(self@),
    {
        let mut out = String::new();
        match self {
            AvalonError::EmptyHostname => {
                out.append("Invalid empty hostname.");
            },
            AvalonError::PortTooLarge { port } => {
                out.append("Invalid overly large port number ");
                push_decimal(&mut out, *port as u64);
                out.append(".");
            },
            AvalonError::ManySchemes { input } => {
                out.append("Unable to parse ");
                out.append(input.as_str());
                out.append(": found more than one occurrence of ://");
            },
            AvalonError::NotHostPort { remainder } => {
                out.append("Unable to parse ");
                out.append(remainder.as_str());
                out.append(" as a host:port pair.");
            },
            AvalonError::BadPort { remainder, cause } => {
                out.append("Unable to parse the second half of ");
                out.append(remainder.as_str());
                out.append(" as a port: ");
                out.append(cause.text());
            },
            AvalonError::SourceNodeMissing { id } => {
                out.append("Source node id was ");
                push_decimal(&mut out, *id as u64);
                out.append(", but that node was not found in the response nodes.");
            },
            AvalonError::TooManyServers => {
                out.append("The number of servers cannot be more than 65534.");
            },
        }
        out
    }
}

/// Something that the user gave and that cannot be used.
#[derive(Clone, Debug, PartialEq, Eq)]
pub struct InvalidInput {
    pub message: String,
}

impl View for InvalidInput {
    type V = Seq<char>;

    open spec fn view(&self) -> Seq<char> {
        self.message@
    }
}

impl InvalidInput {
    /// What is said of this error.
    pub fn to_string(&self) -> (r: String)
        ensures
            r@ =~= "Invalid user input: "@ + self@,
    {
        let mut out = String::new();
        out.append("Invalid user input: ");
        out.append(self.message.as_str());
        out
    }
}

} // verus!
