//! Error types.

use vstd::prelude::*;
use vstd::string::StringExecFns;

use crate::circuit::{
    append_identifier_names, append_net_names, identifier_views, net_views, render_names,
    Identifier, IdentifierView, Net,
};
use crate::text::{decimal, decimal_digits};

verus! {

/// Errors of the netlist library.
#[derive(Debug)]
pub enum Error {
    /// An analysis cannot run because of cycles.
    CycleDetected(Vec<Net>),
    /// A literal or an identifier could not be read.
    ParseError(String),
    /// The labelled nets in the netlist are not unique.
    NonuniqueNets(Vec<Net>),
    /// The labelled instances in the netlist are not unique.
    NonuniqueInsts(Vec<Identifier>),
    /// The netlist has no outputs.
    NoOutputs,
    /// An error in the instantiable interface.
    InstantiableError(String),
    /// An operation would leave a reference to nets dangling.
    DanglingReference(Vec<Net>),
    /// The number of arguments that was expected, and the number that was given.
    ArgumentMismatch(usize, usize),
    /// An input needs an alias to be an output.
    InputNeedsAlias(Net),
    /// A net that was expected but not found.
    NetNotFound(Net),
}

/// What an error holds.
pub enum ErrorView {
    CycleDetected(Seq<IdentifierView>),
    ParseError(Seq<char>),
    NonuniqueNets(Seq<IdentifierView>),
    NonuniqueInsts(Seq<IdentifierView>),
    NoOutputs,
    InstantiableError(Seq<char>),
    DanglingReference(Seq<IdentifierView>),
    ArgumentMismatch(usize, usize),
    InputNeedsAlias(IdentifierView),
    NetNotFound(IdentifierView),
}

impl View for Error {
    type V = ErrorView;

    open spec fn view(&self) -> ErrorView {
        match self {
            Error::CycleDetected(nets) => ErrorView::CycleDetected(net_views(nets@)),
            Error::ParseError(text) => ErrorView::ParseError(text@),
            Error::NonuniqueNets(nets) => ErrorView::NonuniqueNets(net_views(nets@)),
            Error::NonuniqueInsts(ids) => ErrorView::NonuniqueInsts(identifier_views(ids@)),
            Error::NoOutputs => ErrorView::NoOutputs,
            Error::InstantiableError(text) => ErrorView::InstantiableError(text@),
            Error::DanglingReference(nets) => ErrorView::DanglingReference(net_views(nets@)),
            Error::ArgumentMismatch(expected, got) => ErrorView::ArgumentMismatch(*expected, *got),
            Error::InputNeedsAlias(net) => ErrorView::InputNeedsAlias(net@),
            Error::NetNotFound(net) => ErrorView::NetNotFound(net@),
        }
    }
}

impl ErrorView {
    /// The message that describes the error.
    pub open spec fn message(self) -> Seq<char> {
        match self {
            ErrorView::CycleDetected(nets) => "Cycles detected along nets ["@ + render_names(nets)
                + "]"@,
            ErrorView::ParseError(text) => "Parsing error `"@ + text + "`"@,
            ErrorView::NonuniqueNets(nets) => "Non-unique nets: ["@ + render_names(nets) + "]"@,
            ErrorView::NonuniqueInsts(ids) => "Non-unique instances: ["@ + render_names(ids)
                + "]"@,
            ErrorView::NoOutputs => "No outputs in netlist"@,
            ErrorView::InstantiableError(text) => "Error in the instantiable interface: "@ + text,
            ErrorView::DanglingReference(nets) =>
                "Attempted to create a dangling reference to nets ["@ + render_names(nets) + "]"@,
            ErrorView::ArgumentMismatch(expected, got) => "Expected "@ + decimal_digits(
                expected as nat,
            ) + " arguments, got "@ + decimal_digits(got as nat),
            ErrorView::InputNeedsAlias(net) => "Input net "@ + net.render()
                + " needs an alias to be an output"@,
            ErrorView::NetNotFound(net) => "Expected to find net "@ + net.render()
                + " in netlist"@,
        }
    }
}

impl Error {
    /// The message that describes the error.
    pub fn message(&self) -> (r: String)
        ensures
            r@ == self@.message(),
    {
        match self {
            Error::CycleDetected(nets) => {
                let mut out = String::from_str("Cycles detected along nets [");
                append_net_names(&mut out, nets);
                out.append("]");
                out
            },
            Error::ParseError(text) => {
                let mut out = String::from_str("Parsing error `");
                out.append(text.as_str());
                out.append("`");
                out
            },
            Error::NonuniqueNets(nets) => {
                let mut out = String::from_str("Non-unique nets: [");
                append_net_names(&mut out, nets);
                out.append("]");
                out
            },
            Error::NonuniqueInsts(ids) => {
                let mut out = String::from_str("Non-unique instances: [");
                append_identifier_names(&mut out, ids);
                out.append("]");
                out
            },
            Error::NoOutputs => String::from_str("No outputs in netlist"),
            Error::InstantiableError(text) => {
                let mut out = String::from_str("Error in the instantiable interface: ");
                out.append(text.as_str());
                out
            },
            Error::DanglingReference(nets) => {
                let mut out = String::from_str(
                    "Attempted to create a dangling reference to nets [",
                );
                append_net_names(&mut out, nets);
                out.append("]");
                out
            },
            Error::ArgumentMismatch(expected, got) => {
                let mut out = String::from_str("Expected ");
                out.append(decimal(*expected).as_str());
                out.append(" arguments, got ");
                out.append(decimal(*got).as_str());
                out
            },
            Error::InputNeedsAlias(net) => {
                let mut out = String::from_str("Input net ");
                out.append(net.get_identifier().emit_name().as_str());
                out.append(" needs an alias to be an output");
                out
            },
            Error::NetNotFound(net) => {
                let mut out = String::from_str("Expected to find net ");
                out.append(net.get_identifier().emit_name().as_str());
                out.append(" in netlist");
                out
            },
        }
    }
}

} // verus!
