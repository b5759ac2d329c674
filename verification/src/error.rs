//! Why a tool gives no result.

use crate::json::{fields_are, holds, Json, Tree};
use vstd::prelude::*;

verus! {

/// An error of a tool, with its message.
#[derive(Debug, PartialEq, Eq)]
pub enum ToolError {
    /// The caller's input is refused; nothing was asked.
    InvalidParams(String),
    /// The service could not be asked, or its answer could not be used.
    Internal(String),
    /// There is no key with which to ask the service.
    NotConfigured,
}

/// What an error says.
pub enum Fault {
    InvalidParams(Seq<char>),
    Internal(Seq<char>),
    NotConfigured,
}

impl View for ToolError {
    type V = Fault;

    open spec fn view(&self) -> Fault {
        match *self {
            ToolError::InvalidParams(m) => Fault::InvalidParams(m@),
            ToolError::Internal(m) => Fault::Internal(m@),
            ToolError::NotConfigured => Fault::NotConfigured,
        }
    }
}

/// The service could not be asked, or its answer could not be used.
pub fn internal_error(message: String) -> (r: ToolError)
    ensures
        r@ == Fault::Internal(message@),
{
    ToolError::Internal(message)
}

/// The caller's input is refused.
pub fn invalid_params_error(message: String) -> (r: ToolError)
    ensures
        r@ == Fault::InvalidParams(message@),
{
    ToolError::InvalidParams(message)
}

/// The heading under which an error is reported.
pub open spec fn fault_title(f: Fault) -> Seq<char> {
    match f {
        Fault::InvalidParams(_) => "Invalid params"@,
        Fault::Internal(_) => "Internal error"@,
        Fault::NotConfigured => "TypeSafe API key not configured"@,
    }
}

/// The message of an error.
pub open spec fn fault_message(f: Fault) -> Seq<char> {
    match f {
        Fault::InvalidParams(m) => m,
        Fault::Internal(m) => m,
        Fault::NotConfigured => "Pass --typesafe-api-key or set TYPESAFE_API_KEY environment variable"@,
    }
}

impl ToolError {
    /// The heading under which the error is reported.
    pub fn title(&self) -> (r: &'static str)
        ensures
            r@ == fault_title(self@),
    {
        match self {
            ToolError::InvalidParams(_) => "Invalid params",
            ToolError::Internal(_) => "Internal error",
            ToolError::NotConfigured => "TypeSafe API key not configured",
        }
    }

    /// The document that goes with the error: an object with the message under `error`.
    pub fn data(&self) -> (r: Json)
        ensures
            r@ == Tree::Object(map!["error"@ => Tree::Text(fault_message(self@))]),
    {
        match self {
            ToolError::InvalidParams(m) => Json::object().with("error", Json::text(m)),
            ToolError::Internal(m) => Json::object().with("error", Json::text(m)),
            ToolError::NotConfigured => Json::object().with(
                "error",
                Json::text("Pass --typesafe-api-key or set TYPESAFE_API_KEY environment variable"),
            ),
        }
    }
}

/// An error is reported under the heading of its kind and with its own message; where no key
/// is configured the message says how to give one.
pub proof fn law_errors_are_reported(error: ToolError)
    ensures
        error matches ToolError::InvalidParams(m) ==> fault_title(error@) == "Invalid params"@
            && fault_message(error@) == m@,
        error matches ToolError::Internal(m) ==> fault_title(error@) == "Internal error"@
            && fault_message(error@) == m@,
        error is NotConfigured ==> fault_title(error@) == "TypeSafe API key not configured"@
            && fault_message(error@)
            == "Pass --typesafe-api-key or set TYPESAFE_API_KEY environment variable"@,
{
}

/// The heading of an error is that of its kind, and the document that goes with it holds its
/// message under `error` and nothing else.
pub proof fn law_errors_are_written(error: ToolError, title: &str, data: Json)
    requires
        call_ensures(ToolError::title, (&error,), title),
        call_ensures(ToolError::data, (&error,), data),
    ensures
        fields_are(data@, set!["error"@]),
        error matches ToolError::InvalidParams(m) ==> title@ == "Invalid params"@ && holds(
            data@,
            "error"@,
            Tree::Text(m@),
        ),
        error matches ToolError::Internal(m) ==> title@ == "Internal error"@ && holds(
            data@,
            "error"@,
            Tree::Text(m@),
        ),
        error is NotConfigured ==> title@ == "TypeSafe API key not configured"@ && holds(
            data@,
            "error"@,
            Tree::Text(
                "Pass --typesafe-api-key or set TYPESAFE_API_KEY environment variable"@,
            ),
        ),
{
    assert(data@->Object_0.dom() =~= set!["error"@]);
}

} // verus!
