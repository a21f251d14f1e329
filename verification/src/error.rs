use vstd::prelude::*;

verus! {

/// The gRPC status codes that the service answers with.
#[derive(Clone, Copy, Debug, PartialEq, Eq, Structural)]
pub enum StatusCode {
    InvalidArgument,
    FailedPrecondition,
    NotFound,
    OutOfRange,
    Internal,
}

/// An error answered to a client: a status code and a human-readable message.
#[derive(Debug)]
pub struct RunnerError {
    pub code: StatusCode,
    pub message: String,
}

/// The mathematical value of a `RunnerError`.
pub struct ErrorView {
    pub code: StatusCode,
    pub message: Seq<char>,
}

impl View for RunnerError {
    type V = ErrorView;

    open spec fn view(&self) -> ErrorView {
        ErrorView { code: self.code, message: self.message@ }
    }
}

/// The error of a unit result, if any, by its view.
pub open spec fn unit_error(r: Result<(), RunnerError>) -> Option<ErrorView> {
    match r {
        Ok(()) => None,
        Err(e) => Some(e@),
    }
}

pub open spec fn invalid_argument(message: Seq<char>) -> ErrorView {
    ErrorView { code: StatusCode::InvalidArgument, message }
}

impl RunnerError {
    pub fn new(code: StatusCode, message: String) -> (e: RunnerError)
        ensures
            e.code == code,
            e.message@ == message@,
    {
        RunnerError { code, message }
    }
}

} // verus!
