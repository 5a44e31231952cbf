use vstd::prelude::*;
use vstd::string::StringExecFns;

verus! {

/// A user-facing stop: a refused input, a missing index, or an abort request.
#[derive(Debug, Default)]
pub struct AbortError {
    pub message: String,
}

/// An unexpected failure of a lower layer, tagged with the place that met it.
#[derive(Debug)]
pub struct CaughtError {
    pub caller: String,
    pub error: String,
}

/// Every failure the library reports.
#[derive(Debug)]
pub enum AppError {
    Caught(CaughtError),
    Abort(AbortError),
}

impl AppError {
    /// A user-facing error that carries `message`.
    pub fn new(message: String) -> (r: AppError)
        ensures
            r matches AppError::Abort(a) && a.message@ == message@,
    {
        AppError::Abort(AbortError { message })
    }

    /// The text shown for this error: the message of a stop, or the place of an
    /// unexpected failure followed by what failed.
    pub fn to_message(&self) -> (r: String)
        ensures
            self matches AppError::Abort(a) ==> r@ == a.message@,
            self matches AppError::Caught(c) ==> r@ == c.caller@ + " "@ + c.error@,
    {
        match self {
            AppError::Abort(abort) => abort.message.clone(),
            AppError::Caught(caught) => {
                let mut text = caught.caller.clone();
                text.append(" ");
                text.append(caught.error.as_str());
                text
            },
        }
    }

    /// Whether this is a user-facing stop rather than an unexpected failure.
    pub fn is_abort(&self) -> (r: bool)
        ensures
            r == (*self is Abort),
    {
        match self {
            AppError::Abort(_) => true,
            AppError::Caught(_) => false,
        }
    }
}

/// `e` is a user-facing stop with message `m`.
pub open spec fn is_abort_with(e: AppError, m: Seq<char>) -> bool {
    e matches AppError::Abort(a) && a.message@ == m
}

/// Turns a failure that was already located into the library's error.
pub trait AppErrorResult<T>: Sized {
    fn app_err(self) -> Result<T, AppError>;
}

impl<T> AppErrorResult<T> for Result<T, CaughtError> {
    fn app_err(self) -> (r: Result<T, AppError>)
        ensures
            self is Ok ==> r == Ok::<T, AppError>(self->Ok_0),
            self is Err ==> r == Err::<T, AppError>(AppError::Caught(self->Err_0)),
    {
        match self {
            Ok(value) => Ok(value),
            Err(err) => Err(AppError::Caught(err)),
        }
    }
}

} // verus!
