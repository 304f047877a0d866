use vstd::prelude::*;

verus! {

/// The errors of the library.
#[derive(Debug)]
pub enum AppError {
    NetworkError(String),
    BackendServerError(String),
    /// The backend list is empty or the strategy name is unknown; fatal at startup.
    ConfigError(String),
    /// Every backend that the strategy may pick is marked not alive; recoverable per request.
    NoBackendAvailable,
    Unknown,
}

} // verus!
