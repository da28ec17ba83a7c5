use vstd::prelude::*;

verus! {

/// Failures of the event subsystem.
#[derive(Clone, Copy, Debug, PartialEq, Eq, Structural)]
pub enum EventError {
    InvalidId,
}

/// The service-wide error taxonomy.  Credential and token problems are
/// surfaced through these typed variants; each maps to a fixed HTTP status
/// and user-visible message via [`AppError::status_and_message`].
#[derive(Clone, Copy, Debug, PartialEq, Eq, Structural)]
pub enum AppError {
    Event(EventError),
    Database,
    MissingCredentials,
    InvalidPassword,
    UserDoesNotExist,
    UserAlreadyExists,
    InvalidToken,
    InternalServerError,
}

impl AppError {
    /// The HTTP status code and message that the boundary layer reports for
    /// this error.  Every variant maps to a distinct, fixed pair.
    pub fn status_and_message(&self) -> (r: (u16, String))
        ensures
            match *self {
                AppError::Event(EventError::InvalidId) => r.0 == 404 && r.1@ == "InvalidId"@,
                AppError::Database => r.0 == 503 && r.1@ == "database error"@,
                AppError::MissingCredentials => r.0 == 401 && r.1@
                    == "Your credentials were missing or otherwise incorrect"@,
                AppError::InvalidPassword => r.0 == 401 && r.1@ == "Invalid Password"@,
                AppError::UserDoesNotExist => r.0 == 401 && r.1@ == "Your account does not exist!"@,
                AppError::UserAlreadyExists => r.0 == 401 && r.1@
                    == "There is already an account with that email address in the system"@,
                AppError::InvalidToken => r.0 == 401 && r.1@ == "Invalid Token"@,
                AppError::InternalServerError => r.0 == 500 && r.1@
                    == "Something terrible happened"@,
            },
    {
        match *self {
            AppError::Event(EventError::InvalidId) => (404, "InvalidId".to_owned()),
            AppError::Database => (503, "database error".to_owned()),
            AppError::MissingCredentials => (
                401,
                "Your credentials were missing or otherwise incorrect".to_owned(),
            ),
            AppError::InvalidPassword => (401, "Invalid Password".to_owned()),
            AppError::UserDoesNotExist => (401, "Your account does not exist!".to_owned()),
            AppError::UserAlreadyExists => (
                401,
                "There is already an account with that email address in the system".to_owned(),
            ),
            AppError::InvalidToken => (401, "Invalid Token".to_owned()),
            AppError::InternalServerError => (500, "Something terrible happened".to_owned()),
        }
    }
}

} // verus!
