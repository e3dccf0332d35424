//! The shapes the service layer exchanges with its callers, and the
//! error taxonomy of a request: authorization is decided first, then
//! project resolution, then the request's own validity.

use vstd::prelude::*;

verus! {

/// One project as listed to callers.
pub struct ProjectSummary {
    pub name: String,
    pub path: String,
}

/// The response listing every registered project.
pub struct ProjectListResponse {
    pub projects: Vec<ProjectSummary>,
}

/// A project's name, root path, and relative file list.
pub struct ProjectMetadata {
    pub name: String,
    pub path: String,
    pub files: Vec<String>,
}

/// The assembled document returned by an aggregation run.
pub struct ProjectContentResponse {
    pub content: String,
}

/// The relative paths of a project's eligible files.
pub struct ProjectFilesResponse {
    pub files: Vec<String>,
}

/// An error as rendered to callers.
pub struct ErrorResponse {
    pub error: String,
}

/// An aggregation request: specific sub-paths of the project, or the
/// whole project when absent.
pub struct ContexterRequest {
    pub paths: Option<Vec<String>>,
}

/// Why a request was refused: in the order the checks run, the caller's
/// credential matched no stored hash; the named project is not
/// registered; a requested sub-path escapes the project root; or the
/// configured exclusion patterns were refused by the regex engine.
#[derive(Clone, Copy, Debug, PartialEq, Eq, Structural)]
pub enum ServiceError {
    Unauthorized,
    NotFound,
    BadRequest,
    Internal,
}

impl ServiceError {
    /// A fixed description of the error.
    pub fn describe(&self) -> (r: String)
        ensures
            match self {
                ServiceError::Unauthorized => r@ == "Invalid or missing API key"@,
                ServiceError::NotFound => r@ == "Project not found"@,
                ServiceError::BadRequest => r@ == "Invalid request path"@,
                ServiceError::Internal => r@ == "Internal server error"@,
            },
    {
        match self {
            ServiceError::Unauthorized => String::from_str("Invalid or missing API key"),
            ServiceError::NotFound => String::from_str("Project not found"),
            ServiceError::BadRequest => String::from_str("Invalid request path"),
            ServiceError::Internal => String::from_str("Internal server error"),
        }
    }
}

} // verus!
