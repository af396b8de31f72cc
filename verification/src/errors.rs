//! Error values surfaced by the ingestion pipeline.

use vstd::prelude::*;

verus! {

use vstd::string::StringExecFns;

/// A file's path could not be represented in the expected key form.
#[derive(Debug)]
pub struct NotAvailableError;

impl NotAvailableError {
    /// The human-readable description of the error.
    pub fn message(&self) -> (r: String)
        ensures
            r@ == "File 'not available' error"@,
    {
        String::from_str("File 'not available' error")
    }
}

/// A required external dependency or credential was unavailable at startup.
#[derive(Debug)]
pub struct SetupError(pub &'static str);

impl SetupError {
    /// The human-readable description of the error.
    pub fn message(&self) -> (r: String)
        ensures
            r@ == "Error: "@ + self.0@,
    {
        let mut r = String::from_str("Error: ");
        r.append(self.0);
        r
    }
}

/// An embedding call failed or returned an unusable result.
#[derive(Debug)]
pub struct EmbeddingError;

impl EmbeddingError {
    /// The human-readable description of the error.
    pub fn message(&self) -> (r: String)
        ensures
            r@ == "Embedding error"@,
    {
        String::from_str("Embedding error")
    }
}

} // verus!
