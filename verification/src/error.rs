use vstd::prelude::*;

verus! {

/// Error raised by every fallible operation of the library.
#[derive(Debug, Clone, PartialEq, Eq)]
pub enum CartoBoostError {
    /// The caller handed over an input that the operation rejects.
    InvalidInput(String),
}

/// Result alias used across the library.
pub type Result<T> = core::result::Result<T, CartoBoostError>;

impl CartoBoostError {
    /// The text carried by the error.
    pub open spec fn text(&self) -> Seq<char> {
        match self {
            CartoBoostError::InvalidInput(message) => message@,
        }
    }

    /// Human-readable rendering: `invalid input: <text>`.
    pub fn message(&self) -> (rendered: String)
        ensures
            rendered@ == "invalid input: "@ + self.text(),
    {
        match self {
            CartoBoostError::InvalidInput(text) => {
                let prefix = String::from_str("invalid input: ");
                prefix.concat(text.as_str())
            },
        }
    }
}

/// Builds an `InvalidInput` error whose text is `message`.
pub fn invalid_input(message: &str) -> (error: CartoBoostError)
    ensures
        error.text() == message@,
{
    CartoBoostError::InvalidInput(String::from_str(message))
}

/// Projects a library result onto its plain value and error text.
pub open spec fn outcome<T>(result: Result<T>) -> core::result::Result<T, Seq<char>> {
    match result {
        Ok(value) => Ok(value),
        Err(error) => Err(error.text()),
    }
}

} // verus!
