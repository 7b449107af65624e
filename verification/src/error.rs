//! Errors of the attribution pipeline.

use vstd::prelude::*;

verus! {

/// What can stop a run: the input record stream cannot be parsed, or the
/// accumulated sizes exceed what the counters can hold.
#[derive(Debug)]
pub enum BloatyError {
    /// The input text is not a well-formed record stream.
    CsvParse(String),
    /// Accumulated sizes would overflow a 64-bit counter.
    SizeOverflow,
}

impl BloatyError {
    /// A human-readable description of the error.
    pub fn message(&self) -> (r: String)
        ensures
            self matches BloatyError::CsvParse(m) ==> r@ == m@,
            self is SizeOverflow ==> r@ == "accumulated sizes overflow"@,
    {
        match self {
            BloatyError::CsvParse(m) => m.clone(),
            BloatyError::SizeOverflow => String::from_str("accumulated sizes overflow"),
        }
    }
}

} // verus!
