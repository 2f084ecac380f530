//! The error vocabulary of the library, with the one-line message each
//! kind is reported with.

use vstd::prelude::*;

verus! {

/// Everything that can go wrong in the library's own operations.
#[derive(Clone, Copy, PartialEq, Eq, Structural, Debug)]
pub enum SemError {
    /// Operator-supplied text does not parse as required.
    InvalidInput,
    /// The operator declined to persist a captured expense.
    NotSaved,
    /// The store file or its directory cannot be used.
    StorageUnavailable,
    /// A row of the store does not parse as an expense.
    MalformedRecord,
    /// A requested year/month/week does not name a week of that month.
    InvalidWeekSelector,
}

/// The message text each error kind is reported with.
pub open spec fn message_seq(e: SemError) -> Seq<char> {
    match e {
        SemError::InvalidInput => "Please enter a valid number"@,
        SemError::NotSaved => "Expense not saved"@,
        SemError::StorageUnavailable => "The expense store cannot be opened or written"@,
        SemError::MalformedRecord => "A row of the expense store is malformed"@,
        SemError::InvalidWeekSelector => "Invalid week number for the given month and year."@,
    }
}

impl SemError {
    /// The one-line, human-readable message for this error.
    pub fn message(&self) -> (s: String)
        ensures
            s@ == message_seq(*self),
    {
        match self {
            SemError::InvalidInput => "Please enter a valid number".to_owned(),
            SemError::NotSaved => "Expense not saved".to_owned(),
            SemError::StorageUnavailable => "The expense store cannot be opened or written"
                .to_owned(),
            SemError::MalformedRecord => "A row of the expense store is malformed".to_owned(),
            SemError::InvalidWeekSelector => "Invalid week number for the given month and year."
                .to_owned(),
        }
    }
}

} // verus!
