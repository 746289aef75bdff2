//! What can be wrong with a ledger database.

use super::text::IntErrorKind;
use super::transaction::ParseTxError;
use vstd::prelude::*;

verus! {

/// Why a text is not a ledger database.
#[derive(Debug, Clone, PartialEq, Eq, Structural)]
pub enum LedgerError {
    /// The text has no line.
    EmptyDatabase,
    /// The first line is not the number of records.
    ParseIntError(IntErrorKind),
    /// A line is not a record; of several, the first is reported.
    ParseTxError(ParseTxError),
    /// The first line announces the first number of records, and the second
    /// number of them follows.
    WrongTxNumberError(usize, usize),
}

} // verus!
