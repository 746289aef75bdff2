//! A transaction and the record that writes it down.

use super::text::{
    fields, parse_unsigned, read_unsigned, span_texts, split_fields, to_chars, IntErrorKind, Span,
};
use vstd::prelude::*;

verus! {

/// A timestamp.
pub type Timestamp = u64;

/// The identifier of a transaction.
pub type TxId = usize;

/// How many fields a record has.
pub const EXPECTED_FIELDS_NUMBER: usize = 3;

/// A transaction: the two earlier transactions that it approves, and when it
/// was made.
#[derive(Debug, Clone, PartialEq, Eq, Structural)]
pub struct Transaction {
    /// The transaction's left parent.
    pub left: TxId,
    /// The transaction's right parent.
    pub right: TxId,
    /// The transaction's timestamp.
    pub timestamp: Timestamp,
}

/// A field of a record that is not a number of its type.
#[derive(Debug, Clone, Copy, PartialEq, Eq, Structural)]
pub struct FieldError {
    /// The place of the field in its record: 0 for the left parent, 1 for the
    /// right parent, 2 for the timestamp.
    pub field: usize,
    /// What is wrong with the field.
    pub kind: IntErrorKind,
}

/// Why a line is not the record of a transaction.
#[derive(Debug, Clone, PartialEq, Eq, Structural)]
pub enum ParseTxError {
    /// A field is not a number; of several, the leftmost is reported.
    ParseIntError(FieldError),
    /// The line has not the expected number of fields, the first number, but the
    /// second.
    WrongFieldsNumberError(usize, usize),
}

/// The error for the field at place `field`.
pub open spec fn field_error(field: usize, kind: IntErrorKind) -> ParseTxError {
    ParseTxError::ParseIntError(FieldError { field, kind })
}

/// What a line says as a record: three fields, the two parents and the
/// timestamp, each an unsigned decimal number of its type.
pub open spec fn parse_record(line: Seq<char>) -> Result<Transaction, ParseTxError> {
    let f = fields(line);
    if f.len() != EXPECTED_FIELDS_NUMBER {
        Err(ParseTxError::WrongFieldsNumberError(EXPECTED_FIELDS_NUMBER, f.len() as usize))
    } else {
        match parse_unsigned(f[0], usize::MAX as nat) {
            Err(kind) => Err(field_error(0, kind)),
            Ok(left) => match parse_unsigned(f[1], usize::MAX as nat) {
                Err(kind) => Err(field_error(1, kind)),
                Ok(right) => match parse_unsigned(f[2], u64::MAX as nat) {
                    Err(kind) => Err(field_error(2, kind)),
                    Ok(timestamp) => Ok(
                        Transaction {
                            left: left as usize,
                            right: right as usize,
                            timestamp: timestamp as u64,
                        },
                    ),
                },
            },
        }
    }
}

/// Reads the field at place `field` of a record as a transaction's identifier.
fn read_id(text: &Vec<char>, span: Span, field: usize) -> (r: Result<TxId, ParseTxError>)
    requires
        span.0 <= span.1 <= text@.len(),
    ensures
        match parse_unsigned(text@.subrange(span.0 as int, span.1 as int), usize::MAX as nat) {
            Ok(n) => r == Ok::<TxId, ParseTxError>(n as usize) && n <= usize::MAX,
            Err(kind) => r == Err::<TxId, ParseTxError>(field_error(field, kind)),
        },
{
    match read_unsigned(text, span, usize::MAX as u64) {
        Ok(n) => Ok(n as usize),
        Err(kind) => Err(ParseTxError::ParseIntError(FieldError { field, kind })),
    }
}

/// Reads the line that stands at `line` as a record.
pub fn read_record(text: &Vec<char>, line: Span) -> (r: Result<Transaction, ParseTxError>)
    requires
        line.0 <= line.1 <= text@.len(),
    ensures
        r == parse_record(text@.subrange(line.0 as int, line.1 as int)),
{
    let spans = split_fields(text, line);
    let ghost f = fields(text@.subrange(line.0 as int, line.1 as int));
    assert(f.len() == spans@.len());
    if spans.len() != EXPECTED_FIELDS_NUMBER {
        return Err(ParseTxError::WrongFieldsNumberError(EXPECTED_FIELDS_NUMBER, spans.len()));
    }
    proof {
        assert(f[0] == span_texts(text@, spans@)[0]);
        assert(f[1] == span_texts(text@, spans@)[1]);
        assert(f[2] == span_texts(text@, spans@)[2]);
    }
    let left = match read_id(text, spans[0], 0) {
        Ok(id) => id,
        Err(e) => {
            return Err(e);
        },
    };
    let right = match read_id(text, spans[1], 1) {
        Ok(id) => id,
        Err(e) => {
            return Err(e);
        },
    };
    match read_unsigned(text, spans[2], u64::MAX) {
        Ok(timestamp) => Ok(Transaction { left, right, timestamp }),
        Err(kind) => Err(ParseTxError::ParseIntError(FieldError { field: 2, kind })),
    }
}

impl Transaction {
    /// Makes a transaction of its two parents and its timestamp.
    pub fn new(left: TxId, right: TxId, timestamp: Timestamp) -> (tx: Self)
        ensures
            tx == (Transaction { left, right, timestamp }),
    {
        Self { left, right, timestamp }
    }
}

impl std::str::FromStr for Transaction {
    type Err = ParseTxError;

    /// Reads a transaction from the record that writes it down.
    fn from_str(s: &str) -> (r: Result<Self, Self::Err>)
        ensures
            r == parse_record(s@),
    {
        let text = to_chars(s);
        proof {
            assert(text@.subrange(0, text@.len() as int) =~= s@);
        }
        read_record(&text, (0, text.len()))
    }
}

} // verus!
