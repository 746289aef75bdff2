//! The ledger database: a first line with the number of records, then one
//! record to a line. The transactions are numbered from 2 in the order of their
//! records, the root being 1.

use super::error::LedgerError;
use super::graph::Transactions;
use super::text::{
    is_blank, is_blank_line, lemma_lines_len, lines, parse_unsigned, read_unsigned, span_texts,
    spans_within, split_lines, to_chars, IntErrorKind,
};
use super::transaction::{parse_record, read_record, ParseTxError, Transaction, TxId};
use std::collections::HashMap;
use vstd::prelude::*;

verus! {

/// The identifier of the transaction that the first record writes down.
pub const FIRST_ID: TxId = 2;

/// The lines without the blank ones at their end.
pub open spec fn trim_blank(all: Seq<Seq<char>>) -> Seq<Seq<char>>
    decreases all.len(),
{
    if all.len() > 0 && is_blank(all.last()) {
        trim_blank(all.drop_last())
    } else {
        all
    }
}

/// The lines that hold the records of a database: those after the first, without
/// the blank ones at the end.
pub open spec fn record_lines(all: Seq<Seq<char>>) -> Seq<Seq<char>> {
    trim_blank(all.skip(1))
}

/// The transactions that the lines write down as records, in their order; or
/// what is wrong with the first line that is no record.
pub open spec fn parse_records(records: Seq<Seq<char>>) -> Result<Seq<Transaction>, ParseTxError>
    decreases records.len(),
{
    if records.len() == 0 {
        Ok(Seq::empty())
    } else {
        match parse_records(records.drop_last()) {
            Err(e) => Err(e),
            Ok(transactions) => match parse_record(records.last()) {
                Err(e) => Err(e),
                Ok(transaction) => Ok(transactions.push(transaction)),
            },
        }
    }
}

/// The transactions by their identifiers, which start at 2 and follow the order
/// of the sequence.
pub open spec fn numbered(transactions: Seq<Transaction>) -> Map<TxId, Transaction> {
    Map::new(
        |id: TxId| FIRST_ID <= id < transactions.len() + FIRST_ID,
        |id: TxId| transactions[id - FIRST_ID],
    )
}

/// What a text says as a ledger database: its transactions by their
/// identifiers, or what is wrong with it.
pub open spec fn parse_database(text: Seq<char>) -> Result<Map<TxId, Transaction>, LedgerError> {
    let all = lines(text);
    let records = record_lines(all);
    if all.len() == 0 {
        Err(LedgerError::EmptyDatabase)
    } else {
        match parse_unsigned(all[0], usize::MAX as nat) {
            Err(kind) => Err(LedgerError::ParseIntError(kind)),
            Ok(declared) => if declared != records.len() {
                Err(LedgerError::WrongTxNumberError(declared as usize, records.len() as usize))
            } else {
                match parse_records(records) {
                    Err(e) => Err(LedgerError::ParseTxError(e)),
                    Ok(transactions) => Ok(numbered(transactions)),
                }
            },
        }
    }
}

/// Once a line is no record, no line after it is looked at.
proof fn lemma_parse_records_sticks(records: Seq<Seq<char>>, n: int)
    requires
        0 <= n <= records.len(),
        parse_records(records.take(n)) is Err,
    ensures
        parse_records(records) == parse_records(records.take(n)),
    decreases records.len() - n,
{
    if n < records.len() {
        assert(records.take(n + 1).drop_last() =~= records.take(n));
        lemma_parse_records_sticks(records, n + 1);
    } else {
        assert(records.take(n) =~= records);
    }
}

/// Lines that are records, every one, are read as that many transactions, each
/// what its line writes down.
pub proof fn lemma_parse_records_ok(records: Seq<Seq<char>>)
    requires
        forall|i: int| 0 <= i < records.len() ==> parse_record(#[trigger] records[i]) is Ok,
    ensures
        parse_records(records) matches Ok(transactions) && transactions.len() == records.len()
            && forall|i: int|
            0 <= i < records.len() ==> parse_record(records[i]) == Ok::<Transaction, ParseTxError>(
                #[trigger] transactions[i],
            ),
    decreases records.len(),
{
    if records.len() > 0 {
        let front = records.drop_last();
        assert forall|i: int| 0 <= i < front.len() implies parse_record(
            #[trigger] front[i],
        ) is Ok by {
            assert(front[i] == records[i]);
        }
        lemma_parse_records_ok(front);
        assert(parse_record(records[records.len() - 1]) is Ok);
        let transactions = parse_records(records)->Ok_0;
        assert forall|i: int| 0 <= i < records.len() implies parse_record(records[i]) == Ok::<
            Transaction,
            ParseTxError,
        >(#[trigger] transactions[i]) by {
            if i < front.len() {
                assert(front[i] == records[i]);
            }
        }
    }
}

/// Numbering gives as many identifiers as there are transactions: those from 2
/// on, without a gap.
pub proof fn lemma_numbered(transactions: Seq<Transaction>)
    requires
        transactions.len() + FIRST_ID <= usize::MAX + 1,
    ensures
        numbered(transactions).dom().finite(),
        numbered(transactions).len() == transactions.len(),
        forall|id: TxId|
            numbered(transactions).contains_key(id) <==> FIRST_ID <= id <= transactions.len() + 1,
    decreases transactions.len(),
{
    if transactions.len() == 0 {
        assert(numbered(transactions).dom() =~= Set::<TxId>::empty());
    } else {
        let front = transactions.drop_last();
        lemma_numbered(front);
        let id = (front.len() + FIRST_ID) as TxId;
        assert(numbered(transactions).dom() =~= numbered(front).dom().insert(id));
    }
}

/// Leaving out the blank lines at the end leaves no more lines than there were.
proof fn lemma_trim_blank_len(all: Seq<Seq<char>>)
    ensures
        trim_blank(all).len() <= all.len(),
    decreases all.len(),
{
    if all.len() > 0 && is_blank(all.last()) {
        lemma_trim_blank_len(all.drop_last());
    }
}

/// A database whose first line is the number of the record lines that follow,
/// each of them a record, is read as that many transactions: the record at the
/// place `i`, counted from 0, gives the transaction `i + 2`.
pub proof fn lemma_well_formed_database(text: Seq<char>, declared: nat)
    requires
        text.len() <= usize::MAX,
        lines(text).len() > 0,
        parse_unsigned(lines(text)[0], usize::MAX as nat) == Ok::<nat, IntErrorKind>(declared),
        record_lines(lines(text)).len() == declared,
        forall|i: int|
            0 <= i < declared ==> parse_record(#[trigger] record_lines(lines(text))[i]) is Ok,
    ensures
        parse_database(text) matches Ok(transactions) && {
            &&& transactions.dom().finite()
            &&& transactions.len() == declared
            &&& forall|id: TxId|
                transactions.contains_key(id) <==> FIRST_ID <= id <= declared + 1
            &&& forall|id: TxId|
                FIRST_ID <= id <= declared + 1 ==> parse_record(
                    record_lines(lines(text))[id - FIRST_ID],
                ) == Ok::<Transaction, ParseTxError>(#[trigger] transactions[id])
        },
{
    let records = record_lines(lines(text));
    lemma_lines_len(text);
    lemma_trim_blank_len(lines(text).skip(1));
    lemma_parse_records_ok(records);
    lemma_numbered(parse_records(records)->Ok_0);
}

/// Reads the provided database and returns its transactions by their
/// identifiers.
pub fn read_txs_from_db(database: &str) -> (r: Result<Transactions, LedgerError>)
    ensures
        r matches Ok(transactions) ==> parse_database(database@) == Ok::<
            Map<TxId, Transaction>,
            LedgerError,
        >(transactions@),
        r matches Err(e) ==> parse_database(database@) == Err::<
            Map<TxId, Transaction>,
            LedgerError,
        >(e),
{
    let text = to_chars(database);
    let spans = split_lines(&text);
    let ghost all = lines(text@);
    proof {
        assert(all.len() == spans@.len());
    }
    if spans.len() == 0 {
        return Err(LedgerError::EmptyDatabase);
    }
    proof {
        assert(all[0] == span_texts(text@, spans@)[0]);
    }
    let declared: usize = match read_unsigned(&text, spans[0], usize::MAX as u64) {
        Ok(n) => n as usize,
        Err(kind) => {
            return Err(LedgerError::ParseIntError(kind));
        },
    };
    let mut end: usize = spans.len();
    proof {
        assert(all.subrange(1, end as int) =~= all.skip(1));
    }
    while end > 1 && is_blank_line(&text, spans[end - 1])
        invariant
            1 <= end <= spans@.len(),
            all == lines(text@),
            all == span_texts(text@, spans@),
            spans_within(spans@, text@.len()),
            trim_blank(all.subrange(1, end as int)) == record_lines(all),
        decreases end,
    {
        proof {
            let part = all.subrange(1, end as int);
            assert(part.last() == span_texts(text@, spans@)[end - 1]);
            assert(part.drop_last() =~= all.subrange(1, end - 1));
        }
        end -= 1;
    }
    let ghost records = all.subrange(1, end as int);
    proof {
        if end > 1 {
            assert(records.last() == span_texts(text@, spans@)[end - 1]);
        }
        assert(records == record_lines(all));
    }
    let count: usize = end - 1;
    if declared != count {
        return Err(LedgerError::WrongTxNumberError(declared, count));
    }
    let mut transactions: Transactions = HashMap::new();
    let ghost mut parsed: Seq<Transaction> = Seq::empty();
    let mut at: usize = 1;
    proof {
        assert(records.take(0) =~= Seq::<Seq<char>>::empty());
        assert(transactions@ =~= numbered(parsed));
    }
    while at < end
        invariant
            1 <= at <= end <= spans@.len(),
            all == span_texts(text@, spans@),
            spans_within(spans@, text@.len()),
            records == all.subrange(1, end as int),
            all == lines(text@),
            text@ == database@,
            records == record_lines(all),
            parse_unsigned(all[0], usize::MAX as nat) == Ok::<nat, IntErrorKind>(
                declared as nat,
            ),
            declared == records.len(),
            parsed.len() == at - 1,
            parse_records(records.take(at - 1)) == Ok::<Seq<Transaction>, ParseTxError>(parsed),
            transactions@ == numbered(parsed),
        decreases end - at,
    {
        proof {
            let upto = records.take(at as int);
            assert(upto.drop_last() =~= records.take(at - 1));
            assert(upto.last() == span_texts(text@, spans@)[at as int]);
        }
        match read_record(&text, spans[at]) {
            Ok(transaction) => {
                proof {
                    assert(numbered(parsed.push(transaction)) =~= numbered(parsed).insert(
                        (at + 1) as TxId,
                        transaction,
                    ));
                    parsed = parsed.push(transaction);
                }
                transactions.insert(at + 1, transaction);
            },
            Err(e) => {
                proof {
                    lemma_parse_records_sticks(records, at as int);
                }
                return Err(LedgerError::ParseTxError(e));
            },
        }
        at += 1;
    }
    proof {
        assert(records.take(end - 1) =~= records);
    }
    Ok(transactions)
}

} // verus!
