//! Events as rows of comma-separated text.
//!
//! A row names the kind of event, the client and the transaction, and for a
//! deposit or withdrawal the amount:
//!
//! ```text
//! deposit, 1, 7, 12.5
//! withdrawal, 1, 8, 2.25
//! dispute, 1, 7
//! resolve, 1, 7
//! chargeback, 1, 7
//! ```
//!
//! White space around a column is ignored. A row holds the columns that its
//! kind of event asks for and no more: anything behind the last of them, be
//! it only a comma, makes the row no event. Client and transaction are
//! written as Rust writes unsigned integers; the amount is written as
//! [`crate::amount::amount`] says. A withdrawal becomes a transaction with
//! the amount negated.

use crate::amount::{amount, parse_amount};
use crate::events::{Chargeback, Dispute, Event, Resolve, Transaction};
use crate::text::{
    after, before, characters, count, find, lemma_count_after, parse_unsigned, trim, trim_range,
    unsigned,
};
use vstd::prelude::*;
use vstd::string::{StrSliceExecFns, StringExecFns};

verus! {

/// Why a row is not an event.
#[derive(Debug, PartialEq, Eq)]
pub enum FromCsvRowError {
    /// The first column names no kind of event; it is held as written.
    InvalidEventType(String),
    /// There is no first column. No row gives this: even an empty row has an
    /// empty first column.
    MissingTransactionType,
    /// The client column, held as written, is no 16-bit unsigned integer.
    InvalidClientId(String),
    /// There is no client column.
    MissonClientId,
    /// The transaction column, held as written, is no 32-bit unsigned integer.
    InvalidTransactionId(String),
    /// There is no transaction column.
    MissingTransactionId,
    /// The amount column, held as written, is no amount.
    InvalidAmount(String),
    /// There is no amount column.
    MissingAmount,
    /// Something stands behind the last column that the kind of event asks
    /// for; it is held as written, from behind the comma that follows that
    /// column to the end of the row.
    UnexpectedColumns(String),
}

/// Why a row is not an event, with the offending column as a list of
/// characters.
pub enum RowError {
    InvalidEventType(Seq<char>),
    MissingTransactionType,
    InvalidClientId(Seq<char>),
    MissonClientId,
    InvalidTransactionId(Seq<char>),
    MissingTransactionId,
    InvalidAmount(Seq<char>),
    MissingAmount,
    UnexpectedColumns(Seq<char>),
}

impl View for FromCsvRowError {
    type V = RowError;

    open spec fn view(&self) -> RowError {
        match *self {
            FromCsvRowError::InvalidEventType(column) => RowError::InvalidEventType(column@),
            FromCsvRowError::MissingTransactionType => RowError::MissingTransactionType,
            FromCsvRowError::InvalidClientId(column) => RowError::InvalidClientId(column@),
            FromCsvRowError::MissonClientId => RowError::MissonClientId,
            FromCsvRowError::InvalidTransactionId(column) => RowError::InvalidTransactionId(
                column@,
            ),
            FromCsvRowError::MissingTransactionId => RowError::MissingTransactionId,
            FromCsvRowError::InvalidAmount(column) => RowError::InvalidAmount(column@),
            FromCsvRowError::MissingAmount => RowError::MissingAmount,
            FromCsvRowError::UnexpectedColumns(columns) => RowError::UnexpectedColumns(columns@),
        }
    }
}

impl RowError {
    /// The error in words.
    pub open spec fn message(self) -> Seq<char> {
        match self {
            RowError::InvalidEventType(column) => "invalid transaction type: "@ + column,
            RowError::MissingTransactionType => "missing transaction type"@,
            RowError::InvalidClientId(column) => "invalid client ID: "@ + column,
            RowError::MissonClientId => "missing client ID"@,
            RowError::InvalidTransactionId(column) => "invalid transaction ID: "@ + column,
            RowError::MissingTransactionId => "missing transaction ID"@,
            RowError::InvalidAmount(column) => "invalid amount: "@ + column,
            RowError::MissingAmount => "missing amount"@,
            RowError::UnexpectedColumns(columns) => "unexpected columns: "@ + columns,
        }
    }
}

impl FromCsvRowError {
    /// The error in words.
    pub fn message(&self) -> (words: String)
        ensures
            words@ == self@.message(),
    {
        match self {
            FromCsvRowError::InvalidEventType(column) => String::from_str(
                "invalid transaction type: ",
            ).concat(column.as_str()),
            FromCsvRowError::MissingTransactionType => String::from_str("missing transaction type"),
            FromCsvRowError::InvalidClientId(column) => String::from_str(
                "invalid client ID: ",
            ).concat(column.as_str()),
            FromCsvRowError::MissonClientId => String::from_str("missing client ID"),
            FromCsvRowError::InvalidTransactionId(column) => String::from_str(
                "invalid transaction ID: ",
            ).concat(column.as_str()),
            FromCsvRowError::MissingTransactionId => String::from_str("missing transaction ID"),
            FromCsvRowError::InvalidAmount(column) => String::from_str("invalid amount: ").concat(
                column.as_str(),
            ),
            FromCsvRowError::MissingAmount => String::from_str("missing amount"),
            FromCsvRowError::UnexpectedColumns(columns) => String::from_str(
                "unexpected columns: ",
            ).concat(columns.as_str()),
        }
    }
}

/// The client and the transaction that the columns of `rest` name, and the
/// columns behind them.
pub open spec fn reference(rest: Option<Seq<char>>) -> Result<
    (u16, u32, Option<Seq<char>>),
    RowError,
> {
    match rest {
        None => Err(RowError::MissonClientId),
        Some(columns) => match unsigned(trim(before(columns, ',')), u16::MAX as int) {
            None => Err(RowError::InvalidClientId(before(columns, ','))),
            Some(client) => match after(columns, ',') {
                None => Err(RowError::MissingTransactionId),
                Some(columns) => match unsigned(trim(before(columns, ',')), u32::MAX as int) {
                    None => Err(RowError::InvalidTransactionId(before(columns, ','))),
                    Some(id) => Ok((client as u16, id as u32, after(columns, ','))),
                },
            },
        },
    }
}

/// The amount that the first column of `rest` writes, and the columns
/// behind it.
pub open spec fn amount_column(rest: Option<Seq<char>>) -> Result<
    (i64, Option<Seq<char>>),
    RowError,
> {
    match rest {
        None => Err(RowError::MissingAmount),
        Some(columns) => match amount(trim(before(columns, ','))) {
            None => Err(RowError::InvalidAmount(before(columns, ','))),
            Some(value) => Ok((value as i64, after(columns, ','))),
        },
    }
}

/// The event of a row whose columns have all been read and written `event`:
/// the row is that event where nothing is left of it, and no event where
/// `rest` is left behind the last column.
pub open spec fn closed(rest: Option<Seq<char>>, event: Event) -> Result<Event, RowError> {
    match rest {
        None => Ok(event),
        Some(surplus) => Err(RowError::UnexpectedColumns(surplus)),
    }
}

/// The event that `row` writes, or why it writes none. The columns are read
/// from the left, and the first that is missing or wrong decides the error;
/// a row whose columns are all right and that goes on behind the last of
/// them is no event either.
pub open spec fn event_of_row(row: Seq<char>) -> Result<Event, RowError> {
    let kind = trim(before(row, ','));
    if kind == "deposit"@ || kind == "withdrawal"@ {
        match reference(after(row, ',')) {
            Err(error) => Err(error),
            Ok((client_id, id, rest)) => match amount_column(rest) {
                Err(error) => Err(error),
                Ok((value, rest)) => closed(
                    rest,
                    Event::Transaction(
                        Transaction {
                            id,
                            client_id,
                            amount: if kind == "deposit"@ {
                                value
                            } else {
                                (-value) as i64
                            },
                        },
                    ),
                ),
            },
        }
    } else if kind == "dispute"@ {
        match reference(after(row, ',')) {
            Err(error) => Err(error),
            Ok((client_id, transaction_id, rest)) => closed(
                rest,
                Event::Dispute(Dispute { transaction_id, client_id }),
            ),
        }
    } else if kind == "resolve"@ {
        match reference(after(row, ',')) {
            Err(error) => Err(error),
            Ok((client_id, transaction_id, rest)) => closed(
                rest,
                Event::Resolve(Resolve { transaction_id, client_id }),
            ),
        }
    } else if kind == "chargeback"@ {
        match reference(after(row, ',')) {
            Err(error) => Err(error),
            Ok((client_id, transaction_id, rest)) => closed(
                rest,
                Event::Chargeback(Chargeback { transaction_id, client_id }),
            ),
        }
    } else {
        Err(RowError::InvalidEventType(before(row, ',')))
    }
}

/// How many columns `row` has: one more than it has commas.
pub open spec fn columns(row: Seq<char>) -> nat {
    count(row, ',') + 1
}

/// Every row that is an event has the length that its kind of event asks
/// for: three columns for a dispute, a resolve or a chargeback, four for a
/// deposit or a withdrawal. A row of any other length is no event.
pub proof fn lemma_events_have_the_right_length(row: Seq<char>)
    ensures
        match event_of_row(row) {
            Ok(Event::Transaction(_)) => columns(row) == 4,
            Ok(_) => columns(row) == 3,
            Err(_) => true,
        },
{
    lemma_count_after(row, ',');
    if let Some(first) = after(row, ',') {
        lemma_count_after(first, ',');
        if let Some(second) = after(first, ',') {
            lemma_count_after(second, ',');
            if let Some(third) = after(second, ',') {
                lemma_count_after(third, ',');
            }
        }
    }
}

/// What `parsed` says, with the offending column as a list of characters.
pub open spec fn outcome(parsed: Result<Event, FromCsvRowError>) -> Result<Event, RowError> {
    match parsed {
        Ok(event) => Ok(event),
        Err(error) => Err(error@),
    }
}

/// Whether the part of `list` from `from` to `to` spells `word`.
fn spells(list: &Vec<char>, from: usize, to: usize, word: &str) -> (same: bool)
    requires
        from <= to <= list.len(),
    ensures
        same == (list@.subrange(from as int, to as int) == word@),
{
    let ghost part = list@.subrange(from as int, to as int);
    let length = word.unicode_len();
    if to - from != length {
        return false;
    }
    let mut checked: usize = 0;
    while checked < length
        invariant
            from <= to <= list.len(),
            to - from == length == word@.len(),
            checked <= length,
            part == list@.subrange(from as int, to as int),
            forall|i: int| 0 <= i < checked ==> part[i] == word@[i],
        decreases length - checked,
    {
        if list[from + checked] != word.get_char(checked) {
            assert(part[checked as int] != word@[checked as int]);
            return false;
        }
        checked += 1;
    }
    assert(part =~= word@);
    true
}

/// The first of the columns that start at `from`: returns where it ends, and
/// where the columns behind it start if there are any.
fn column(list: &Vec<char>, from: usize) -> (bounds: (usize, Option<usize>))
    requires
        from <= list.len(),
    ensures
        from <= bounds.0 <= list.len(),
        list@.subrange(from as int, bounds.0 as int) == before(list@.skip(from as int), ','),
        match bounds.1 {
            Some(next) => next <= list.len() && after(list@.skip(from as int), ',') == Some(
                list@.skip(next as int),
            ),
            None => after(list@.skip(from as int), ',') is None,
        },
{
    let end = find(list, from, list.len(), ',');
    proof {
        assert(list@.subrange(from as int, list.len() as int) =~= list@.skip(from as int));
        assert(list@.subrange(from as int, end as int) =~= list@.skip(from as int).take(
            end - from,
        ));
    }
    if end < list.len() {
        proof {
            assert(list@.skip(from as int).skip(end - from + 1) =~= list@.skip(end + 1));
        }
        (end, Some(end + 1))
    } else {
        (end, None)
    }
}

/// The part of `row` from `from` to `to`, as written.
fn written(row: &str, from: usize, to: usize) -> (column: String)
    requires
        from <= to <= row@.len(),
    ensures
        column@ == row@.subrange(from as int, to as int),
{
    String::from_str(row.substring_char(from, to))
}

/// Reads the client and transaction columns of `row`, whose characters are
/// `list` and whose columns behind the kind of event start at `rest`.
fn parse_reference(row: &str, list: &Vec<char>, rest: Option<usize>) -> (parsed: Result<
    (u16, u32, Option<usize>),
    FromCsvRowError,
>)
    requires
        list@ == row@,
        rest matches Some(from) ==> from <= list.len(),
    ensures
        match parsed {
            Ok((client, id, left)) => {
                &&& left matches Some(from) ==> from <= list.len()
                &&& reference(
                    match rest {
                        Some(from) => Some(list@.skip(from as int)),
                        None => None,
                    },
                ) == Ok::<(u16, u32, Option<Seq<char>>), RowError>(
                    (
                        client,
                        id,
                        match left {
                            Some(from) => Some(list@.skip(from as int)),
                            None => None,
                        },
                    ),
                )
            },
            Err(error) => reference(
                match rest {
                    Some(from) => Some(list@.skip(from as int)),
                    None => None,
                },
            ) == Err::<(u16, u32, Option<Seq<char>>), RowError>(error@),
        },
{
    let Some(from) = rest else {
        return Err(FromCsvRowError::MissonClientId);
    };
    let (end, rest) = column(list, from);
    let (first, last) = trim_range(list, from, end);
    let Some(client) = parse_unsigned(list, first, last, 0xffff) else {
        return Err(FromCsvRowError::InvalidClientId(written(row, from, end)));
    };
    let Some(from) = rest else {
        return Err(FromCsvRowError::MissingTransactionId);
    };
    let (end, rest) = column(list, from);
    let (first, last) = trim_range(list, from, end);
    let Some(id) = parse_unsigned(list, first, last, 0xffff_ffff) else {
        return Err(FromCsvRowError::InvalidTransactionId(written(row, from, end)));
    };
    Ok((client as u16, id as u32, rest))
}

/// The columns that start at `rest`, if any do.
pub open spec fn columns_from(list: Seq<char>, rest: Option<usize>) -> Option<Seq<char>> {
    match rest {
        Some(from) => Some(list.skip(from as int)),
        None => None,
    }
}

/// Reads the amount column of `row`, whose characters are `list` and whose
/// columns behind the transaction start at `rest`.
fn parse_amount_column(row: &str, list: &Vec<char>, rest: Option<usize>) -> (parsed: Result<
    (i64, Option<usize>),
    FromCsvRowError,
>)
    requires
        list@ == row@,
        rest matches Some(from) ==> from <= list.len(),
    ensures
        match parsed {
            Ok((value, left)) => {
                &&& value >= 0
                &&& left matches Some(from) ==> from <= list.len()
                &&& amount_column(columns_from(list@, rest)) == Ok::<
                    (i64, Option<Seq<char>>),
                    RowError,
                >((value, columns_from(list@, left)))
            },
            Err(error) => amount_column(columns_from(list@, rest)) == Err::<
                (i64, Option<Seq<char>>),
                RowError,
            >(error@),
        },
{
    let Some(from) = rest else {
        return Err(FromCsvRowError::MissingAmount);
    };
    let (end, rest) = column(list, from);
    let (first, last) = trim_range(list, from, end);
    let Some(value) = parse_amount(list, first, last) else {
        return Err(FromCsvRowError::InvalidAmount(written(row, from, end)));
    };
    Ok((value, rest))
}

/// Ends the reading of `row`, whose characters are `list`, whose columns
/// wrote `event`, and of which the columns from `rest` are left.
fn close(row: &str, list: &Vec<char>, rest: Option<usize>, event: Event) -> (parsed: Result<
    Event,
    FromCsvRowError,
>)
    requires
        list@ == row@,
        rest matches Some(from) ==> from <= list.len(),
    ensures
        outcome(parsed) == closed(columns_from(list@, rest), event),
{
    match rest {
        None => Ok(event),
        Some(from) => {
            proof {
                assert(list@.subrange(from as int, list.len() as int) =~= list@.skip(from as int));
            }
            Err(FromCsvRowError::UnexpectedColumns(written(row, from, list.len())))
        },
    }
}

/// Reads one row as an event.
pub fn from_csv_row(s: &str) -> (parsed: Result<Event, FromCsvRowError>)
    ensures
        outcome(parsed) == event_of_row(s@),
{
    let list = characters(s);
    let (end, rest) = column(&list, 0);
    let (first, last) = trim_range(&list, 0, end);
    proof {
        assert(list@.skip(0) =~= s@);
    }
    let deposit = spells(&list, first, last, "deposit");
    if deposit || spells(&list, first, last, "withdrawal") {
        let (client_id, id, rest) = match parse_reference(s, &list, rest) {
            Ok(reference) => reference,
            Err(error) => {
                return Err(error);
            },
        };
        let (value, rest) = match parse_amount_column(s, &list, rest) {
            Ok(read) => read,
            Err(error) => {
                return Err(error);
            },
        };
        let amount = if deposit {
            value
        } else {
            -value
        };
        close(s, &list, rest, Event::Transaction(Transaction { id, client_id, amount }))
    } else if spells(&list, first, last, "dispute") {
        match parse_reference(s, &list, rest) {
            Ok((client_id, transaction_id, rest)) => close(
                s,
                &list,
                rest,
                Event::Dispute(Dispute { transaction_id, client_id }),
            ),
            Err(error) => Err(error),
        }
    } else if spells(&list, first, last, "resolve") {
        match parse_reference(s, &list, rest) {
            Ok((client_id, transaction_id, rest)) => close(
                s,
                &list,
                rest,
                Event::Resolve(Resolve { transaction_id, client_id }),
            ),
            Err(error) => Err(error),
        }
    } else if spells(&list, first, last, "chargeback") {
        match parse_reference(s, &list, rest) {
            Ok((client_id, transaction_id, rest)) => close(
                s,
                &list,
                rest,
                Event::Chargeback(Chargeback { transaction_id, client_id }),
            ),
            Err(error) => Err(error),
        }
    } else {
        Err(FromCsvRowError::InvalidEventType(written(s, 0, end)))
    }
}

/// Why reading the next event failed.
#[derive(Debug, PartialEq, Eq)]
pub enum NextError {
    /// The row was read and is not an event.
    Parse(FromCsvRowError),
    /// The row could not be read; the reader's complaint is held in words.
    IO(String),
}

/// Why reading the next event failed, with text as lists of characters.
pub enum ReadError {
    Parse(RowError),
    IO(Seq<char>),
}

impl View for NextError {
    type V = ReadError;

    open spec fn view(&self) -> ReadError {
        match *self {
            NextError::Parse(error) => ReadError::Parse(error@),
            NextError::IO(complaint) => ReadError::IO(complaint@),
        }
    }
}

impl ReadError {
    /// The error in words.
    pub open spec fn message(self) -> Seq<char> {
        match self {
            ReadError::Parse(error) => "failed to parse event: "@ + error.message(),
            ReadError::IO(complaint) => "failed to read event: "@ + complaint,
        }
    }
}

impl NextError {
    /// The error in words.
    pub fn message(&self) -> (words: String)
        ensures
            words@ == self@.message(),
    {
        match self {
            NextError::Parse(error) => String::from_str("failed to parse event: ").concat(
                error.message().as_str(),
            ),
            NextError::IO(complaint) => String::from_str("failed to read event: ").concat(
                complaint.as_str(),
            ),
        }
    }
}

/// What the reader of a stream of rows answers to one attempt to read a
/// row: nothing at the end of the stream, the reader's complaint where the
/// attempt failed, and else the event that the row writes, or why it writes
/// none.
pub open spec fn event_of_line(line: Result<Option<Seq<char>>, Seq<char>>) -> Option<
    Result<Event, ReadError>,
> {
    match line {
        Ok(Some(row)) => Some(
            match event_of_row(row) {
                Ok(event) => Ok(event),
                Err(error) => Err(ReadError::Parse(error)),
            },
        ),
        Ok(None) => None,
        Err(complaint) => Some(Err(ReadError::IO(complaint))),
    }
}

/// Answers one attempt to read a row: `line` is the row that was read,
/// `Ok(None)` at the end of the stream, or the reader's complaint.
pub fn next_event(line: Result<Option<String>, String>) -> (next: Option<Result<Event, NextError>>)
    ensures
        event_of_line(
            match line {
                Ok(Some(row)) => Ok(Some(row@)),
                Ok(None) => Ok(None),
                Err(complaint) => Err(complaint@),
            },
        ) == match next {
            Some(Ok(event)) => Some(Ok::<Event, ReadError>(event)),
            Some(Err(error)) => Some(Err::<Event, ReadError>(error@)),
            None => None,
        },
{
    match line {
        Ok(Some(row)) => match from_csv_row(row.as_str()) {
            Ok(event) => Some(Ok(event)),
            Err(error) => Some(Err(NextError::Parse(error))),
        },
        Ok(None) => None,
        Err(complaint) => Some(Err(NextError::IO(complaint))),
    }
}

} // verus!
