//! The store of aggregates: an append-only table, what is written to it for
//! a record, and what is made of the rows that are read back.
//!
//! The table itself is kept by a database outside this library. Here stand
//! the statements that are sent to it, the encoding of a record as a row,
//! and the decoding of the rows that the query for the latest records
//! returns.

use vstd::prelude::*;
use crate::address::{address_of, host_text, parse_ip, HostAddr};
use crate::address_laws::host_text_reads_back;
use crate::ping_result::PingResult;
use crate::timestamp::{timestamp_of_text, timestamp_text, timestamp_text_reads_back, Timestamp};

verus! {

/// Why the store did not do what was asked of it.
#[derive(Clone, Copy, Debug, PartialEq, Eq, Structural)]
pub enum StoreError {
    /// The store could not be opened or prepared.
    Connection,
    /// A record could not be written.
    Write,
}

impl StoreError {
    /// Whether the failure ends the program. A store that cannot be opened
    /// or prepared does; a record that cannot be written is reported, and
    /// the sweep goes on.
    pub fn is_fatal(&self) -> (fatal: bool)
        ensures
            fatal == (*self == StoreError::Connection),
    {
        match self {
            StoreError::Connection => true,
            StoreError::Write => false,
        }
    }
}

/// A row of the table as it is handed to and taken from the database.
#[derive(Clone, Debug, PartialEq, Eq)]
pub struct StoredRow {
    pub datetime: String,
    pub host: String,
    pub success_call: i64,
    pub average_response_ms: i64,
}

/// What a row holds.
pub struct Row {
    pub datetime: Seq<char>,
    pub host: Seq<char>,
    pub success_call: int,
    pub average_response_ms: int,
}

impl View for StoredRow {
    type V = Row;

    open spec fn view(&self) -> Row {
        Row {
            datetime: self.datetime@,
            host: self.host@,
            success_call: self.success_call as int,
            average_response_ms: self.average_response_ms as int,
        }
    }
}

/// What each of the rows holds.
pub open spec fn rows_held(rows: Seq<StoredRow>) -> Seq<Row> {
    rows.map_values(|row: StoredRow| row@)
}

/// The row that is written for `r` where `datetime` is the stored text of
/// its date and time. A record whose mean latency is beyond what a column
/// holds has no row.
pub open spec fn row_with(r: PingResult, datetime: Seq<char>) -> Option<Row> {
    if r.average_response_ms <= i64::MAX {
        Some(
            Row {
                datetime,
                host: host_text(r.host),
                success_call: r.success_call as int,
                average_response_ms: r.average_response_ms as int,
            },
        )
    } else {
        None
    }
}

/// The row that is written for `r`: the text of its date and time, the
/// text of its host, and its two numbers. A record has no row if its date
/// and time have no stored text or if its mean latency is beyond what a
/// column holds.
pub open spec fn row_of(r: PingResult) -> Option<Row> {
    match timestamp_text(r.datetime) {
        Some(datetime) => row_with(r, datetime),
        None => None,
    }
}

/// The record of the given date and time and host with the two numbers of
/// a row. Numbers that are negative, or a count beyond 32 bits, make no
/// record.
pub open spec fn record_with(
    datetime: Timestamp,
    host: HostAddr,
    success_call: int,
    average_response_ms: int,
) -> Option<PingResult> {
    if 0 <= success_call <= u32::MAX && 0 <= average_response_ms <= u64::MAX {
        Some(
            PingResult {
                datetime,
                success_call: success_call as u32,
                average_response_ms: average_response_ms as u64,
                host,
            },
        )
    } else {
        None
    }
}

/// The record that `row` stands for. A row whose texts read as no date and
/// time or as no address, or whose numbers are out of range, stands for
/// none.
pub open spec fn record_of(row: Row) -> Option<PingResult> {
    match (timestamp_of_text(row.datetime), address_of(row.host)) {
        (Some(datetime), Some(host)) => record_with(
            datetime,
            host,
            row.success_call,
            row.average_response_ms,
        ),
        _ => None,
    }
}

/// What each of the rows was read as.
pub open spec fn records_read(rows: Seq<Row>) -> Seq<Option<PingResult>> {
    rows.map_values(|row: Row| record_of(row))
}

/// The records among what was read, in order. What was read as no record
/// is passed over.
pub open spec fn present(read: Seq<Option<PingResult>>) -> Seq<PingResult>
    decreases read.len(),
{
    if read.len() == 0 {
        Seq::empty()
    } else {
        match read.first() {
            Some(r) => seq![r] + present(read.drop_first()),
            None => present(read.drop_first()),
        }
    }
}

/// The records among what was read with the newest first, turned round so
/// that the oldest comes first.
pub open spec fn oldest_first(newest_first: Seq<Option<PingResult>>) -> Seq<PingResult> {
    present(newest_first).reverse()
}

/// The records that the rows stand for, in the order of the rows. Rows
/// that stand for no record are passed over.
pub open spec fn records_of(rows: Seq<Row>) -> Seq<PingResult> {
    present(records_read(rows))
}

/// The smaller of a limit and a length.
pub open spec fn at_most(limit: nat, len: nat) -> nat {
    if limit <= len {
        limit
    } else {
        len
    }
}

/// The latest records, oldest first, given the rows with the newest first:
/// the records of the first `limit` rows, turned round.
pub open spec fn recent_records(newest_first: Seq<Row>, limit: nat) -> Seq<PingResult> {
    oldest_first(records_read(newest_first.take(at_most(limit, newest_first.len()) as int)))
}

/// The table of results as the database holds it: whether it has been
/// created, and its rows in the order in which they were inserted.
pub struct Table {
    pub exists: bool,
    pub rows: Seq<Row>,
}

/// The table after the statement of [`Database::create_tables`]: a table
/// that exists is left as it is, one that does not is created empty.
pub open spec fn created(table: Table) -> Table {
    if table.exists {
        table
    } else {
        Table { exists: true, rows: Seq::empty() }
    }
}

/// The table after the statement of [`Database::insert_statement`] with
/// `row`: the row stands behind all others.
pub open spec fn inserted(table: Table, row: Row) -> Table {
    Table { exists: table.exists, rows: table.rows.push(row) }
}

/// What the statement of [`Database::select_statement`] returns for
/// `limit`: the rows from the last inserted backwards, `limit` at most.
pub open spec fn selected(table: Table, limit: nat) -> Seq<Row> {
    table.rows.reverse().take(at_most(limit, table.rows.len()) as int)
}

/// The statement that creates the table unless it exists.
pub const SCHEMA_SQL: &'static str = "CREATE TABLE IF NOT EXISTS results (\
    id INTEGER PRIMARY KEY AUTOINCREMENT, \
    datetime TEXT NOT NULL, \
    host TEXT NOT NULL, \
    success_call INTEGER DEFAULT 0, \
    average_response_ms INTEGER DEFAULT 0)";

/// The statement that inserts one row, its four values as parameters.
pub const INSERT_SQL: &'static str = "INSERT INTO results \
    (datetime, host, success_call, average_response_ms) VALUES (?, ?, ?, ?)";

/// The statement that selects the latest rows, newest first, their number
/// limited by its parameter.
pub const SELECT_SQL: &'static str = "SELECT datetime, host, success_call, average_response_ms \
    FROM results ORDER BY id DESC LIMIT ?";

/// The store: where it lives, what is sent to it, and how its rows read.
pub struct Database {
    path: String,
}

impl Database {
    /// Where the store lives.
    pub closed spec fn location(&self) -> Seq<char> {
        self.path@
    }

    /// The store that lives at `path`.
    pub fn new(path: &str) -> (db: Database)
        ensures
            db.location() == path@,
    {
        Database { path: path.to_owned() }
    }

    /// Where the store lives.
    pub fn path(&self) -> (path: &str)
        ensures
            path@ == self.location(),
    {
        self.path.as_str()
    }

    /// The statement that prepares the store, [`SCHEMA_SQL`]. Sending it
    /// again changes nothing, see [`create_tables_is_idempotent`].
    pub fn create_tables(&self) -> (sql: &'static str)
        ensures
            sql@ == SCHEMA_SQL@,
    {
        SCHEMA_SQL
    }

    /// The statement that appends a row, [`INSERT_SQL`].
    pub fn insert_statement(&self) -> (sql: &'static str)
        ensures
            sql@ == INSERT_SQL@,
    {
        INSERT_SQL
    }

    /// The statement that fetches the latest rows, [`SELECT_SQL`].
    pub fn select_statement(&self) -> (sql: &'static str)
        ensures
            sql@ == SELECT_SQL@,
    {
        SELECT_SQL
    }

    /// The row to append for `r` where `datetime` is the stored text of its
    /// date and time, see [`row_with`].
    pub fn row_with(&self, r: &PingResult, datetime: String) -> (row: Option<StoredRow>)
        ensures
            match row {
                Some(stored) => row_with(*r, datetime@) == Some(stored@),
                None => row_with(*r, datetime@) is None,
            },
    {
        if r.average_response_ms > i64::MAX as u64 {
            None
        } else {
            Some(
                StoredRow {
                    datetime,
                    host: r.host.to_text(),
                    success_call: r.success_call as i64,
                    average_response_ms: r.average_response_ms as i64,
                },
            )
        }
    }

    /// The row to append for `r`, see [`row_of`]. A record that has no row
    /// is refused as a failed write.
    pub fn insert_result(&self, r: &PingResult) -> (row: Result<StoredRow, StoreError>)
        ensures
            match row {
                Ok(stored) => row_of(*r) == Some(stored@),
                Err(e) => e == StoreError::Write && row_of(*r) is None,
            },
    {
        let row = match r.datetime.to_text() {
            Some(datetime) => self.row_with(r, datetime),
            None => None,
        };
        match row {
            Some(stored) => Ok(stored),
            None => Err(StoreError::Write),
        }
    }

    /// The record of the given date and time and host with the two numbers
    /// of a row, see [`record_with`].
    pub fn record_with(
        &self,
        datetime: Timestamp,
        host: HostAddr,
        success_call: i64,
        average_response_ms: i64,
    ) -> (r: Option<PingResult>)
        ensures
            r == record_with(datetime, host, success_call as int, average_response_ms as int),
    {
        if 0 <= success_call && success_call <= u32::MAX as i64 && 0 <= average_response_ms {
            Some(PingResult::at(datetime, host, success_call as u32, average_response_ms as u64))
        } else {
            None
        }
    }

    /// The record that `row` stands for, see [`record_of`].
    pub fn read_row(&self, row: &StoredRow) -> (r: Option<PingResult>)
        ensures
            r == record_of(row@),
    {
        let datetime = Timestamp::from_text(row.datetime.as_str());
        let host = parse_ip(row.host.as_str());
        match (datetime, host) {
            (Some(datetime), Some(host)) => self.record_with(
                datetime,
                host,
                row.success_call,
                row.average_response_ms,
            ),
            _ => None,
        }
    }

    /// The records among what was read with the newest first, turned round
    /// so that the oldest comes first, see [`oldest_first`].
    pub fn oldest_first(&self, newest_first: &Vec<Option<PingResult>>) -> (records: Vec<PingResult>)
        ensures
            records@ == oldest_first(newest_first@),
            records.len() <= newest_first.len(),
    {
        let mut records: Vec<PingResult> = Vec::new();
        let mut i: usize = newest_first.len();
        assert(newest_first@.skip(i as int) =~= Seq::<Option<PingResult>>::empty());
        while i > 0
            invariant
                i <= newest_first.len(),
                records@ == present(newest_first@.skip(i as int)).reverse(),
                records.len() <= newest_first.len() - i,
            decreases i,
        {
            i -= 1;
            let ghost rest = newest_first@.skip(i + 1);
            let ghost from_here = newest_first@.skip(i as int);
            assert(from_here.first() == newest_first@[i as int]);
            assert(from_here.drop_first() =~= rest);
            match newest_first[i] {
                Some(r) => {
                    records.push(r);
                    assert(records@ =~= (seq![r] + present(rest)).reverse());
                },
                None => {},
            }
        }
        assert(newest_first@.skip(0) =~= newest_first@);
        records
    }

    /// The latest records, oldest first, made of `rows`, the rows that the
    /// query returned with the newest first, see [`recent_records`]. No
    /// more than `limit` rows are looked at.
    pub fn get_results(&self, limit: u32, rows: &Vec<StoredRow>) -> (records: Vec<PingResult>)
        ensures
            records@ == recent_records(rows_held(rows@), limit as nat),
            records.len() <= limit,
    {
        let n: usize = if (limit as usize) <= rows.len() {
            limit as usize
        } else {
            rows.len()
        };
        let mut read: Vec<Option<PingResult>> = Vec::new();
        let mut i: usize = 0;
        while i < n
            invariant
                i <= n <= rows.len(),
                read.len() == i,
                forall|j: int| 0 <= j < i ==> read@[j] == record_of(rows@[j]@),
            decreases n - i,
        {
            let r = self.read_row(&rows[i]);
            read.push(r);
            i += 1;
        }
        assert(read@ =~= records_read(rows_held(rows@).take(n as int)));
        self.oldest_first(&read)
    }
}

/// The row written for a record stands for that record.
pub proof fn row_reads_back(r: PingResult)
    ensures
        row_of(r) matches Some(row) ==> record_of(row) == Some(r),
{
    timestamp_text_reads_back(r.datetime);
    host_text_reads_back(r.host);
}

/// The records among what was read, put one behind the other, are the
/// records among the first followed by the records among the others.
pub proof fn present_concat(a: Seq<Option<PingResult>>, b: Seq<Option<PingResult>>)
    ensures
        present(a + b) == present(a) + present(b),
    decreases a.len(),
{
    if a.len() == 0 {
        assert(a + b =~= b);
        assert(present(a) + present(b) =~= present(b));
    } else {
        let all = a + b;
        assert(all.first() == a.first());
        assert(all.drop_first() =~= a.drop_first() + b);
        present_concat(a.drop_first(), b);
        assert(present(all) =~= present(a) + present(b));
    }
}

/// The records among what was read, taken in reverse, are the records in
/// reverse.
pub proof fn present_reverse(read: Seq<Option<PingResult>>)
    ensures
        present(read.reverse()) == present(read).reverse(),
    decreases read.len(),
{
    if read.len() == 0 {
        assert(read.reverse() =~= read);
        assert(present(read).reverse() =~= present(read));
    } else {
        let first = seq![read.first()];
        let rest = read.drop_first();
        assert(read.reverse() =~= rest.reverse() + first);
        present_concat(rest.reverse(), first);
        present_reverse(rest);
        assert(first.drop_first() =~= Seq::<Option<PingResult>>::empty());
        assert(present(first.drop_first()) =~= Seq::<PingResult>::empty());
        match read.first() {
            Some(r) => {
                assert(present(first) =~= seq![r]);
                assert((seq![r] + present(rest)).reverse() =~= present(rest).reverse() + seq![r]);
            },
            None => {
                assert(present(first) =~= Seq::<PingResult>::empty());
                assert(present(rest).reverse() + present(first) =~= present(rest).reverse());
            },
        }
    }
}

/// The records of the rows in reverse are the records in reverse.
pub proof fn records_of_reverse(rows: Seq<Row>)
    ensures
        records_of(rows.reverse()) == records_of(rows).reverse(),
{
    assert(records_read(rows.reverse()) =~= records_read(rows).reverse());
    present_reverse(records_read(rows));
}

/// Rows written for records stand for these records, one for one and in
/// the same order.
pub proof fn rows_read_back(records: Seq<PingResult>, rows: Seq<Row>)
    requires
        rows.len() == records.len(),
        forall|i: int| 0 <= i < records.len() ==> row_of(#[trigger] records[i]) == Some(rows[i]),
    ensures
        records_of(rows) == records,
    decreases rows.len(),
{
    if rows.len() == 0 {
        assert(records =~= Seq::<PingResult>::empty());
    } else {
        assert(row_of(records[0]) == Some(rows[0]));
        row_reads_back(records[0]);
        let rest = rows.drop_first();
        let others = records.drop_first();
        assert forall|i: int| 0 <= i < others.len() implies row_of(#[trigger] others[i]) == Some(
            rest[i],
        ) by {
            assert(others[i] == records[i + 1]);
            assert(row_of(records[i + 1]) == Some(rows[i + 1]));
        }
        rows_read_back(others, rest);
        assert(records_read(rows).first() == record_of(rows[0]));
        assert(records_read(rows).drop_first() =~= records_read(rest));
        assert(records =~= seq![records[0]] + others);
    }
}

/// There are no more records among what was read than was read.
pub proof fn present_no_more_than_read(read: Seq<Option<PingResult>>)
    ensures
        present(read).len() <= read.len(),
    decreases read.len(),
{
    if read.len() > 0 {
        present_no_more_than_read(read.drop_first());
    }
}

/// The table after the insertion of `rows`, one after the other.
pub open spec fn inserted_all(table: Table, rows: Seq<Row>) -> Table
    decreases rows.len(),
{
    if rows.len() == 0 {
        table
    } else {
        inserted(inserted_all(table, rows.drop_last()), rows.last())
    }
}

/// Rows inserted one after the other stand behind the rows that were
/// there, in the order of their insertion.
pub proof fn inserted_all_appends(table: Table, rows: Seq<Row>)
    ensures
        inserted_all(table, rows).exists == table.exists,
        inserted_all(table, rows).rows == table.rows + rows,
    decreases rows.len(),
{
    if rows.len() == 0 {
        assert(table.rows + rows =~= table.rows);
    } else {
        inserted_all_appends(table, rows.drop_last());
        assert(table.rows + rows =~= (table.rows + rows.drop_last()).push(rows.last()));
    }
}

/// Preparing the store twice is preparing it once: the table exists after
/// the first time, and the second time changes neither the table nor its
/// rows. A table that existed before keeps its rows.
pub proof fn create_tables_is_idempotent(table: Table)
    ensures
        created(table).exists,
        created(created(table)) == created(table),
        table.exists ==> created(table) == table,
{
}

/// The latest records are the records of the rows inserted last, in the
/// order of their insertion, and their number is `limit` at most.
pub proof fn recent_is_latest_in_order(table: Table, limit: nat)
    ensures
        recent_records(selected(table, limit), limit) == records_of(
            table.rows.skip(table.rows.len() - at_most(limit, table.rows.len())),
        ),
        recent_records(selected(table, limit), limit).len() <= limit,
{
    let k = at_most(limit, table.rows.len()) as int;
    let latest = table.rows.skip(table.rows.len() - k);
    let newest_first = selected(table, limit);
    assert(newest_first =~= latest.reverse());
    assert(newest_first.take(at_most(limit, newest_first.len()) as int) =~= newest_first);
    records_of_reverse(latest);
    assert(records_of(latest).reverse().reverse() =~= records_of(latest));
    present_no_more_than_read(records_read(latest));
}

/// Right after as many records were appended as are asked for, the latest
/// records are exactly the appended ones, in the order in which they were
/// appended, whatever the table held before.
pub proof fn recent_after_appends(table: Table, records: Seq<PingResult>, rows: Seq<Row>)
    requires
        rows.len() == records.len(),
        forall|i: int| 0 <= i < records.len() ==> row_of(#[trigger] records[i]) == Some(rows[i]),
    ensures
        recent_records(selected(inserted_all(table, rows), records.len()), records.len())
            == records,
{
    let after = inserted_all(table, rows);
    inserted_all_appends(table, rows);
    recent_is_latest_in_order(after, records.len());
    assert(after.rows.skip(after.rows.len() - rows.len()) =~= rows);
    rows_read_back(records, rows);
}

/// A record that was appended is the one that the query for the latest
/// record returns, and it names the host that it was appended with.
pub proof fn appended_host_is_read_back(table: Table, r: PingResult, row: Row)
    requires
        row_of(r) == Some(row),
    ensures
        recent_records(selected(inserted(table, row), 1), 1) == seq![r],
        recent_records(selected(inserted(table, row), 1), 1)[0].host == r.host,
        address_of(row.host) == Some(r.host),
{
    let rows = seq![row];
    let records = seq![r];
    assert(rows.drop_last() =~= Seq::<Row>::empty());
    assert(inserted_all(table, rows.drop_last()) == table);
    assert(inserted_all(table, rows) == inserted(table, row));
    recent_after_appends(table, records, rows);
    host_text_reads_back(r.host);
}

} // verus!
