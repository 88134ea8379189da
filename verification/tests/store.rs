use ping_monitor::address::HostAddr;
use ping_monitor::database::{Database, StoreError, StoredRow};
use ping_monitor::ping_result::PingResult;
use ping_monitor::timestamp::Timestamp;
use rusqlite::Connection;

fn open(db: &Database) -> Connection {
    assert_eq!(db.path(), ":memory:");
    let conn = Connection::open_in_memory().unwrap();
    conn.execute(db.create_tables(), []).unwrap();
    conn
}

fn append(db: &Database, conn: &Connection, r: &PingResult) {
    let row = db.insert_result(r).unwrap();
    let n = conn
        .execute(
            db.insert_statement(),
            (&row.datetime, &row.host, &row.success_call, &row.average_response_ms),
        )
        .unwrap();
    assert_eq!(n, 1);
}

fn recent(db: &Database, conn: &Connection, limit: u32) -> Vec<PingResult> {
    let mut statement = conn.prepare(db.select_statement()).unwrap();
    let rows: Vec<StoredRow> = statement
        .query_map([limit], |row| {
            Ok(StoredRow {
                datetime: row.get(0)?,
                host: row.get(1)?,
                success_call: row.get(2)?,
                average_response_ms: row.get(3)?,
            })
        })
        .unwrap()
        .filter_map(|row| row.ok())
        .collect();
    db.get_results(limit, &rows)
}

fn at(secs: i64) -> Timestamp {
    Timestamp { secs, nanos: 0 }
}

#[test]
fn test_database_create_tables() {
    let db = Database::new(":memory:");
    let conn = open(&db);

    let query = "SELECT COUNT(name) FROM sqlite_master WHERE type='table' AND name='results'";

    let count: i32 = conn.query_row(query, [], |row| row.get(0)).unwrap_or(0);

    conn.close().unwrap();

    assert_eq!(count, 1);
}

#[test]
fn test_database_insert_and_get_results() {
    let db = Database::new(":memory:");
    let conn = open(&db);

    let localhost = HostAddr::V4([127, 0, 0, 1]);

    for i in 0..5 {
        let ping_result = PingResult::new(localhost, i + 2, (i * 2 + 3) as u64);
        append(&db, &conn, &ping_result);
    }

    let ping_results = recent(&db, &conn, 3);

    conn.close().unwrap();

    assert_eq!(ping_results.len(), 3);
    let ping_result = &ping_results[0];

    let now = PingResult::new(localhost, 0, 0).datetime;
    let timedelta = (now.secs - ping_result.datetime.secs) * 1000;

    assert!(timedelta >= 0);
    assert!(timedelta < 10000);
    assert_eq!(ping_result.host, localhost);
    assert_eq!(ping_result.success_call, 4);
    assert_eq!(ping_result.average_response_ms, 7);
}

#[test]
fn preparing_the_store_twice_leaves_one_table_and_its_rows() {
    let db = Database::new(":memory:");
    let conn = open(&db);
    let r = PingResult::at(at(1_700_000_000), HostAddr::V4([10, 0, 0, 1]), 32, 4);
    append(&db, &conn, &r);

    conn.execute(db.create_tables(), []).unwrap();

    let query = "SELECT COUNT(*) FROM sqlite_master WHERE type='table' AND name='results'";
    let tables: i64 = conn.query_row(query, [], |row| row.get(0)).unwrap();
    assert_eq!(tables, 1);
    assert_eq!(recent(&db, &conn, 10), vec![r]);
}

#[test]
fn the_latest_two_of_three_come_oldest_first() {
    let db = Database::new(":memory:");
    let conn = open(&db);
    let a = PingResult::at(at(100), HostAddr::V4([192, 0, 2, 1]), 1, 10);
    let b = PingResult::at(at(50), HostAddr::V4([192, 0, 2, 2]), 2, 20);
    let c = PingResult::at(at(75), HostAddr::V6([0x2001, 0xdb8, 0, 0, 0, 0, 0, 3]), 3, 30);
    append(&db, &conn, &a);
    append(&db, &conn, &b);
    append(&db, &conn, &c);
    assert_eq!(recent(&db, &conn, 2), vec![b, c]);
    assert_eq!(recent(&db, &conn, 3), vec![a, b, c]);
    assert_eq!(recent(&db, &conn, 4), vec![a, b, c]);
    assert_eq!(recent(&db, &conn, 1), vec![c]);
    assert_eq!(recent(&db, &conn, 0), vec![]);
}

#[test]
fn as_many_as_were_appended_come_back_in_append_order() {
    let db = Database::new(":memory:");
    let conn = open(&db);
    append(&db, &conn, &PingResult::at(at(1), HostAddr::V4([1, 1, 1, 1]), 9, 9));
    let mut appended = Vec::new();
    for i in 0..7u32 {
        let r = PingResult::at(
            Timestamp { secs: 1_000 - i as i64, nanos: i * 1_000 },
            HostAddr::V6([i as u16, 0, 0, 0, 0, 0, 0, 0]),
            i,
            (i as u64) << 40,
        );
        append(&db, &conn, &r);
        appended.push(r);
    }
    assert_eq!(recent(&db, &conn, 7), appended);
}

#[test]
fn hosts_are_read_back_as_they_were_appended() {
    let db = Database::new(":memory:");
    let conn = open(&db);
    let hosts = vec![
        HostAddr::V4([127, 0, 0, 1]),
        HostAddr::V4([255, 255, 255, 255]),
        HostAddr::V6([0; 8]),
        HostAddr::V6([0, 0, 0, 0, 0, 0, 0, 1]),
        HostAddr::V6([0x2a00, 0x1450, 0x4007, 0x80d, 0, 0, 0, 0x200e]),
        HostAddr::V6([0, 0, 0, 0, 0, 0xffff, 0xc000, 0x0201]),
    ];
    for host in hosts {
        let r = PingResult::new(host, 1, 2);
        append(&db, &conn, &r);
        let read = recent(&db, &conn, 1);
        assert_eq!(read.len(), 1);
        assert_eq!(read[0].host, host);
        assert_eq!(read[0], r);
    }
}

#[test]
fn a_row_holds_the_texts_and_numbers_of_its_record() {
    let db = Database::new("./out/result.sqlite");
    assert_eq!(db.path(), "./out/result.sqlite");
    let r = PingResult::at(
        Timestamp { secs: 851_042_397, nanos: 0 },
        HostAddr::V6([0, 0, 0, 0, 0, 0, 0, 1]),
        3,
        8,
    );
    assert_eq!(
        db.insert_result(&r),
        Ok(StoredRow {
            datetime: "1996-12-20T00:39:57+00:00".to_string(),
            host: "::1".to_string(),
            success_call: 3,
            average_response_ms: 8,
        })
    );
}

#[test]
fn a_record_without_a_row_is_a_failed_write() {
    let db = Database::new(":memory:");
    let host = HostAddr::V4([127, 0, 0, 1]);
    let no_date = PingResult::at(Timestamp { secs: i64::MAX, nanos: 0 }, host, 1, 2);
    assert_eq!(db.insert_result(&no_date), Err(StoreError::Write));
    let too_slow = PingResult::at(at(0), host, 1, 1 << 63);
    assert_eq!(db.insert_result(&too_slow), Err(StoreError::Write));
    let slow = PingResult::at(at(0), host, u32::MAX, (1 << 63) - 1);
    let row = db.insert_result(&slow).unwrap();
    assert_eq!(row.success_call, 4294967295);
    assert_eq!(row.average_response_ms, 9223372036854775807);
    assert_eq!(db.read_row(&row), Some(slow));
}

fn row(datetime: &str, host: &str, success_call: i64, average_response_ms: i64) -> StoredRow {
    StoredRow {
        datetime: datetime.to_string(),
        host: host.to_string(),
        success_call,
        average_response_ms,
    }
}

#[test]
fn rows_read_as_records() {
    let db = Database::new(":memory:");
    assert_eq!(
        db.read_row(&row("1970-01-01T00:00:10+00:00", "127.0.0.1", 4, 7)),
        Some(PingResult::at(at(10), HostAddr::V4([127, 0, 0, 1]), 4, 7))
    );
    assert_eq!(
        db.read_row(&row("1970-01-01T01:00:00+01:00", "1::2", 0, 0)),
        Some(PingResult::at(at(0), HostAddr::V6([1, 0, 0, 0, 0, 0, 0, 2]), 0, 0))
    );
    assert_eq!(db.read_row(&row("no date", "127.0.0.1", 4, 7)), None);
    assert_eq!(db.read_row(&row("1970-01-01T00:00:10+00:00", "localhost", 4, 7)), None);
    assert_eq!(db.read_row(&row("1970-01-01T00:00:10+00:00", "127.0.0.1", -1, 7)), None);
    assert_eq!(db.read_row(&row("1970-01-01T00:00:10+00:00", "127.0.0.1", 4294967296, 7)), None);
    assert_eq!(db.read_row(&row("1970-01-01T00:00:10+00:00", "127.0.0.1", 4, -7)), None);
}

#[test]
fn rows_that_are_no_records_are_passed_over() {
    let db = Database::new(":memory:");
    let newest_first = vec![
        row("1970-01-01T00:00:05+00:00", "10.0.0.5", 5, 50),
        row("1970-01-01T00:00:04+00:00", "10.0.0.256", 4, 40),
        row("1970-01-01T00:00:03+00:00", "10.0.0.3", 3, 30),
        row("1970-01-01T00:00:02+00:00", "10.0.0.2", 2, 20),
    ];
    let five = PingResult::at(at(5), HostAddr::V4([10, 0, 0, 5]), 5, 50);
    let three = PingResult::at(at(3), HostAddr::V4([10, 0, 0, 3]), 3, 30);
    let two = PingResult::at(at(2), HostAddr::V4([10, 0, 0, 2]), 2, 20);
    assert_eq!(db.get_results(4, &newest_first), vec![two, three, five]);
    assert_eq!(db.get_results(9, &newest_first), vec![two, three, five]);
    assert_eq!(db.get_results(3, &newest_first), vec![three, five]);
    assert_eq!(db.get_results(2, &newest_first), vec![five]);
    assert_eq!(db.get_results(1, &newest_first), vec![five]);
    assert_eq!(db.get_results(0, &newest_first), vec![]);
    assert_eq!(db.get_results(5, &Vec::new()), vec![]);
}

#[test]
fn the_statements_name_the_table_and_its_columns() {
    let db = Database::new(":memory:");
    assert_eq!(
        db.create_tables(),
        "CREATE TABLE IF NOT EXISTS results (\
         id INTEGER PRIMARY KEY AUTOINCREMENT, \
         datetime TEXT NOT NULL, \
         host TEXT NOT NULL, \
         success_call INTEGER DEFAULT 0, \
         average_response_ms INTEGER DEFAULT 0)"
    );
    assert_eq!(
        db.insert_statement(),
        "INSERT INTO results (datetime, host, success_call, average_response_ms) \
         VALUES (?, ?, ?, ?)"
    );
    assert_eq!(
        db.select_statement(),
        "SELECT datetime, host, success_call, average_response_ms FROM results \
         ORDER BY id DESC LIMIT ?"
    );
}

#[test]
fn a_row_is_made_of_a_record_and_the_text_of_its_date() {
    let db = Database::new(":memory:");
    let r = PingResult::at(at(5), HostAddr::V4([10, 1, 2, 3]), 32, 12);
    assert_eq!(
        db.row_with(&r, "then".to_string()),
        Some(row("then", "10.1.2.3", 32, 12))
    );
    let slow = PingResult::at(at(5), HostAddr::V4([10, 1, 2, 3]), 1, u64::MAX);
    assert_eq!(db.row_with(&slow, "then".to_string()), None);
}

#[test]
fn a_record_is_made_of_columns_in_range() {
    let db = Database::new(":memory:");
    let host = HostAddr::V6([0xfe80, 0, 0, 0, 0, 0, 0, 1]);
    assert_eq!(db.record_with(at(9), host, 0, 0), Some(PingResult::at(at(9), host, 0, 0)));
    assert_eq!(
        db.record_with(at(9), host, 4294967295, 9223372036854775807),
        Some(PingResult::at(at(9), host, u32::MAX, 9223372036854775807))
    );
    assert_eq!(db.record_with(at(9), host, 4294967296, 0), None);
    assert_eq!(db.record_with(at(9), host, -1, 0), None);
    assert_eq!(db.record_with(at(9), host, 0, -1), None);
}

#[test]
fn what_was_read_newest_first_is_handed_out_oldest_first() {
    let db = Database::new(":memory:");
    let a = PingResult::at(at(1), HostAddr::V4([10, 0, 0, 1]), 1, 1);
    let b = PingResult::at(at(2), HostAddr::V4([10, 0, 0, 2]), 2, 2);
    let c = PingResult::at(at(3), HostAddr::V4([10, 0, 0, 3]), 3, 3);
    assert_eq!(db.oldest_first(&vec![Some(c), Some(b), Some(a)]), vec![a, b, c]);
    assert_eq!(db.oldest_first(&vec![None, Some(c), None, None, Some(a), None]), vec![a, c]);
    assert_eq!(db.oldest_first(&vec![None, None]), vec![]);
    assert_eq!(db.oldest_first(&Vec::new()), vec![]);
}

#[test]
fn only_a_store_that_cannot_be_opened_ends_the_program() {
    assert!(StoreError::Connection.is_fatal());
    assert!(!StoreError::Write.is_fatal());
}
