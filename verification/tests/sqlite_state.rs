use touchhle::sqlite_state::{c_string_or_empty, State};

#[test]
fn opened_database_is_found_until_closed() {
    let mut s = State::new();
    assert_eq!(s.db(0x1000), None);
    s.register_db(0x1000, 0xdead_beef);
    assert_eq!(s.db(0x1000), Some(0xdead_beef));
    assert_eq!(s.stmt(0x1000), None);
    assert_eq!(s.take_db(0x1000), Some(0xdead_beef));
    assert_eq!(s.db(0x1000), None);
    // Closing an unknown handle finds nothing.
    assert_eq!(s.take_db(0x1000), None);
}

#[test]
fn statements_are_kept_apart_from_databases() {
    let mut s = State::default();
    s.register_db(1, 10);
    s.register_stmt(1, 20);
    s.register_stmt(2, 30);
    assert_eq!(s.db(1), Some(10));
    assert_eq!(s.stmt(1), Some(20));
    assert_eq!(s.take_stmt(2), Some(30));
    assert_eq!(s.stmt(2), None);
    assert_eq!(s.stmt(1), Some(20));
    s.register_stmt(1, 21);
    assert_eq!(s.stmt(1), Some(21));
}

#[test]
fn buffers_are_recorded() {
    let mut s = State::new();
    s.record_string_buf(1, 0, 0x2000);
    s.record_string_buf(1, 1, 0x2100);
    s.record_string_buf(1, 0, 0x2200);
    s.record_blob_buf(1, 0, 0x3000);
    assert_eq!(s.db(1), None);
}

#[test]
fn c_strings_cannot_hold_nul() {
    assert_eq!(c_string_or_empty(b"SELECT 1".to_vec()), b"SELECT 1".to_vec());
    assert_eq!(c_string_or_empty(b"SEL\0ECT".to_vec()), Vec::<u8>::new());
    assert_eq!(c_string_or_empty(Vec::new()), Vec::<u8>::new());
}

use touchhle::sqlite_state::{
    binds_null_blob, blob_column_is_null, opened, sandbox_db_name, Next, StmtCall, SQLITE_DONE,
    SQLITE_ERROR,
};

#[test]
fn unknown_handles_are_answered_at_once() {
    let mut s = State::new();
    assert_eq!(s.close(5), Next::Answer(0));
    assert_eq!(s.prepare(5), Next::Answer(SQLITE_ERROR));
    assert_eq!(s.finalize(5), Next::Answer(0));
    assert_eq!(s.stmt_call(5, StmtCall::Step), Next::Answer(SQLITE_DONE));
    assert_eq!(s.stmt_call(5, StmtCall::Reset), Next::Answer(0));
    assert_eq!(s.stmt_call(5, StmtCall::ColumnText), Next::Answer(0));
    assert_eq!(SQLITE_DONE, 101);
    assert_eq!(SQLITE_ERROR, 1);
}

#[test]
fn known_handles_go_to_sqlite() {
    let mut s = State::new();
    s.register_db(1, 0x10);
    s.register_stmt(2, 0x20);
    assert_eq!(s.prepare(1), Next::Host(0x10));
    assert_eq!(s.stmt_call(2, StmtCall::Step), Next::Host(0x20));
    assert_eq!(s.finalize(2), Next::Host(0x20));
    assert_eq!(s.stmt_call(2, StmtCall::Step), Next::Answer(101));
    assert_eq!(s.close(1), Next::Host(0x10));
    assert_eq!(s.close(1), Next::Answer(0));
}

#[test]
fn small_decisions() {
    assert!(opened(0, 0x1234));
    assert!(!opened(0, 0));
    assert!(!opened(14, 0x1234));
    assert!(binds_null_blob(true, 5));
    assert!(binds_null_blob(false, 0));
    assert!(!binds_null_blob(false, 3));
    assert!(blob_column_is_null(false, -1));
    assert!(!blob_column_is_null(false, 2));
    assert_eq!(sandbox_db_name(None), "game.db");
    assert_eq!(sandbox_db_name(Some("save.sqlite".to_string())), "save.sqlite");
}
