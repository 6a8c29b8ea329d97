use pasta_store::codec::Strategy;
use pasta_store::db;
use pasta_store::pasta::{make_default_title, from_row, Pasta, PastaFile, Row};
use pasta_store::store::Store;

fn record(id: u64, created: i64) -> Pasta {
    Pasta {
        id,
        title: format!("note {id}"),
        content: String::from("body"),
        file: None,
        extension: String::from("txt"),
        readonly: false,
        private: true,
        editable: true,
        encrypt_server: false,
        encrypt_client: false,
        encrypted_key: Some(String::from("key material")),
        created,
        expiration: 0,
        last_read: 3,
        read_count: 4,
        burn_after_reads: 5,
        pasta_type: String::from("text"),
    }
}

fn raw_row(id: i64) -> Row {
    Row {
        id,
        title: Some(format!("t{id}")),
        content: String::from("c"),
        file_name: None,
        file_size: None,
        extension: String::from("txt"),
        readonly: false,
        private: false,
        editable: true,
        encrypt_server: false,
        encrypt_client: false,
        encrypted_key: None,
        created: id,
        expiration: 0,
        last_read: 0,
        read_count: 0,
        burn_after_reads: 0,
        pasta_type: String::from("text"),
    }
}

#[test]
fn insert_then_read_back_round_trips() {
    let mut conn = db::open_memory_connection().unwrap();
    let p = Pasta { file: Some(PastaFile { name: String::from("a.bin"), size: 123 }), ..record(11, 7) };
    db::insert(&mut conn, &p).unwrap();
    let all = db::read_all(&mut conn).unwrap();
    assert_eq!(all.len(), 1);
    assert_eq!(all[0], p);
}

#[test]
fn read_all_orders_by_created() {
    let mut conn = db::open_memory_connection().unwrap();
    db::insert(&mut conn, &record(1, 30)).unwrap();
    db::insert(&mut conn, &record(2, 10)).unwrap();
    db::insert(&mut conn, &record(3, 20)).unwrap();
    let ids: Vec<u64> = db::read_all(&mut conn).unwrap().iter().map(|p| p.id).collect();
    assert_eq!(ids, vec![2, 3, 1]);
}

#[test]
fn update_and_delete_by_id() {
    let mut conn = db::open_memory_connection().unwrap();
    db::insert(&mut conn, &record(1, 1)).unwrap();
    db::insert(&mut conn, &record(2, 2)).unwrap();
    let mut changed = record(1, 1);
    changed.content = String::from("changed");
    db::update(&mut conn, &changed).unwrap();
    let all = db::read_all(&mut conn).unwrap();
    assert_eq!(all[0].content, "changed");
    assert_eq!(all[1].content, "body");
    db::delete_by_id(&mut conn, 1).unwrap();
    let all = db::read_all(&mut conn).unwrap();
    assert_eq!(all.len(), 1);
    assert_eq!(all[0].id, 2);
    // Deleting an absent id is a no-op, not an error.
    db::delete_by_id(&mut conn, 99).unwrap();
}

#[test]
fn update_all_rewrites_the_whole_table() {
    let mut conn = db::open_memory_connection().unwrap();
    db::insert(&mut conn, &record(1, 1)).unwrap();
    let fresh = vec![record(5, 5), record(6, 6)];
    db::update_all(&mut conn, &fresh).unwrap();
    let ids: Vec<u64> = db::read_all(&mut conn).unwrap().iter().map(|p| p.id).collect();
    assert_eq!(ids, vec![5, 6]);
}

#[test]
fn duplicate_insert_fails_durably_too() {
    let mut conn = db::open_memory_connection().unwrap();
    db::insert(&mut conn, &record(1, 1)).unwrap();
    assert!(db::insert(&mut conn, &record(1, 2)).is_err());
    assert_eq!(db::read_all(&mut conn).unwrap().len(), 1);
}

#[test]
fn legacy_row_without_title_gets_the_placeholder() {
    // A table from before the title column existed: the store migrates it on
    // load and backfills the missing title at read time.
    let conn = rusqlite::Connection::open_in_memory().unwrap();
    conn.execute(
        "CREATE TABLE pasta (id INTEGER PRIMARY KEY, content TEXT NOT NULL, file_name TEXT, file_size INTEGER, extension TEXT NOT NULL, read_only INTEGER NOT NULL, private INTEGER NOT NULL, editable INTEGER NOT NULL, encrypt_server INTEGER NOT NULL, encrypt_client INTEGER NOT NULL, encrypted_key TEXT, created INTEGER NOT NULL, expiration INTEGER NOT NULL, last_read INTEGER NOT NULL, read_count INTEGER NOT NULL, burn_after_reads INTEGER NOT NULL, pasta_type TEXT NOT NULL)",
        (),
    )
    .unwrap();
    conn.execute(
        "INSERT INTO pasta (id, content, extension, read_only, private, editable, encrypt_server, encrypt_client, created, expiration, last_read, read_count, burn_after_reads, pasta_type) VALUES (42, 'old body', 'txt', 0, 0, 1, 0, 0, 1, 0, 0, 0, 0, 'text')",
        (),
    )
    .unwrap();
    let mut st = Store::attach(conn, Strategy::Words).unwrap();
    let all = st.list(5).unwrap();
    assert_eq!(all.len(), 1);
    assert_eq!(all[0].title, "Pasta 42");
    assert_eq!(all[0].content, "old body");
}

#[test]
fn default_title_text() {
    assert_eq!(make_default_title(0), "Pasta 0");
    assert_eq!(make_default_title(42), "Pasta 42");
    assert_eq!(make_default_title(1234567890), "Pasta 1234567890");
}

#[test]
fn file_presence_is_normalized_on_read() {
    let no_name = Row { file_name: Some(String::new()), file_size: Some(100), ..raw_row(1) };
    assert_eq!(from_row(&no_name).file, None);
    let zero_size = Row { file_name: Some(String::from("a.txt")), file_size: Some(0), ..raw_row(2) };
    assert_eq!(from_row(&zero_size).file, None);
    let only_name = Row { file_name: Some(String::from("a.txt")), file_size: None, ..raw_row(3) };
    assert_eq!(from_row(&only_name).file, None);
    let real = Row { file_name: Some(String::from("a.txt")), file_size: Some(9), ..raw_row(4) };
    assert_eq!(from_row(&real).file, Some(PastaFile { name: String::from("a.txt"), size: 9 }));
}

#[test]
fn titled_row_keeps_its_title() {
    let r = raw_row(7);
    assert_eq!(from_row(&r).title, "t7");
}
