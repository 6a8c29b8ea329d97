//! The durable store: one SQLite table holding every record, reached through
//! a small set of trusted declarations around rusqlite. The table is modeled
//! as a map from id to row image, and every verified function states what it
//! does to that map.

use vstd::prelude::*;
use crate::pasta::{Pasta, Row, RowV, row_view, spec_row_of, represents_row, from_row, to_row};

verus! {

/// rusqlite's connection handle, taken as an opaque value.
#[verifier::external_type_specification]
#[verifier::external_body]
pub struct ExConnection(rusqlite::Connection);

/// rusqlite's error type, taken as an opaque value.
#[verifier::external_type_specification]
#[verifier::external_body]
pub struct ExRusqliteError(rusqlite::Error);

/// What the pasta table of the connection's database holds, keyed by row id.
/// A database without the table holds nothing.
///
/// The contracts below track this map through the one connection that owns
/// the database: the store opens a single connection at startup and performs
/// every durable operation through it, under the same exclusive borrow that
/// guards the cache, so nothing else writes the file behind its back.
pub uninterp spec fn db_view(c: rusqlite::Connection) -> Map<i64, RowV>;

/// The row map of a database that holds no records.
pub open spec fn empty_rows() -> Map<i64, RowV> {
    Map::empty()
}

/// An error of the durable store. Details of the failed statement are not
/// part of the store's contract; the failure itself is surfaced, never
/// swallowed.
#[derive(Clone, Copy, PartialEq, Eq, Structural, Debug)]
pub struct DbError;

/// Relies on rusqlite::Connection::open_in_memory: a fresh database that
/// holds no tables, so no rows.
#[verifier::external_body]
pub fn open_memory_connection() -> (r: Result<rusqlite::Connection, rusqlite::Error>)
    ensures
        r matches Ok(c) ==> db_view(c) == empty_rows(),
{
    rusqlite::Connection::open_in_memory()
}

/// Relies on rusqlite::Connection::open: opens the database file at the
/// path, creating it when absent. What the file already holds is unknown.
///
/// The caller must keep this the only live connection to that file: two
/// connections to one path would alias one table behind the row-map model's
/// back. `Store::open_path` keeps that discipline by owning the connection
/// for the store's whole lifetime.
#[verifier::external_body]
pub fn open_file_connection(path: &str) -> (r: Result<rusqlite::Connection, rusqlite::Error>)
    ensures
        r matches Ok(c) ==> db_view(c).dom().finite(),
{
    rusqlite::Connection::open(path)
}

/// Relies on rusqlite::Connection::execute with CREATE TABLE IF NOT EXISTS:
/// makes the pasta table when it is missing and leaves held rows as they are.
#[verifier::external_body]
fn exec_create_table(c: &mut rusqlite::Connection) -> (r: Result<(), rusqlite::Error>)
    ensures
        db_view(*final(c)) == db_view(*old(c)),
{
    c.execute(
        "CREATE TABLE IF NOT EXISTS pasta (id INTEGER PRIMARY KEY, title TEXT, content TEXT NOT NULL, file_name TEXT, file_size INTEGER, extension TEXT NOT NULL, read_only INTEGER NOT NULL, private INTEGER NOT NULL, editable INTEGER NOT NULL, encrypt_server INTEGER NOT NULL, encrypt_client INTEGER NOT NULL, encrypted_key TEXT, created INTEGER NOT NULL, expiration INTEGER NOT NULL, last_read INTEGER NOT NULL, read_count INTEGER NOT NULL, burn_after_reads INTEGER NOT NULL, pasta_type TEXT NOT NULL)",
        (),
    )?;
    Ok(())
}

/// Relies on rusqlite::Connection::execute with ALTER TABLE ADD COLUMN:
/// gives a legacy table its title column, every held row's title staying
/// absent; fails when the column (or the table) is not there to add, with
/// nothing changed either way.
#[verifier::external_body]
fn exec_add_title_column(c: &mut rusqlite::Connection) -> (r: Result<(), rusqlite::Error>)
    ensures
        db_view(*final(c)) == db_view(*old(c)),
{
    c.execute("ALTER TABLE pasta ADD COLUMN title TEXT", ())?;
    Ok(())
}

/// Relies on rusqlite::Connection::execute with DROP TABLE IF EXISTS: on
/// success no rows remain; on failure nothing changed.
#[verifier::external_body]
fn exec_drop_table(c: &mut rusqlite::Connection) -> (r: Result<(), rusqlite::Error>)
    ensures
        r is Ok ==> db_view(*final(c)) == empty_rows(),
        r is Err ==> db_view(*final(c)) == db_view(*old(c)),
{
    c.execute("DROP TABLE IF EXISTS pasta", ())?;
    Ok(())
}

/// Relies on rusqlite::Connection::execute with INSERT: on success the table
/// gains exactly this row under its id, which was not taken (id is the
/// primary key); on failure — duplicate id, missing table — nothing changed.
#[verifier::external_body]
fn exec_insert_row(c: &mut rusqlite::Connection, r: &Row) -> (res: Result<(), rusqlite::Error>)
    ensures
        res is Ok ==> !db_view(*old(c)).dom().contains(r.id) && db_view(*final(c)) == db_view(
            *old(c),
        ).insert(r.id, row_view(*r)),
        res is Err ==> db_view(*final(c)) == db_view(*old(c)),
{
    c.execute(
        "INSERT INTO pasta (id, title, content, file_name, file_size, extension, read_only, private, editable, encrypt_server, encrypt_client, encrypted_key, created, expiration, last_read, read_count, burn_after_reads, pasta_type) VALUES (?1, ?2, ?3, ?4, ?5, ?6, ?7, ?8, ?9, ?10, ?11, ?12, ?13, ?14, ?15, ?16, ?17, ?18)",
        [&r.id as &dyn rusqlite::ToSql, &r.title, &r.content, &r.file_name, &r.file_size,
            &r.extension, &r.readonly, &r.private, &r.editable, &r.encrypt_server,
            &r.encrypt_client, &r.encrypted_key, &r.created, &r.expiration, &r.last_read,
            &r.read_count, &r.burn_after_reads, &r.pasta_type].as_slice(),
    )?;
    Ok(())
}

/// Relies on rusqlite::Connection::execute with UPDATE ... WHERE id: on
/// success the row under this id, if there is one, is replaced by this row;
/// on failure nothing changed.
#[verifier::external_body]
fn exec_update_row(c: &mut rusqlite::Connection, r: &Row) -> (res: Result<(), rusqlite::Error>)
    ensures
        res is Ok ==> db_view(*final(c)) == (if db_view(*old(c)).dom().contains(r.id) {
            db_view(*old(c)).insert(r.id, row_view(*r))
        } else {
            db_view(*old(c))
        }),
        res is Err ==> db_view(*final(c)) == db_view(*old(c)),
{
    c.execute(
        "UPDATE pasta SET title = ?2, content = ?3, file_name = ?4, file_size = ?5, extension = ?6, read_only = ?7, private = ?8, editable = ?9, encrypt_server = ?10, encrypt_client = ?11, encrypted_key = ?12, created = ?13, expiration = ?14, last_read = ?15, read_count = ?16, burn_after_reads = ?17, pasta_type = ?18 WHERE id = ?1",
        [&r.id as &dyn rusqlite::ToSql, &r.title, &r.content, &r.file_name, &r.file_size,
            &r.extension, &r.readonly, &r.private, &r.editable, &r.encrypt_server,
            &r.encrypt_client, &r.encrypted_key, &r.created, &r.expiration, &r.last_read,
            &r.read_count, &r.burn_after_reads, &r.pasta_type].as_slice(),
    )?;
    Ok(())
}

/// Relies on rusqlite::Connection::execute with DELETE ... WHERE id: on
/// success the row under this id, if any, is gone; on failure nothing
/// changed.
#[verifier::external_body]
fn exec_delete_row(c: &mut rusqlite::Connection, id: i64) -> (res: Result<(), rusqlite::Error>)
    ensures
        res is Ok ==> db_view(*final(c)) == db_view(*old(c)).remove(id),
        res is Err ==> db_view(*final(c)) == db_view(*old(c)),
{
    c.execute("DELETE FROM pasta WHERE id = ?1", [&id as &dyn rusqlite::ToSql].as_slice())?;
    Ok(())
}

/// Relies on rusqlite's prepare and query_map with SELECT ... ORDER BY
/// created ASC: on success, one row per held row image — ids are the primary
/// key, so they are pairwise distinct, each returned row is the held image of
/// its id, every held id is returned, and rows come sorted by creation time.
#[verifier::external_body]
fn exec_select_rows(c: &rusqlite::Connection) -> (res: Result<Vec<Row>, rusqlite::Error>)
    ensures
        res matches Ok(v) ==> {
            &&& forall|i: int|
                0 <= i < v@.len() ==> db_view(*c).dom().contains(#[trigger] v@[i].id)
                    && db_view(*c)[v@[i].id] == row_view(v@[i])
            &&& forall|k: i64|
                #[trigger] db_view(*c).dom().contains(k) ==> exists|i: int|
                    0 <= i < v@.len() && #[trigger] v@[i].id == k
            &&& forall|i: int, j: int| 0 <= i < j < v@.len() ==> v@[i].id != v@[j].id
            &&& forall|i: int, j: int|
                0 <= i <= j < v@.len() ==> #[trigger] v@[i].created <= #[trigger] v@[j].created
        },
{
    let mut s = c.prepare(
        "SELECT id, title, content, file_name, file_size, extension, read_only, private, editable, encrypt_server, encrypt_client, encrypted_key, created, expiration, last_read, read_count, burn_after_reads, pasta_type FROM pasta ORDER BY created ASC",
    )?;
    let it = s.query_map((), |r| Ok(new_row(
        r.get(0)?, r.get(1)?, r.get(2)?, r.get(3)?, r.get(4)?, r.get(5)?,
        r.get(6)?, r.get(7)?, r.get(8)?, r.get(9)?, r.get(10)?, r.get(11)?,
        r.get(12)?, r.get(13)?, r.get(14)?, r.get(15)?, r.get(16)?, r.get(17)?,
    )))?;
    it.collect()
}

/// Assembles a raw row from its column values, in the table's column order.
fn new_row(
    id: i64,
    title: Option<String>,
    content: String,
    file_name: Option<String>,
    file_size: Option<i64>,
    extension: String,
    readonly: bool,
    private: bool,
    editable: bool,
    encrypt_server: bool,
    encrypt_client: bool,
    encrypted_key: Option<String>,
    created: i64,
    expiration: i64,
    last_read: i64,
    read_count: i64,
    burn_after_reads: i64,
    pasta_type: String,
) -> (r: Row)
    ensures
        r == (Row {
            id,
            title,
            content,
            file_name,
            file_size,
            extension,
            readonly,
            private,
            editable,
            encrypt_server,
            encrypt_client,
            encrypted_key,
            created,
            expiration,
            last_read,
            read_count,
            burn_after_reads,
            pasta_type,
        }),
{
    Row {
        id,
        title,
        content,
        file_name,
        file_size,
        extension,
        readonly,
        private,
        editable,
        encrypt_server,
        encrypt_client,
        encrypted_key,
        created,
        expiration,
        last_read,
        read_count,
        burn_after_reads,
        pasta_type,
    }
}

/// What `read_all` promises of the records it returns, against the table's
/// row map: every returned record stands for a held row under its own id,
/// every held id is returned, ids never repeat, records come sorted by
/// creation time ascending, and each is well formed.
pub open spec fn loaded_records(db: Map<i64, RowV>, ps: Seq<Pasta>) -> bool {
    &&& forall|i: int|
        0 <= i < ps.len() ==> db.dom().contains(#[trigger] ps[i].id as i64) && represents_row(
            db[ps[i].id as i64],
            ps[i],
        )
    &&& forall|k: i64|
        #[trigger] db.dom().contains(k) ==> exists|i: int|
            0 <= i < ps.len() && #[trigger] ps[i].id as i64 == k
    &&& forall|i: int, j: int| 0 <= i < j < ps.len() ==> ps[i].id != ps[j].id
    &&& forall|i: int, j: int|
        0 <= i <= j < ps.len() ==> #[trigger] ps[i].created <= #[trigger] ps[j].created
    &&& forall|i: int| 0 <= i < ps.len() ==> (#[trigger] ps[i]).wf()
}

/// Loads every record, sorted by creation time ascending. Sets up the table
/// when absent and adds the title column to a legacy table first; a row
/// without a title loads with the generated placeholder title.
pub fn select_all_from_db(conn: &mut rusqlite::Connection) -> (r: Result<Vec<Pasta>, DbError>)
    ensures
        db_view(*final(conn)) == db_view(*old(conn)),
        r matches Ok(ps) ==> loaded_records(db_view(*final(conn)), ps@),
{
    if exec_create_table(conn).is_err() {
        return Err(DbError);
    }
    // A legacy table gains its title column here. Tables this module creates
    // already have the column, so a failure means there was nothing to
    // migrate.
    let _ = exec_add_title_column(conn);
    let rows = match exec_select_rows(conn) {
        Ok(v) => v,
        Err(_) => {
            return Err(DbError);
        },
    };
    let mut ps: Vec<Pasta> = Vec::new();
    let mut i: usize = 0;
    while i < rows.len()
        invariant
            0 <= i <= rows@.len(),
            ps@.len() == i,
            forall|j: int|
                0 <= j < rows@.len() ==> db_view(*conn).dom().contains(#[trigger] rows@[j].id)
                    && db_view(*conn)[rows@[j].id] == row_view(rows@[j]),
            forall|k: i64|
                #[trigger] db_view(*conn).dom().contains(k) ==> exists|j: int|
                    0 <= j < rows@.len() && #[trigger] rows@[j].id == k,
            forall|j: int, l: int| 0 <= j < l < rows@.len() ==> rows@[j].id != rows@[l].id,
            forall|j: int, l: int|
                0 <= j <= l < rows@.len() ==> #[trigger] rows@[j].created
                    <= #[trigger] rows@[l].created,
            forall|j: int| 0 <= j < i ==> #[trigger] ps@[j].id as i64 == rows@[j].id,
            forall|j: int| 0 <= j < i ==> #[trigger] ps@[j].created == rows@[j].created,
            forall|j: int|
                0 <= j < i ==> represents_row(db_view(*conn)[#[trigger] ps@[j].id as i64], ps@[j]),
            forall|j: int| 0 <= j < i ==> (#[trigger] ps@[j]).wf(),
        decreases rows@.len() - i,
    {
        let p = from_row(&rows[i]);
        ps.push(p);
        i = i + 1;
    }
    proof {
        assert forall|j: int, l: int| 0 <= j < l < ps@.len() implies ps@[j].id != ps@[l].id by {
            assert(ps@[j].id as i64 == rows@[j].id);
            assert(ps@[l].id as i64 == rows@[l].id);
        }
        assert forall|k: i64| #[trigger] db_view(*conn).dom().contains(k) implies exists|j: int|
            0 <= j < ps@.len() && #[trigger] ps@[j].id as i64 == k by {
            let j = choose|j: int| 0 <= j < rows@.len() && #[trigger] rows@[j].id == k;
            assert(ps@[j].id as i64 == k);
        }
    }
    Ok(ps)
}

/// Loads every record: the whole-set read of the durable store.
pub fn read_all(conn: &mut rusqlite::Connection) -> (r: Result<Vec<Pasta>, DbError>)
    ensures
        db_view(*final(conn)) == db_view(*old(conn)),
        r matches Ok(ps) ==> loaded_records(db_view(*final(conn)), ps@),
{
    select_all_from_db(conn)
}

/// After a failed whole-table rewrite: either nothing changed, or the table
/// holds exactly the rows of some prefix of the intended records.
pub open spec fn partial_rewrite(db0: Map<i64, RowV>, db: Map<i64, RowV>, s: Seq<Pasta>) -> bool {
    db == db0 || exists|j: int| 0 <= j <= s.len() && db == records_map(#[trigger] s.subrange(0, j))
}

/// The row map that a whole set of records is written as, keyed by id.
pub open spec fn records_map(s: Seq<Pasta>) -> Map<i64, RowV>
    decreases s.len(),
{
    if s.len() == 0 {
        Map::empty()
    } else {
        records_map(s.drop_last()).insert(s.last().id as i64, spec_row_of(s.last()))
    }
}

/// Replaces the whole table with the given records: drops it, recreates it,
/// and inserts every record. On failure partway, the table holds the rows of
/// some prefix of the given records.
pub fn rewrite_all_to_db(conn: &mut rusqlite::Connection, pastas: &Vec<Pasta>) -> (r: Result<
    (),
    DbError,
>)
    requires
        forall|i: int| 0 <= i < pastas@.len() ==> (#[trigger] pastas@[i]).wf(),
        forall|i: int, j: int| 0 <= i < j < pastas@.len() ==> pastas@[i].id != pastas@[j].id,
    ensures
        r is Ok ==> db_view(*final(conn)) == records_map(pastas@),
        r is Err ==> partial_rewrite(db_view(*old(conn)), db_view(*final(conn)), pastas@),
{
    if exec_drop_table(conn).is_err() {
        return Err(DbError);
    }
    if exec_create_table(conn).is_err() {
        proof {
            assert(pastas@.subrange(0, 0) =~= Seq::<Pasta>::empty());
            assert(db_view(*conn) == records_map(pastas@.subrange(0, 0)));
        }
        return Err(DbError);
    }
    let mut i: usize = 0;
    while i < pastas.len()
        invariant
            0 <= i <= pastas@.len(),
            forall|j: int| 0 <= j < pastas@.len() ==> (#[trigger] pastas@[j]).wf(),
            forall|j: int, l: int| 0 <= j < l < pastas@.len() ==> pastas@[j].id != pastas@[l].id,
            db_view(*conn) == records_map(pastas@.subrange(0, i as int)),
        decreases pastas@.len() - i,
    {
        let row = to_row(&pastas[i]);
        if exec_insert_row(conn, &row).is_err() {
            proof {
                assert(db_view(*conn) == records_map(pastas@.subrange(0, i as int)));
            }
            return Err(DbError);
        }
        i = i + 1;
        proof {
            let pre = pastas@.subrange(0, i as int);
            assert(pre.drop_last() =~= pastas@.subrange(0, i - 1));
            assert(pre.last() == pastas@[i - 1]);
            assert(db_view(*conn) == records_map(pre));
        }
    }
    proof {
        assert(pastas@.subrange(0, pastas@.len() as int) =~= pastas@);
    }
    Ok(())
}

/// Rewrites the durable store to hold exactly the given records: the
/// whole-set write of the durable store.
pub fn update_all(conn: &mut rusqlite::Connection, pastas: &Vec<Pasta>) -> (r: Result<(), DbError>)
    requires
        forall|i: int| 0 <= i < pastas@.len() ==> (#[trigger] pastas@[i]).wf(),
        forall|i: int, j: int| 0 <= i < j < pastas@.len() ==> pastas@[i].id != pastas@[j].id,
    ensures
        r is Ok ==> db_view(*final(conn)) == records_map(pastas@),
        r is Err ==> partial_rewrite(db_view(*old(conn)), db_view(*final(conn)), pastas@),
{
    rewrite_all_to_db(conn, pastas)
}

/// Inserts one record. On success the table gains exactly its row, under an
/// id that was free; on failure — duplicate id among them — nothing changed.
pub fn insert(conn: &mut rusqlite::Connection, p: &Pasta) -> (r: Result<(), DbError>)
    requires
        p.wf(),
    ensures
        r is Ok ==> !db_view(*old(conn)).dom().contains(p.id as i64) && db_view(*final(conn))
            == db_view(*old(conn)).insert(p.id as i64, spec_row_of(*p)),
        r is Err ==> db_view(*final(conn)) == db_view(*old(conn)),
{
    if exec_create_table(conn).is_err() {
        return Err(DbError);
    }
    let row = to_row(p);
    match exec_insert_row(conn, &row) {
        Ok(_) => Ok(()),
        Err(_) => Err(DbError),
    }
}

/// Replaces all columns of the row whose id matches the record's. A missing
/// id is a no-op, not an error; on failure nothing changed.
pub fn update(conn: &mut rusqlite::Connection, p: &Pasta) -> (r: Result<(), DbError>)
    requires
        p.wf(),
    ensures
        r is Ok ==> db_view(*final(conn)) == (if db_view(*old(conn)).dom().contains(p.id as i64) {
            db_view(*old(conn)).insert(p.id as i64, spec_row_of(*p))
        } else {
            db_view(*old(conn))
        }),
        r is Err ==> db_view(*final(conn)) == db_view(*old(conn)),
{
    let row = to_row(p);
    match exec_update_row(conn, &row) {
        Ok(_) => Ok(()),
        Err(_) => Err(DbError),
    }
}

/// Deletes the row with this id. A missing id is a no-op, not an error; on
/// failure nothing changed.
pub fn delete_by_id(conn: &mut rusqlite::Connection, id: u64) -> (r: Result<(), DbError>)
    ensures
        r is Ok ==> db_view(*final(conn)) == db_view(*old(conn)).remove(id as i64),
        r is Err ==> db_view(*final(conn)) == db_view(*old(conn)),
{
    match exec_delete_row(conn, id as i64) {
        Ok(_) => Ok(()),
        Err(_) => Err(DbError),
    }
}

} // verus!
