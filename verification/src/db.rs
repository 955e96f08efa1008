//! The trusted boundary to the relational store.
//!
//! The store is a SQLite database reached through `rusqlite`. Verified code
//! never touches SQL itself: every statement the engine issues stands behind
//! one wrapper here, whose contract states, over an abstract `StoreState`,
//! what SQLite's documented semantics guarantee of that statement. The
//! engine assumes a single process holding a single connection to the store,
//! so a connection value determines the store contents it sees.

use rusqlite::OptionalExtension;
use vstd::prelude::*;

verus! {

use crate::err::BMarkError;

/// Relies on `rusqlite::Error`'s `Display` text and the
/// `SQLITE_CONSTRAINT` primary error code: a failure whose code is
/// `ConstraintViolation` came from a key or uniqueness constraint; anything
/// else is reported as a general store failure.
#[verifier::external_body]
fn err_of(e: rusqlite::Error) -> BMarkError {
    match &e {
        rusqlite::Error::SqliteFailure(f, _) if f.code
            == rusqlite::ErrorCode::ConstraintViolation => BMarkError::Constraint(
            format!("{}", e),
        ),
        _ => BMarkError::Backend(format!("{}", e)),
    }
}

/// Relies on `rusqlite::Error`'s `Display` implementation: the text of the
/// failure, for error reports.
#[verifier::external_body]
fn sqlite_msg(e: rusqlite::Error) -> String {
    format!("{}", e)
}

#[verifier::external_type_specification]
#[verifier::external_body]
pub struct ExConnection(rusqlite::Connection);

#[verifier::external_type_specification]
#[verifier::external_body]
pub struct ExSqliteError(rusqlite::Error);

/// A row of the `bmark` table.
pub ghost struct BmarkRowV {
    pub id: Seq<char>,
    pub url: Seq<char>,
    pub name: Option<Seq<char>>,
    pub desc: Option<Seq<char>>,
    pub category: Option<Seq<char>>,
    pub added_at: Seq<char>,
}

/// A row of the `tag` table.
pub ghost struct TagRowV {
    pub id: Seq<char>,
    pub name: Seq<char>,
    pub added_at: Seq<char>,
}

/// A row of the `bmark_tag` association table.
pub ghost struct LinkRowV {
    pub bmark_id: Seq<char>,
    pub tag_id: Seq<char>,
    pub created_at: Seq<char>,
}

/// The contents of the store as seen through one connection: the table
/// names present in the schema catalog, and the rows of the three tables,
/// each in insertion order.
pub ghost struct StoreState {
    pub tables: Set<Seq<char>>,
    pub bmarks: Seq<BmarkRowV>,
    pub tags: Seq<TagRowV>,
    pub links: Seq<LinkRowV>,
}

/// The store contents currently visible through connection `c`, including
/// changes of an open transaction.
pub uninterp spec fn state_of(c: rusqlite::Connection) -> StoreState;

/// The last committed store contents behind connection `c`: what survives
/// if the open transaction (if any) is rolled back.
pub uninterp spec fn committed_of(c: rusqlite::Connection) -> StoreState;

/// Whether connection `c` has an explicit transaction open.
pub uninterp spec fn in_txn_of(c: rusqlite::Connection) -> bool;

/// The contents of a freshly created, empty database.
pub open spec fn empty_store() -> StoreState {
    StoreState {
        tables: Set::empty(),
        bmarks: Seq::empty(),
        tags: Seq::empty(),
        links: Seq::empty(),
    }
}

/// Relies on `rusqlite::Connection::open_in_memory`: it creates a new,
/// empty database (no tables, hence no rows), with no transaction open.
#[verifier::external_body]
pub(crate) fn open_memory() -> (r: Result<rusqlite::Connection, BMarkError>)
    ensures
        match r {
            Ok(c) => !in_txn_of(c) && state_of(c) == empty_store() && committed_of(c)
                == empty_store(),
            Err(_) => true,
        },
{
    rusqlite::Connection::open_in_memory().map_err(err_of)
}

/// Relies on `rusqlite::Connection::open`: it opens the database file at
/// `path` (creating an empty one if absent, never truncating an existing
/// one) in autocommit mode, so no transaction is open and nothing is
/// pending beyond the committed contents. Every failure to open is a
/// configuration error.
#[verifier::external_body]
pub(crate) fn open_file(path: &str) -> (r: Result<rusqlite::Connection, BMarkError>)
    ensures
        match r {
            Ok(c) => !in_txn_of(c) && state_of(c) == committed_of(c),
            Err(e) => e is Config,
        },
{
    rusqlite::Connection::open(path).map_err(|e| BMarkError::Config(sqlite_msg(e)))
}

/// Relies on `rusqlite::Connection::open_with_flags` with
/// `SQLITE_OPEN_READ_ONLY`: it opens the existing database file at `path`
/// read-only (failing if the file does not exist) in autocommit mode.
/// Every failure to open is a configuration error.
#[verifier::external_body]
pub(crate) fn open_file_readonly(path: &str) -> (r: Result<rusqlite::Connection, BMarkError>)
    ensures
        match r {
            Ok(c) => !in_txn_of(c) && state_of(c) == committed_of(c),
            Err(e) => e is Config,
        },
{
    rusqlite::Connection::open_with_flags(path, rusqlite::OpenFlags::SQLITE_OPEN_READ_ONLY)
        .map_err(|e| BMarkError::Config(sqlite_msg(e)))
}

/// Relies on `rusqlite::Connection::query_row` over
/// `SELECT name FROM sqlite_master WHERE type='table' AND name=?1` with
/// `.optional()`: `sqlite_master` lists exactly the schema objects of the
/// database with their type, so a row comes back if and only if a table
/// named `name` exists. (The type restriction matters: `sqlite_master`
/// also lists the automatic indexes that a primary key or uniqueness
/// constraint creates.)
#[verifier::external_body]
pub(crate) fn table_exists(c: &rusqlite::Connection, name: &str) -> (r: Result<
    bool,
    BMarkError,
>)
    ensures
        match r {
            Ok(b) => b == state_of(*c).tables.contains(name@),
            Err(e) => !(e is Validation),
        },
{
    let found: Option<String> = c.query_row(
        "SELECT name FROM sqlite_master WHERE type='table' AND name=?1",
        (name,),
        |row| row.get(0),
    ).optional().map_err(err_of)?;
    Ok(found.is_some())
}

/// Relies on `rusqlite::Connection::execute_batch("BEGIN;")`: it opens an
/// explicit transaction and changes no data; on failure (e.g. a transaction
/// is already open) nothing changes.
#[verifier::external_body]
pub(crate) fn begin_txn(c: &mut rusqlite::Connection) -> (r: Result<(), BMarkError>)
    requires
        !in_txn_of(*old(c)),
    ensures
        state_of(*final(c)) == state_of(*old(c)),
        committed_of(*final(c)) == committed_of(*old(c)),
        match r {
            Ok(_) => in_txn_of(*final(c)),
            Err(e) => !in_txn_of(*final(c)) && !(e is Validation),
        },
{
    c.execute_batch("BEGIN;").map_err(err_of)
}

/// Relies on `rusqlite::Connection::execute_batch("COMMIT;")`: on success
/// the pending changes become the committed contents and the transaction is
/// closed. On failure SQLite either keeps the transaction open with its
/// pending changes (e.g. `SQLITE_BUSY`) or has rolled it back on its own
/// (certain error codes auto-roll-back); either way the committed contents
/// are untouched.
#[verifier::external_body]
pub(crate) fn commit_txn(c: &mut rusqlite::Connection) -> (r: Result<(), BMarkError>)
    requires
        in_txn_of(*old(c)),
    ensures
        match r {
            Ok(_) => !in_txn_of(*final(c)) && state_of(*final(c)) == state_of(*old(c))
                && committed_of(*final(c)) == state_of(*old(c)),
            Err(e) => committed_of(*final(c)) == committed_of(*old(c)) && ((in_txn_of(*final(c))
                && state_of(*final(c)) == state_of(*old(c))) || (!in_txn_of(*final(c))
                && state_of(*final(c)) == committed_of(*old(c)))) && !(e is Validation),
        },
{
    c.execute_batch("COMMIT;").map_err(err_of)
}

/// Relies on `rusqlite::Connection::execute_batch("ROLLBACK;")`: it discards
/// all pending changes of the open transaction and closes it, restoring the
/// committed contents. If no transaction is open (allowed here only when
/// nothing is pending) the statement fails and changes nothing. `ROLLBACK`
/// itself can fail only while a reading statement is live on the
/// connection, and no statement outlives any wrapper of this module.
#[verifier::external_body]
pub(crate) fn rollback_txn(c: &mut rusqlite::Connection)
    requires
        in_txn_of(*old(c)) || state_of(*old(c)) == committed_of(*old(c)),
    ensures
        !in_txn_of(*final(c)),
        state_of(*final(c)) == committed_of(*old(c)),
        committed_of(*final(c)) == committed_of(*old(c)),
{
    let _ = c.execute_batch("ROLLBACK;");
}

/// The view of an optional borrowed string.
pub open spec fn opt_view(o: Option<&str>) -> Option<Seq<char>> {
    match o {
        Some(s) => Some(s@),
        None => None,
    }
}

/// What a failed statement inside a transaction leaves behind. SQLite's
/// default `ON CONFLICT ABORT` backs out only the failing statement and
/// keeps the transaction open, but certain failures (`SQLITE_FULL`,
/// `SQLITE_IOERR`, `SQLITE_BUSY`, `SQLITE_NOMEM`) may roll the whole
/// transaction back on their own; either way the committed contents and
/// everything the statement did not touch are intact.
pub open spec fn stmt_failed(pre: StoreState, pre_committed: StoreState, c: rusqlite::Connection) -> bool {
    &&& committed_of(c) == pre_committed
    &&& ((in_txn_of(c) && state_of(c) == pre) || (!in_txn_of(c) && state_of(c) == pre_committed))
}

/// Relies on `CREATE TABLE bmark (...)` through `rusqlite::Connection::execute`:
/// on success the table did not exist, now exists and is empty, and nothing
/// else changes; `CREATE TABLE` fails if the table already exists.
#[verifier::external_body]
pub(crate) fn create_bmark_table(c: &mut rusqlite::Connection) -> (r: Result<(), BMarkError>)
    requires
        in_txn_of(*old(c)),
    ensures
        match r {
            Ok(_) => in_txn_of(*final(c)) && committed_of(*final(c)) == committed_of(*old(c))
                && !state_of(*old(c)).tables.contains("bmark"@) && state_of(*final(c))
                == (StoreState {
                tables: state_of(*old(c)).tables.insert("bmark"@),
                bmarks: Seq::empty(),
                ..state_of(*old(c))
            }),
            Err(e) => stmt_failed(state_of(*old(c)), committed_of(*old(c)), *final(c)) && !(
            e is Validation),
        },
{
    match c.execute(
        "CREATE TABLE bmark ( id TEXT PRIMARY KEY, url TEXT NOT NULL, name TEXT, description TEXT, category TEXT, added_at TEXT NOT NULL DEFAULT current_timestamp);",
        (),
    ) {
        Ok(_) => Ok(()),
        Err(e) => Err(BMarkError::Schema(sqlite_msg(e))),
    }
}

/// Relies on `CREATE TABLE tag (...)` through `rusqlite::Connection::execute`:
/// on success the table did not exist, now exists and is empty, and nothing
/// else changes; `CREATE TABLE` fails if the table already exists.
#[verifier::external_body]
pub(crate) fn create_tag_table(c: &mut rusqlite::Connection) -> (r: Result<(), BMarkError>)
    requires
        in_txn_of(*old(c)),
    ensures
        match r {
            Ok(_) => in_txn_of(*final(c)) && committed_of(*final(c)) == committed_of(*old(c))
                && !state_of(*old(c)).tables.contains("tag"@) && state_of(*final(c))
                == (StoreState {
                tables: state_of(*old(c)).tables.insert("tag"@),
                tags: Seq::empty(),
                ..state_of(*old(c))
            }),
            Err(e) => stmt_failed(state_of(*old(c)), committed_of(*old(c)), *final(c)) && !(
            e is Validation),
        },
{
    match c.execute(
        "CREATE TABLE tag ( id TEXT PRIMARY KEY, name TEXT UNIQUE NOT NULL, added_at TEXT NOT NULL DEFAULT current_timestamp);",
        (),
    ) {
        Ok(_) => Ok(()),
        Err(e) => Err(BMarkError::Schema(sqlite_msg(e))),
    }
}

/// Relies on `CREATE TABLE bmark_tag (...)` through
/// `rusqlite::Connection::execute`: on success the table did not exist, now
/// exists and is empty, and nothing else changes; `CREATE TABLE` fails if
/// the table already exists.
#[verifier::external_body]
pub(crate) fn create_link_table(c: &mut rusqlite::Connection) -> (r: Result<(), BMarkError>)
    requires
        in_txn_of(*old(c)),
    ensures
        match r {
            Ok(_) => in_txn_of(*final(c)) && committed_of(*final(c)) == committed_of(*old(c))
                && !state_of(*old(c)).tables.contains("bmark_tag"@) && state_of(*final(c))
                == (StoreState {
                tables: state_of(*old(c)).tables.insert("bmark_tag"@),
                links: Seq::empty(),
                ..state_of(*old(c))
            }),
            Err(e) => stmt_failed(state_of(*old(c)), committed_of(*old(c)), *final(c)) && !(
            e is Validation),
        },
{
    match c.execute(
        "CREATE TABLE bmark_tag ( bmark_id TEXT, tag_id TEXT, created_at TEXT NOT NULL DEFAULT current_timestamp, FOREIGN KEY (bmark_id) REFERENCES bmark(id), FOREIGN KEY (tag_id) REFERENCES tag(id), PRIMARY KEY (bmark_id, tag_id));",
        (),
    ) {
        Ok(_) => Ok(()),
        Err(e) => Err(BMarkError::Schema(sqlite_msg(e))),
    }
}

/// Relies on `INSERT INTO bmark (...) VALUES (?1..?6)` through
/// `rusqlite::Connection::execute` with parameter binding: on success
/// exactly one row with the given values is appended; `id` is the primary
/// key, so success also means no existing row carried it. A `NULL` is
/// stored for an absent optional value.
#[verifier::external_body]
pub(crate) fn insert_bmark_row(
    c: &mut rusqlite::Connection,
    id: &str,
    url: &str,
    name: Option<&str>,
    desc: Option<&str>,
    category: Option<&str>,
    added_at: &str,
) -> (r: Result<(), BMarkError>)
    requires
        in_txn_of(*old(c)),
    ensures
        match r {
            Ok(_) => in_txn_of(*final(c)) && committed_of(*final(c)) == committed_of(*old(c))
                && (forall|i: int|
                0 <= i < state_of(*old(c)).bmarks.len() ==> state_of(*old(c)).bmarks[i].id
                    != id@) && state_of(*final(c)) == (StoreState {
                bmarks: state_of(*old(c)).bmarks.push(
                    BmarkRowV {
                        id: id@,
                        url: url@,
                        name: opt_view(name),
                        desc: opt_view(desc),
                        category: opt_view(category),
                        added_at: added_at@,
                    },
                ),
                ..state_of(*old(c))
            }),
            Err(e) => stmt_failed(state_of(*old(c)), committed_of(*old(c)), *final(c)) && !(
            e is Validation),
        },
{
    match c.execute(
        "INSERT INTO bmark (id, url, name, description, category, added_at) VALUES (?1, ?2, ?3, ?4, ?5, ?6)",
        (id, url, name, desc, category, added_at),
    ) {
        Ok(_) => Ok(()),
        Err(e) => Err(err_of(e)),
    }
}

/// Relies on `INSERT INTO tag (id, name, added_at) VALUES (?1, ?2, ?3)`
/// through `rusqlite::Connection::execute`: on success exactly one row with
/// the given values is appended; `id` is the primary key and `name` is
/// `UNIQUE`, so success also means no existing row carried either.
#[verifier::external_body]
pub(crate) fn insert_tag_row(
    c: &mut rusqlite::Connection,
    id: &str,
    name: &str,
    added_at: &str,
) -> (r: Result<(), BMarkError>)
    requires
        in_txn_of(*old(c)),
    ensures
        match r {
            Ok(_) => in_txn_of(*final(c)) && committed_of(*final(c)) == committed_of(*old(c))
                && (forall|i: int|
                0 <= i < state_of(*old(c)).tags.len() ==> state_of(*old(c)).tags[i].id != id@
                    && state_of(*old(c)).tags[i].name != name@) && state_of(*final(c))
                == (StoreState {
                tags: state_of(*old(c)).tags.push(
                    TagRowV { id: id@, name: name@, added_at: added_at@ },
                ),
                ..state_of(*old(c))
            }),
            Err(e) => stmt_failed(state_of(*old(c)), committed_of(*old(c)), *final(c)) && !(
            e is Validation),
        },
{
    match c.execute(
        "INSERT INTO tag (id, name, added_at) VALUES (?1, ?2, ?3)",
        (id, name, added_at),
    ) {
        Ok(_) => Ok(()),
        Err(e) => Err(err_of(e)),
    }
}

/// Relies on `INSERT INTO bmark_tag (bmark_id, tag_id, created_at) VALUES
/// (?1, ?2, ?3)` through `rusqlite::Connection::execute`: on success exactly
/// one row with the given values is appended; `(bmark_id, tag_id)` is the
/// composite primary key, so success also means no existing row carried
/// this pair.
#[verifier::external_body]
pub(crate) fn insert_link_row(
    c: &mut rusqlite::Connection,
    bmark_id: &str,
    tag_id: &str,
    created_at: &str,
) -> (r: Result<(), BMarkError>)
    requires
        in_txn_of(*old(c)),
    ensures
        match r {
            Ok(_) => in_txn_of(*final(c)) && committed_of(*final(c)) == committed_of(*old(c))
                && (forall|i: int|
                0 <= i < state_of(*old(c)).links.len() ==> !(state_of(*old(c)).links[i].bmark_id
                    == bmark_id@ && state_of(*old(c)).links[i].tag_id == tag_id@)) && state_of(
                *final(c),
            ) == (StoreState {
                links: state_of(*old(c)).links.push(
                    LinkRowV { bmark_id: bmark_id@, tag_id: tag_id@, created_at: created_at@ },
                ),
                ..state_of(*old(c))
            }),
            Err(e) => stmt_failed(state_of(*old(c)), committed_of(*old(c)), *final(c)) && !(
            e is Validation),
        },
{
    match c.execute(
        "INSERT INTO bmark_tag (bmark_id, tag_id, created_at) VALUES (?1, ?2, ?3)",
        (bmark_id, tag_id, created_at),
    ) {
        Ok(_) => Ok(()),
        Err(e) => Err(err_of(e)),
    }
}

/// Relies on `SELECT id FROM tag WHERE name=?1` through
/// `rusqlite::Connection::query_row` with `.optional()` and parameter
/// binding: a row comes back exactly when the `tag` table holds a row with
/// that name, and then its `id` column.
#[verifier::external_body]
pub(crate) fn query_tag_id(c: &rusqlite::Connection, name: &str) -> (r: Result<
    Option<String>,
    BMarkError,
>)
    ensures
        match r {
            Ok(Some(id)) => exists|i: int|
                0 <= i < state_of(*c).tags.len() && state_of(*c).tags[i].name == name@ && state_of(
                    *c,
                ).tags[i].id == id@,
            Ok(None) => forall|i: int|
                0 <= i < state_of(*c).tags.len() ==> state_of(*c).tags[i].name != name@,
            Err(e) => !(e is Validation),
        },
{
    c.query_row("SELECT id FROM tag WHERE name=?1", (name,), |row| row.get(0)).optional().map_err(
        err_of,
    )
}

/// The view of an optional owned string.
pub open spec fn opt_string_view(o: Option<String>) -> Option<Seq<char>> {
    match o {
        Some(s) => Some(s@),
        None => None,
    }
}

/// One result row of the listing join: a bookmark paired with at most one
/// of its tag names. A bookmark without any association, or whose
/// association matches no tag row, appears with an absent tag name.
pub struct JoinRow {
    pub id: String,
    pub url: String,
    pub name: Option<String>,
    pub tag: Option<String>,
    pub desc: Option<String>,
    pub category: Option<String>,
}

/// The mathematical value of a [`JoinRow`].
pub ghost struct JoinRowV {
    pub id: Seq<char>,
    pub url: Seq<char>,
    pub name: Option<Seq<char>>,
    pub tag: Option<Seq<char>>,
    pub desc: Option<Seq<char>>,
    pub category: Option<Seq<char>>,
}

impl View for JoinRow {
    type V = JoinRowV;

    open spec fn view(&self) -> JoinRowV {
        JoinRowV {
            id: self.id@,
            url: self.url@,
            name: opt_string_view(self.name),
            tag: opt_string_view(self.tag),
            desc: opt_string_view(self.desc),
            category: opt_string_view(self.category),
        }
    }
}

impl DeepView for JoinRow {
    type V = JoinRowV;

    open spec fn deep_view(&self) -> JoinRowV {
        self.view()
    }
}

/// The join row a bookmark row produces with tag name `tag` (absent for
/// the dangling side of the left join).
pub open spec fn join_row_of(b: BmarkRowV, tag: Option<Seq<char>>) -> JoinRowV {
    JoinRowV {
        id: b.id,
        url: b.url,
        name: b.name,
        tag: tag,
        desc: b.desc,
        category: b.category,
    }
}

/// The association rows of bookmark `bid`, in table order.
pub open spec fn links_of(links: Seq<LinkRowV>, bid: Seq<char>) -> Seq<LinkRowV> {
    links.filter(|l: LinkRowV| l.bmark_id == bid)
}

/// The tag rows with identifier `tid`, in table order.
pub open spec fn tags_with_id(tags: Seq<TagRowV>, tid: Seq<char>) -> Seq<TagRowV> {
    tags.filter(|t: TagRowV| t.id == tid)
}

/// The join rows of one bookmark across its association rows `ls`: one row
/// per matching tag row, and a row with an absent tag name for an
/// association matching no tag row.
pub open spec fn join_link_rows(b: BmarkRowV, tags: Seq<TagRowV>, ls: Seq<LinkRowV>) -> Seq<
    JoinRowV,
>
    decreases ls.len(),
{
    if ls.len() == 0 {
        Seq::empty()
    } else {
        let m = tags_with_id(tags, ls[0].tag_id);
        let head = if m.len() == 0 {
            seq![join_row_of(b, None)]
        } else {
            m.map_values(|t: TagRowV| join_row_of(b, Some(t.name)))
        };
        head + join_link_rows(b, tags, ls.drop_first())
    }
}

/// The join rows of one bookmark: a single row with an absent tag name if
/// it has no associations, else one row per association.
pub open spec fn join_bmark(b: BmarkRowV, tags: Seq<TagRowV>, links: Seq<LinkRowV>) -> Seq<
    JoinRowV,
> {
    let ls = links_of(links, b.id);
    if ls.len() == 0 {
        seq![join_row_of(b, None)]
    } else {
        join_link_rows(b, tags, ls)
    }
}

pub open spec fn join_bmarks(bs: Seq<BmarkRowV>, tags: Seq<TagRowV>, links: Seq<LinkRowV>) -> Seq<
    JoinRowV,
>
    decreases bs.len(),
{
    if bs.len() == 0 {
        Seq::empty()
    } else {
        join_bmark(bs[0], tags, links) + join_bmarks(bs.drop_first(), tags, links)
    }
}

/// What one left-join query over the three tables returns, as a sequence
/// in bookmark-table order; the store hands it back in an unspecified
/// order, so contracts compare multisets.
pub open spec fn join_of(s: StoreState) -> Seq<JoinRowV> {
    join_bmarks(s.bmarks, s.tags, s.links)
}

/// Relies on one `SELECT b.id, b.url, b.name, t.name, b.description,
/// b.category FROM bmark b LEFT JOIN bmark_tag bt ON bt.bmark_id=b.id LEFT
/// JOIN tag t ON bt.tag_id=t.id` query through `rusqlite`'s `prepare` and
/// `query_map`: SQL left-join semantics return exactly one row per
/// bookmark and matching association and tag row, one row with a NULL tag
/// name for a bookmark with no match; a NULL column reads back as an
/// absent optional value. The query orders rows by bookmark and
/// association insertion order for display convenience, but SQLite's
/// ordering guarantees are not relied on: the contract pins only the row
/// multiset.
#[verifier::external_body]
pub(crate) fn query_join_rows(c: &rusqlite::Connection) -> (r: Result<Vec<JoinRow>, BMarkError>)
    ensures
        match r {
            Ok(rows) => rows.deep_view().to_multiset() == join_of(state_of(*c)).to_multiset(),
            Err(e) => !(e is Validation),
        },
{
    let mut stmt = c.prepare(
        "SELECT b.id, b.url, b.name, t.name, b.description, b.category FROM bmark b LEFT JOIN bmark_tag bt ON bt.bmark_id=b.id LEFT JOIN tag t ON bt.tag_id=t.id ORDER BY b.rowid, bt.rowid",
    ).map_err(err_of)?;
    let rows = stmt.query_map([], |row| {
        Ok(JoinRow { id: row.get(0)?, url: row.get(1)?, name: row.get(2)?, tag: row.get(3)?, desc: row.get(4)?, category: row.get(5)? })
    }).map_err(err_of)?;
    rows.collect::<Result<Vec<JoinRow>, rusqlite::Error>>().map_err(err_of)
}

/// The lowercase hexadecimal digit character for `d` (0-15).
pub open spec fn spec_hex_digit(d: int) -> char {
    if d == 0 {
        '0'
    } else if d == 1 {
        '1'
    } else if d == 2 {
        '2'
    } else if d == 3 {
        '3'
    } else if d == 4 {
        '4'
    } else if d == 5 {
        '5'
    } else if d == 6 {
        '6'
    } else if d == 7 {
        '7'
    } else if d == 8 {
        '8'
    } else if d == 9 {
        '9'
    } else if d == 10 {
        'a'
    } else if d == 11 {
        'b'
    } else if d == 12 {
        'c'
    } else if d == 13 {
        'd'
    } else if d == 14 {
        'e'
    } else {
        'f'
    }
}

/// The lowest `width` hexadecimal digits of `n`, most significant first,
/// zero-padded.
pub open spec fn spec_hex_fixed(n: int, width: nat) -> Seq<char>
    decreases width,
{
    if width == 0 {
        Seq::empty()
    } else {
        spec_hex_fixed(n / 16, (width - 1) as nat).push(spec_hex_digit(n % 16))
    }
}

/// The 48-bit millisecond timestamp a version-7 identifier generated at
/// `secs` carries: the seconds scaled to milliseconds, saturating at the
/// 64-bit bound, truncated to the low 48 bits of the field.
pub open spec fn spec_v7_millis(secs: u64) -> int {
    let millis = if secs as int * 1000 > 0xFFFF_FFFF_FFFF_FFFF {
        0xFFFF_FFFF_FFFF_FFFF as int
    } else {
        secs as int * 1000
    };
    millis % 0x1_0000_0000_0000
}

/// Relies on `uuid::Uuid::new_v7` over a `uuid::Timestamp` built from the
/// given epoch second, rendered hyphenated: per the version-7 layout in
/// the crate's source, the first 48 bits hold the saturating millisecond
/// timestamp of the argument (its low 48 bits), the version nibble is 7
/// and the variant bits are binary 10; everything else is freshly drawn at
/// random, so nothing more is stated — in particular not distinctness.
/// The hyphenated form is 36 lowercase-hex characters in 8-4-4-4-12
/// groups, so the timestamp is the first twelve digits and the version
/// nibble the first digit of the third group.
#[verifier::external_body]
pub(crate) fn new_v7_id(epoch_secs: u64) -> (r: String)
    ensures
        r@.len() == 36,
        r@[8] == '-' && r@[13] == '-' && r@[18] == '-' && r@[23] == '-',
        r@.subrange(0, 8) + r@.subrange(9, 13) == spec_hex_fixed(spec_v7_millis(epoch_secs), 12),
        r@[14] == '7',
        r@[19] == '8' || r@[19] == '9' || r@[19] == 'a' || r@[19] == 'b',
{
    let ts = uuid::Timestamp::from_unix(uuid::NoContext, epoch_secs, 0);
    uuid::Uuid::new_v7(ts).hyphenated().to_string()
}

} // verus!
