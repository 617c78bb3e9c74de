//! The scope store: a durable, uniquely-keyed collection of scope records,
//! backed by a sqlite database through rusqlite.
//!
//! The store is modelled as a map from address text to the stored row: the
//! comma-joined names, the comment, and the liveness flag. The trusted
//! wrappers below state, over that map, what each sql statement does; every
//! store operation is verified against those statements.

use vstd::prelude::*;

use crate::codec::{line_addr, line_comment, line_names, line_valid, parse_line, ScopeRecord};
use crate::errors::ScopeError;
use crate::ip::{is_valid_ip, is_valid_ip_chars};
use crate::text::{join_ch, join_comma, split_ch, split_on, str_views};

verus! {

#[verifier::external_type_specification]
#[verifier::external_body]
pub struct ExConnection(rusqlite::Connection);

#[verifier::external_type_specification]
#[verifier::external_body]
pub struct ExSqlError(rusqlite::Error);

/// The rows of the scope table held by a connection: address text to
/// (comma-joined names, comment, liveness), keyed by the unique ip column.
pub uninterp spec fn db_rows(conn: rusqlite::Connection) -> Map<
    Seq<char>,
    (Seq<char>, Seq<char>, bool),
>;

/// Relies on rusqlite's Connection::open, which opens or creates the sqlite
/// database file at `path`. Nothing is assumed of the rows it holds.
#[verifier::external_body]
fn db_open(path: &str) -> (r: Result<rusqlite::Connection, rusqlite::Error>) {
    rusqlite::Connection::open(path)
}

/// Relies on rusqlite's Connection::execute running CREATE TABLE IF NOT
/// EXISTS, which never adds, removes, or alters rows of the scope table.
#[verifier::external_body]
fn db_init(conn: &mut rusqlite::Connection) -> (r: Result<(), rusqlite::Error>)
    ensures
        db_rows(*final(conn)) == db_rows(*old(conn)),
{
    conn.execute(
        "CREATE TABLE IF NOT EXISTS scope (
            id  INTEGER PRIMARY KEY,
            ip  TEXT UNIQUE,
            names TEXT,
            comment TEXT,
            live INTEGER
        )",
        (),
    ).map(|_| ())
}

/// Relies on rusqlite's Connection::execute running INSERT .. ON CONFLICT(ip)
/// DO UPDATE: the row is stored under its unique ip key, replacing any
/// previous row with that key; a failed statement changes nothing.
#[verifier::external_body]
fn db_upsert(
    conn: &mut rusqlite::Connection,
    ip: &str,
    names: &str,
    comment: &str,
    live: bool,
) -> (r: Result<(), rusqlite::Error>)
    ensures
        r is Ok ==> db_rows(*final(conn)) == db_rows(*old(conn)).insert(
            ip@,
            (names@, comment@, live),
        ),
        r is Err ==> db_rows(*final(conn)) == db_rows(*old(conn)),
{
    conn.execute(
        "INSERT INTO scope (ip, names, comment, live) VALUES (?1, ?2, ?3, ?4)
        ON CONFLICT(ip) DO UPDATE SET
        names = excluded.names,
        comment = excluded.comment,
        live = excluded.live
        ",
        (ip, names, comment, live),
    ).map(|_| ())
}

/// Relies on rusqlite's Connection::execute running a plain INSERT into a
/// table whose ip column is unique: it succeeds only when no row holds that
/// key, and a failed statement (a duplicate among them) changes nothing.
#[verifier::external_body]
fn db_insert_new(
    conn: &mut rusqlite::Connection,
    ip: &str,
    names: &str,
    comment: &str,
    live: bool,
) -> (r: Result<(), rusqlite::Error>)
    ensures
        r is Ok ==> !db_rows(*old(conn)).contains_key(ip@) && db_rows(*final(conn)) == db_rows(
            *old(conn),
        ).insert(ip@, (names@, comment@, live)),
        r is Err ==> db_rows(*final(conn)) == db_rows(*old(conn)),
{
    conn.execute(
        "INSERT INTO scope (ip, names, comment, live) VALUES (?1, ?2, ?3, ?4)",
        (ip, names, comment, live),
    ).map(|_| ())
}

/// Relies on rusqlite's Statement::exists over SELECT .. WHERE ip = ?1, an
/// exact text-equality lookup on the unique ip column.
#[verifier::external_body]
fn db_contains(conn: &rusqlite::Connection, ip: &str) -> (r: Result<bool, rusqlite::Error>)
    ensures
        r is Ok ==> r->Ok_0 == db_rows(*conn).contains_key(ip@),
{
    let mut stmt = conn.prepare("SELECT 1 FROM scope WHERE ip = ?1")?;
    stmt.exists((ip,))
}

/// Relies on rusqlite's Statement::query_map over SELECT of the whole scope
/// table: one row for each stored record, with pairwise distinct ips (the ip
/// column is unique), the liveness integer read back as a boolean.
#[verifier::external_body]
fn db_all_rows(conn: &rusqlite::Connection) -> (r: Result<
    Vec<(String, String, String, bool)>,
    rusqlite::Error,
>)
    ensures
        r is Ok ==> ({
            let v = (r->Ok_0)@;
            &&& forall|i: int|
                0 <= i < v.len() ==> db_rows(*conn).contains_key((#[trigger] v[i]).0@) && db_rows(
                    *conn,
                )[v[i].0@] == (v[i].1@, v[i].2@, v[i].3)
            &&& forall|i: int, j: int| 0 <= i < j < v.len() ==> v[i].0@ != v[j].0@
            &&& forall|k: Seq<char>|
                db_rows(*conn).contains_key(k) ==> exists|i: int|
                    0 <= i < v.len() && (#[trigger] v[i]).0@ == k
        }),
{
    let mut stmt = conn.prepare("SELECT ip, names, comment, live FROM scope")?;
    let rows = stmt.query_map([], |row| {
        Ok((row.get(0)?, row.get(1)?, row.get(2)?, row.get(3)?))
    })?;
    let mut out = Vec::new();
    for row in rows {
        out.push(row?);
    }
    Ok(out)
}

/// What a second add for an already stored address does: replace the stored
/// row (the canonical policy), or leave the store unchanged (the superseded
/// behaviour of plain inserts, kept representable).
#[derive(Clone, Copy, Debug, PartialEq, Eq, Structural)]
pub enum ConflictPolicy {
    Replace,
    Reject,
}

/// The stored row a raw line produces: comma-joined names, comment, liveness.
pub open spec fn line_row(line: Seq<char>, live: bool) -> (Seq<char>, Seq<char>, bool) {
    (join_ch(line_names(line), ','), line_comment(line), live)
}

/// The store contents after adding one raw line under the replace policy: an
/// invalid line changes nothing, a valid one upserts its record by address.
pub open spec fn upsert_line(
    m: Map<Seq<char>, (Seq<char>, Seq<char>, bool)>,
    line: Seq<char>,
    live: bool,
) -> Map<Seq<char>, (Seq<char>, Seq<char>, bool)> {
    if line_valid(line) {
        m.insert(line_addr(line), line_row(line, live))
    } else {
        m
    }
}

/// The store contents after adding each line in order under the replace policy.
pub open spec fn upsert_lines(
    m: Map<Seq<char>, (Seq<char>, Seq<char>, bool)>,
    lines: Seq<Seq<char>>,
    live: bool,
) -> Map<Seq<char>, (Seq<char>, Seq<char>, bool)>
    decreases lines.len(),
{
    if lines.len() == 0 {
        m
    } else {
        upsert_line(upsert_lines(m, lines.drop_last(), live), lines.last(), live)
    }
}

/// What a membership check reports: the candidate is valid IP text and a
/// record is stored under exactly that text.
pub open spec fn check_spec(m: Map<Seq<char>, (Seq<char>, Seq<char>, bool)>, a: Seq<char>) -> bool {
    is_valid_ip_chars(a) && m.contains_key(a)
}

/// The filters of a listing; all that are set must hold of a listed record.
pub struct ListFilters {
    /// Keep only records with at least one name.
    pub names_only: bool,
    /// Keep only records with a non-empty comment.
    pub comments_only: bool,
    /// Keep only records marked live.
    pub live_only: bool,
}

/// Whether a stored row passes every selected filter.
pub open spec fn passes_filters(row: (Seq<char>, Seq<char>, bool), f: ListFilters) -> bool {
    &&& (f.names_only ==> row.0.len() > 0)
    &&& (f.comments_only ==> row.1.len() > 0)
    &&& (f.live_only ==> row.2)
}

/// The name segments a stored joined-names text stands for.
pub open spec fn names_of_joined(s: Seq<char>) -> Seq<Seq<char>> {
    if s.len() == 0 {
        Seq::empty()
    } else {
        split_ch(s, ',')
    }
}

/// The record a stored row is listed as.
pub open spec fn row_view(addr: Seq<char>, row: (Seq<char>, Seq<char>, bool)) -> crate::codec::RecView {
    crate::codec::RecView {
        address: addr,
        names: names_of_joined(row.0),
        comment: row.1,
        live: row.2,
    }
}

/// The stored row carried by one fetched table row.
pub open spec fn row_of(t: (String, String, String, bool)) -> (Seq<char>, Seq<char>, bool) {
    (t.1@, t.2@, t.3)
}

/// The records a listing produces from the fetched rows, in row order,
/// keeping exactly those that pass every selected filter.
pub open spec fn listed_of(
    rows: Seq<(String, String, String, bool)>,
    f: ListFilters,
) -> Seq<crate::codec::RecView>
    decreases rows.len(),
{
    if rows.len() == 0 {
        Seq::empty()
    } else {
        let pre = listed_of(rows.drop_last(), f);
        let t = rows.last();
        if passes_filters(row_of(t), f) {
            pre.push(row_view(t.0@, row_of(t)))
        } else {
            pre
        }
    }
}

/// Over rows that each match the store map and carry pairwise distinct
/// addresses, the listing holds exactly the stored records that pass the
/// filters, one for each, under pairwise distinct addresses.
proof fn lemma_listed_props(
    rows: Seq<(String, String, String, bool)>,
    f: ListFilters,
    m: Map<Seq<char>, (Seq<char>, Seq<char>, bool)>,
)
    requires
        forall|i: int|
            0 <= i < rows.len() ==> m.contains_key((#[trigger] rows[i]).0@) && m[rows[i].0@]
                == row_of(rows[i]),
        forall|i: int, j: int| 0 <= i < j < rows.len() ==> rows[i].0@ != rows[j].0@,
    ensures
        forall|i: int|
            0 <= i < listed_of(rows, f).len() ==> ({
                let rv = #[trigger] listed_of(rows, f)[i];
                m.contains_key(rv.address) && passes_filters(m[rv.address], f) && rv == row_view(
                    rv.address,
                    m[rv.address],
                )
            }),
        forall|i: int|
            0 <= i < listed_of(rows, f).len() ==> exists|j: int|
                0 <= j < rows.len() && (#[trigger] listed_of(rows, f)[i]).address == rows[j].0@,
        forall|i: int, j: int|
            0 <= i < j < listed_of(rows, f).len() ==> listed_of(rows, f)[i].address != listed_of(
                rows,
                f,
            )[j].address,
        forall|j: int|
            0 <= j < rows.len() && passes_filters(row_of(#[trigger] rows[j]), f) ==> exists|i: int|
                0 <= i < listed_of(rows, f).len() && (#[trigger] listed_of(rows, f)[i]).address
                    == rows[j].0@,
    decreases rows.len(),
{
    if rows.len() > 0 {
        let pre_rows = rows.drop_last();
        assert(forall|i: int| 0 <= i < pre_rows.len() ==> #[trigger] pre_rows[i] == rows[i]);
        lemma_listed_props(pre_rows, f, m);
        let lv = listed_of(rows, f);
        let pre = listed_of(pre_rows, f);
        let t = rows.last();
        if passes_filters(row_of(t), f) {
            assert(lv == pre.push(row_view(t.0@, row_of(t))));
            assert forall|i: int, j: int| 0 <= i < j < lv.len() implies lv[i].address
                != lv[j].address by {
                if j == lv.len() - 1 {
                    let jj = choose|jj: int|
                        0 <= jj < pre_rows.len() && (#[trigger] pre[i]).address == pre_rows[jj].0@;
                    assert(rows[jj].0@ != t.0@);
                } else {
                    assert(pre[i].address != pre[j].address);
                }
            }
            assert forall|j: int|
                0 <= j < rows.len() && passes_filters(row_of(#[trigger] rows[j]), f) implies exists|
                i: int,
            |
                0 <= i < lv.len() && (#[trigger] lv[i]).address == rows[j].0@ by {
                if j == rows.len() - 1 {
                    assert(lv[lv.len() - 1].address == rows[j].0@);
                } else {
                    let i = choose|i: int|
                        0 <= i < pre.len() && (#[trigger] pre[i]).address == pre_rows[j].0@;
                    assert(lv[i].address == rows[j].0@);
                }
            }
        } else {
            assert(lv == pre);
            assert forall|j: int|
                0 <= j < rows.len() && passes_filters(row_of(#[trigger] rows[j]), f) implies exists|
                i: int,
            |
                0 <= i < lv.len() && (#[trigger] lv[i]).address == rows[j].0@ by {
                assert(j != rows.len() - 1);
                let i = choose|i: int|
                    0 <= i < pre.len() && (#[trigger] pre[i]).address == pre_rows[j].0@;
                assert(lv[i].address == rows[j].0@);
            }
        }
    }
}

/// Whether some listed record carries the address `k`.
pub open spec fn lists_addr(v: Seq<ScopeRecord>, k: Seq<char>) -> bool {
    exists|i: int| 0 <= i < v.len() && (#[trigger] v[i])@.address == k
}

/// The scope store: the records live in the scope table of a sqlite database.
pub struct ScopeStore {
    conn: rusqlite::Connection,
    policy: ConflictPolicy,
}

impl View for ScopeStore {
    type V = Map<Seq<char>, (Seq<char>, Seq<char>, bool)>;

    closed spec fn view(&self) -> Map<Seq<char>, (Seq<char>, Seq<char>, bool)> {
        db_rows(self.conn)
    }
}

impl ScopeStore {
    /// The conflict policy the store was opened with.
    pub closed spec fn conflict_policy(&self) -> ConflictPolicy {
        self.policy
    }

    /// Opens or creates the backing store at `path` and ensures the scope
    /// table exists; idempotent on an already initialised store.
    pub fn open(path: &str, policy: ConflictPolicy) -> (r: Result<ScopeStore, ScopeError>)
        ensures
            r is Ok ==> (r->Ok_0).conflict_policy() == policy,
            r is Err ==> r->Err_0 == ScopeError::Unavailable,
    {
        let mut conn = match db_open(path) {
            Ok(c) => c,
            Err(_) => {
                return Err(ScopeError::Unavailable);
            },
        };
        match db_init(&mut conn) {
            Ok(_) => Ok(ScopeStore { conn, policy }),
            Err(_) => Err(ScopeError::Unavailable),
        }
    }

    /// Adds one raw line to the store with the given liveness flag.
    ///
    /// An invalid line is rejected and changes nothing. Under the replace
    /// policy a valid line upserts its record by address; under the reject
    /// policy a valid line is inserted only when its address is new, and a
    /// failed insert (a duplicate among them) is swallowed, leaving the
    /// stored record as it was.
    pub fn add(&mut self, line: &str, live: bool) -> (r: Result<(), ScopeError>)
        ensures
            final(self).conflict_policy() == old(self).conflict_policy(),
            !line_valid(line@) ==> r == Err::<(), ScopeError>(ScopeError::InvalidAddress)
                && final(self)@ == old(self)@,
            r is Err ==> final(self)@ == old(self)@,
            line_valid(line@) && r is Err ==> r->Err_0 == ScopeError::QueryFailure,
            old(self).conflict_policy() == ConflictPolicy::Replace && r is Ok ==> final(self)@
                == upsert_line(old(self)@, line@, live),
            old(self).conflict_policy() == ConflictPolicy::Reject && line_valid(line@) ==> r is Ok
                && (final(self)@ == old(self)@ || final(self)@ == upsert_line(
                old(self)@,
                line@,
                live,
            )) && (old(self)@.contains_key(line_addr(line@)) ==> final(self)@ == old(self)@),
    {
        let rec = match parse_line(line, live) {
            Ok(rec) => rec,
            Err(e) => {
                return Err(e);
            },
        };
        let names_joined = join_comma(&rec.names);
        match self.policy {
            ConflictPolicy::Replace => {
                match db_upsert(
                    &mut self.conn,
                    rec.address.as_str(),
                    names_joined.as_str(),
                    rec.comment.as_str(),
                    live,
                ) {
                    Ok(_) => Ok(()),
                    Err(_) => Err(ScopeError::QueryFailure),
                }
            },
            ConflictPolicy::Reject => {
                match db_insert_new(
                    &mut self.conn,
                    rec.address.as_str(),
                    names_joined.as_str(),
                    rec.comment.as_str(),
                    live,
                ) {
                    Ok(_) => Ok(()),
                    Err(_) => Ok(()),
                }
            },
        }
    }

    /// Adds each line in order, skipping invalid ones; the returned flags say
    /// which lines were accepted. A store failure stops the batch.
    pub fn add_lines(&mut self, lines: &Vec<String>, live: bool) -> (r: Result<
        Vec<bool>,
        ScopeError,
    >)
        ensures
            final(self).conflict_policy() == old(self).conflict_policy(),
            r is Ok ==> (r->Ok_0)@.len() == lines@.len() && (forall|i: int|
                0 <= i < lines@.len() ==> (r->Ok_0)@[i] == line_valid(
                    #[trigger] lines@[i]@,
                )),
            old(self).conflict_policy() == ConflictPolicy::Replace && r is Ok ==> final(self)@
                == upsert_lines(old(self)@, str_views(lines@), live),
            old(self).conflict_policy() == ConflictPolicy::Replace && r is Err ==> exists|j: int|
                0 <= j <= lines@.len() && final(self)@ == upsert_lines(
                    old(self)@,
                    #[trigger] str_views(lines@).subrange(0, j),
                    live,
                ),
            r is Err ==> r->Err_0 == ScopeError::QueryFailure,
    {
        let mut flags: Vec<bool> = Vec::new();
        let mut i: usize = 0;
        proof {
            assert(str_views(lines@).subrange(0, 0) =~= Seq::<Seq<char>>::empty());
        }
        while i < lines.len()
            invariant
                0 <= i <= lines@.len(),
                flags@.len() == i,
                forall|j: int| 0 <= j < i ==> flags@[j] == line_valid(#[trigger] lines@[j]@),
                self.conflict_policy() == old(self).conflict_policy(),
                self.conflict_policy() == ConflictPolicy::Replace ==> self@ == upsert_lines(
                    old(self)@,
                    str_views(lines@).subrange(0, i as int),
                    live,
                ),
            decreases lines@.len() - i,
        {
            let ghost pre = str_views(lines@).subrange(0, i as int);
            let valid = match self.add(lines[i].as_str(), live) {
                Ok(_) => true,
                Err(ScopeError::InvalidAddress) => false,
                Err(_) => {
                    return Err(ScopeError::QueryFailure);
                },
            };
            flags.push(valid);
            proof {
                assert(str_views(lines@).subrange(0, i + 1).drop_last() =~= pre);
                assert(str_views(lines@).subrange(0, i + 1).last() == lines@[i as int]@);
            }
            i += 1;
        }
        proof {
            assert(str_views(lines@).subrange(0, lines@.len() as int) =~= str_views(lines@));
        }
        Ok(flags)
    }

    /// Reports whether `addr` is in scope: true exactly when `addr` is valid
    /// IP text and a record is stored under that exact text. No containment
    /// logic: a stored network prefix never matches a contained address.
    pub fn check(&self, addr: &str) -> (r: Result<bool, ScopeError>)
        ensures
            r is Ok ==> r->Ok_0 == check_spec(self@, addr@),
            !is_valid_ip_chars(addr@) ==> r == Ok::<bool, ScopeError>(false),
            r is Err ==> r->Err_0 == ScopeError::QueryFailure,
    {
        if !is_valid_ip(addr) {
            return Ok(false);
        }
        match db_contains(&self.conn, addr) {
            Ok(b) => Ok(b),
            Err(_) => Err(ScopeError::QueryFailure),
        }
    }

    /// Lists the stored records that pass every selected filter: each listed
    /// record is stored and passes, the listed addresses are pairwise
    /// distinct, and every stored record that passes is listed.
    #[verifier::loop_isolation(false)]
    pub fn list(&self, filters: &ListFilters) -> (r: Result<Vec<ScopeRecord>, ScopeError>)
        ensures
            r is Ok ==> forall|i: int|
                0 <= i < (r->Ok_0)@.len() ==> self@.contains_key(
                    (#[trigger] (r->Ok_0)@[i])@.address,
                ) && passes_filters(self@[(r->Ok_0)@[i]@.address], *filters) && (r->Ok_0)@[i]@
                    == row_view((r->Ok_0)@[i]@.address, self@[(r->Ok_0)@[i]@.address]),
            r is Ok ==> forall|i: int, j: int|
                0 <= i < j < (r->Ok_0)@.len() ==> (r->Ok_0)@[i]@.address != (r->Ok_0)@[j]@.address,
            r is Ok ==> forall|k: Seq<char>|
                self@.contains_key(k) && passes_filters(self@[k], *filters)
                    ==> lists_addr((r->Ok_0)@, k),
            r is Err ==> r->Err_0 == ScopeError::QueryFailure,
    {
        let rows = match db_all_rows(&self.conn) {
            Ok(rows) => rows,
            Err(_) => {
                return Err(ScopeError::QueryFailure);
            },
        };
        let mut out: Vec<ScopeRecord> = Vec::new();
        let mut idx: usize = 0;
        proof {
            assert(rows@.subrange(0, 0) =~= Seq::<(String, String, String, bool)>::empty());
            assert(out@.map_values(|rec: ScopeRecord| rec@) =~= Seq::<crate::codec::RecView>::empty());
        }
        while idx < rows.len()
            invariant
                0 <= idx <= rows@.len(),
                out@.map_values(|rec: ScopeRecord| rec@) == listed_of(
                    rows@.subrange(0, idx as int),
                    *filters,
                ),
            decreases rows@.len() - idx,
        {
            let ghost pre_rows = rows@.subrange(0, idx as int);
            let ghost out_views = out@.map_values(|rec: ScopeRecord| rec@);
            let keep = (!filters.names_only || !rows[idx].1.as_str().is_empty())
                && (!filters.comments_only || !rows[idx].2.as_str().is_empty()) && (
            !filters.live_only || rows[idx].3);
            proof {
                assert(keep == passes_filters(row_of(rows@[idx as int]), *filters));
                assert(rows@.subrange(0, idx + 1).drop_last() =~= pre_rows);
                assert(rows@.subrange(0, idx + 1).last() == rows@[idx as int]);
            }
            if keep {
                let names: Vec<String> = if rows[idx].1.as_str().is_empty() {
                    Vec::new()
                } else {
                    split_on(rows[idx].1.as_str(), ',')
                };
                proof {
                    if rows@[idx as int].1@.len() == 0 {
                        assert(str_views(names@) =~= Seq::<Seq<char>>::empty());
                    }
                    assert(str_views(names@) == names_of_joined(rows@[idx as int].1@));
                }
                let rec = ScopeRecord {
                    address: rows[idx].0.clone(),
                    names,
                    comment: rows[idx].2.clone(),
                    live: rows[idx].3,
                };
                proof {
                    assert(rec@ == row_view(rows@[idx as int].0@, row_of(rows@[idx as int])));
                }
                out.push(rec);
                proof {
                    assert(out@.map_values(|r: ScopeRecord| r@) =~= out_views.push(rec@));
                }
            }
            idx += 1;
        }
        proof {
            assert(rows@.subrange(0, rows@.len() as int) =~= rows@);
            lemma_listed_props(rows@, *filters, self@);
            assert forall|k: Seq<char>|
                self@.contains_key(k) && passes_filters(self@[k], *filters) implies lists_addr(
                out@,
                k,
            ) by {
                let j = choose|j: int| 0 <= j < rows@.len() && (#[trigger] rows@[j]).0@ == k;
                assert(row_of(rows@[j]) == self@[k]);
                assert(passes_filters(row_of(rows@[j]), *filters));
                let lv = listed_of(rows@, *filters);
                let i = choose|i: int| 0 <= i < lv.len() && (#[trigger] lv[i]).address == rows@[j].0@;
                assert(out@[i]@ == lv[i]);
            }
            assert(forall|i: int|
                0 <= i < out@.len() ==> (#[trigger] out@[i])@ == listed_of(rows@, *filters)[i]);
            assert(forall|i: int|
                0 <= i < out@.len() ==> self@.contains_key((#[trigger] out@[i])@.address)
                    && passes_filters(self@[out@[i]@.address], *filters) && out@[i]@ == row_view(
                    out@[i]@.address,
                    self@[out@[i]@.address],
                ));
            assert(forall|i: int, j: int|
                0 <= i < j < out@.len() ==> out@[i]@.address != out@[j]@.address);
        }
        Ok(out)
    }

    /// The reserved remove operation: reported as not implemented, and the
    /// store is left unchanged. Its eventual contract is to delete the single
    /// record under the given address and report whether one existed.
    pub fn remove(&mut self, _addr: &str) -> (r: Result<bool, ScopeError>)
        ensures
            r == Err::<bool, ScopeError>(ScopeError::NotImplemented),
            *final(self) == *old(self),
    {
        Err(ScopeError::NotImplemented)
    }
}

} // verus!
