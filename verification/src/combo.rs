//! The record of bets: combos of bets placed together on one event. The records live in
//! an SQLite database.

use vstd::prelude::*;
use rusqlite::{CachedStatement, Connection};
use crate::currency::Currency;
use crate::opportunity::SignedRatio;

verus! {

#[verifier::external_type_specification]
#[verifier::external_body]
pub struct ExConnection(rusqlite::Connection);

#[verifier::external_type_specification]
#[verifier::external_body]
pub struct ExCachedStatement<'conn>(rusqlite::CachedStatement<'conn>);

#[verifier::external_type_specification]
#[verifier::external_body]
pub struct ExSqlError(rusqlite::Error);

/// A failure of the database, with its description.
#[derive(Debug)]
pub struct DbError(pub String);

/// A bet of a combo: the bookmaker, its id of the offer, the outcome's title (none for
/// the draw), when the event starts, the odds (thousandths), the stake, the expected
/// profit per unit of stake, and whether the bet was placed.
#[derive(Debug)]
pub struct Bet {
    pub host: String,
    pub id: u64,
    pub title: Option<String>,
    pub expiry: u32,
    pub coef: u32,
    pub stake: Currency,
    pub profit: SignedRatio,
    pub placed: bool,
}

/// Bets placed together on the outcomes of one event: when, the game and the kind of
/// market, and the bets.
#[derive(Debug)]
pub struct Combo {
    pub date: u32,
    pub game: String,
    pub kind: String,
    pub bets: Vec<Bet>,
}

/// The query that tells whether a bet on an offer is recorded.
pub const BET_EXISTS_QUERY: &'static str = "SELECT id FROM bet WHERE host = ? AND id = ?";

/// The update that marks a recorded bet as placed.
pub const MARK_PLACED_UPDATE: &'static str = "UPDATE bet SET placed = 1 WHERE host = ? AND id = ? AND ifnull(title, '') = ?";

/// Prepares a statement (`Connection::prepare_cached`); what comes back depends on the
/// database, so nothing is promised of it.
#[verifier::external_body]
fn prepare<'c>(db: &'c Connection, sql: &str) -> Result<CachedStatement<'c>, rusqlite::Error> {
    db.prepare_cached(sql)
}

/// Runs a query with a host and an id and tells whether it yields a row
/// (`Statement::exists`); what comes back depends on the database.
#[verifier::external_body]
fn exists_with(stmt: &mut CachedStatement, host: &str, id: i64) -> Result<bool, rusqlite::Error> {
    stmt.exists((host, id))
}

/// Runs an update with a host, an id and a title and tells how many rows it changed
/// (`Statement::execute`); what comes back depends on the database.
#[verifier::external_body]
fn execute_with(stmt: &mut CachedStatement, host: &str, id: i64, title: &str) -> Result<usize, rusqlite::Error> {
    stmt.execute((host, id, title))
}

/// The description of a database error (`Display` of `rusqlite::Error`).
#[verifier::external_body]
fn describe(error: &rusqlite::Error) -> String {
    error.to_string()
}

/// The database id of a bookmaker's offer id: the same bits read as a signed number.
pub open spec fn stored_id(id: u64) -> i64 {
    id as i64
}

/// The id under which an offer id is stored.
pub fn to_stored_id(id: u64) -> (r: i64)
    ensures
        r == stored_id(id),
{
    id as i64
}

/// Whether a bet on the offer `id` of `host` is recorded. The answer is the database's;
/// the query is `BET_EXISTS_QUERY` with `host` and the stored id.
pub fn contains(db: &Connection, host: &str, id: u64) -> (r: Result<bool, DbError>) {
    let mut stmt = match prepare(db, BET_EXISTS_QUERY) {
        Ok(stmt) => stmt,
        Err(e) => return Err(DbError(describe(&e))),
    };
    match exists_with(&mut stmt, host, to_stored_id(id)) {
        Ok(found) => Ok(found),
        Err(e) => Err(DbError(describe(&e))),
    }
}

/// The title under which a bet is recorded: the outcome's title, or the empty title for
/// the draw.
pub open spec fn stored_title(title: Option<Seq<char>>) -> Seq<char> {
    match title {
        Some(t) => t,
        None => Seq::empty(),
    }
}

/// The title under which a bet is recorded.
pub fn to_stored_title<'a>(title: Option<&'a str>) -> (r: &'a str)
    ensures
        r@ == stored_title(match title {
            Some(t) => Some(t@),
            None => None,
        }),
{
    match title {
        Some(t) => t,
        None => {
            proof {
                reveal_strlit("");
            }
            ""
        },
    }
}

/// Marks the recorded bet on offer `id` of `host` for the outcome `title` (none for the
/// draw) as placed, with `MARK_PLACED_UPDATE`. Returns how many records changed, as the
/// database tells.
pub fn mark_as_placed(db: &Connection, host: &str, id: u64, title: Option<&str>) -> (r: Result<usize, DbError>) {
    let mut stmt = match prepare(db, MARK_PLACED_UPDATE) {
        Ok(stmt) => stmt,
        Err(e) => return Err(DbError(describe(&e))),
    };
    match execute_with(&mut stmt, host, to_stored_id(id), to_stored_title(title)) {
        Ok(n) => Ok(n),
        Err(e) => Err(DbError(describe(&e))),
    }
}

} // verus!
