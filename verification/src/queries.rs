//! The persistent store's table names and creation statements.
//!
//! The library itself never executes these; they define the schema that
//! the surrounding program creates and checks, and that the ledger's rows
//! mirror: activities with running totals, and per-day history entries
//! with denormalized calendar fields.

use vstd::prelude::*;

verus! {

pub const SQL_TABLEN_ACT: &'static str = "tt_activities";

// Other tables reference the activities table by name.
// PRIMARY implies NOT NULL and UNIQUE.
pub const SQL_CREATE_ACT: &'static str =
    "CREATE TABLE tt_activities (
    id INTEGER PRIMARY KEY,
    name TEXT NOT NULL,
    added TEXT NOT NULL,
    hourstotal NUMERIC NOT NULL DEFAULT 0.0
    )";

pub const SQL_TABLEN_HIS: &'static str = "tt_history";

pub const SQL_CREATE_HIS: &'static str =
    "CREATE TABLE tt_history (
    id INTEGER NOT NULL,
    year INTEGER NOT NULL,
    month INTEGER NOT NULL,
    day INTEGER NOT NULL,
    isoweek INTEGER NOT NULL,
    isoweekyear INTEGER NOT NULL,
    hoursonday NUMERIC NOT NULL DEFAULT 0.0,
    date TEXT NOT NULL,
    FOREIGN KEY (id) REFERENCES tt_activities(id)
    )";

} // verus!
