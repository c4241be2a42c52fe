//! The configured stops and their prebuilt schedule databases.

use vstd::prelude::*;

use crate::db::Database;

verus! {

/// A configured stop: its feed identifier, its display name, and its
/// prebuilt schedule database.
#[derive(Clone, Debug)]
pub struct Stop {
    pub id: String,
    pub name: String,
    pub database: Database,
}

/// The configuration handed to the core at startup: where the feed came
/// from, and the configured stops.
#[derive(Clone, Debug)]
pub struct Config {
    pub data_file_url: String,
    pub data_file_path: String,
    pub stops: Vec<Stop>,
}

} // verus!
