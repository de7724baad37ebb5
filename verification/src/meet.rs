//! The data model of the Meet services.
use vstd::prelude::*;

verus! {

/// The challenge (qualification) of a competition.
#[allow(non_snake_case, non_camel_case_types)]
#[derive(Debug, Clone)]
pub struct Challenge {
    pub id: i64,
    pub uid: String,
    pub name: String,
    pub scoreDirection: String,
    pub startDate: i64,
    pub endDate: i64,
    pub status: String,
    pub resultsVisibility: String,
    pub creator: String,
    pub admins: Vec<String>,
    pub nbServers: i64,
    pub autoScale: bool,
    pub nbMaps: i64,
    pub leaderboardId: i64,
    pub deletedOn: Option<i64>,
    pub leaderboardType: String,
    pub completeTimeout: i64,
}

} // verus!
