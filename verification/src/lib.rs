pub mod cli;
pub mod database;
pub mod indexer;

use vstd::prelude::*;

verus! {

/// Name of the environment variable holding the database URL.
pub const DATABASE_URL: &'static str = "DATABASE_URL";

/// Name of the environment variable holding the GitHub token.
pub const GITHUB_TOKEN: &'static str = "GITHUB_TOKEN";

/// Settings read from the environment.
pub struct EnviromentValues {
    pub database_url: String,
    pub github_token: Option<String>,
}

impl EnviromentValues {
    /// The settings made of the values read for `DATABASE_URL` and `GITHUB_TOKEN`.
    pub fn new(database_url: String, github_token: String) -> (r: Self)
        ensures
            r.database_url@ == database_url@,
            r.github_token matches Some(t) && t@ == github_token@,
    {
        EnviromentValues { database_url, github_token: Some(github_token) }
    }
}

} // verus!
