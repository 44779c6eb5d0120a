//! Process configuration as plain values.  Reading the configuration file
//! and the environment happens outside the library; this module only holds
//! the assembled settings.

use vstd::prelude::*;

verus! {

/// Application-level settings.
#[derive(Debug)]
pub struct App {
    pub log_level: String,
}

/// Database-connection settings.
#[derive(Debug)]
pub struct Database {
    pub url: String,
    pub max_connections: Option<u32>,
    pub timeout: Option<u64>,
}

/// The whole process configuration.
#[derive(Debug)]
pub struct AppConfig {
    pub app: App,
    pub database: Database,
}

impl AppConfig {
    /// Assemble the configuration from its two sections.
    pub fn new(app: App, database: Database) -> (c: AppConfig)
        ensures
            c.app == app,
            c.database == database,
    {
        AppConfig { app, database }
    }
}

} // verus!
