//! A verified core for a boss-completion checklist: table rows built from a
//! catalog of regions and bosses, a completion set persisted by the caller,
//! and a filter that recomputes row visibility from a region selector and a
//! case-insensitive search term.

pub mod filter;
pub mod model;
pub mod regions;
pub mod text;

use vstd::prelude::*;

verus! {

/// Paths to the two data files the application works with.
pub struct Config {
    pub checklist_path: String,
    pub default_save: String,
}

impl Default for Config {
    /// The paths used when no configuration file exists yet.
    fn default() -> (c: Config)
        ensures
            c.checklist_path@ == "boss_data.json"@,
            c.default_save@ == "default_save.json"@,
    {
        Config {
            checklist_path: "boss_data.json".to_owned(),
            default_save: "default_save.json".to_owned(),
        }
    }
}

} // verus!
