//! Configuration of the datastore service: the settings record and its
//! builder.
use vstd::prelude::*;

verus! {

/// Settings the service is started with.
#[derive(Clone, PartialEq, Debug)]
pub struct Config {
    /// Name of the root table; every key must begin with it.
    pub db_name: String,
    /// Whether a hook manager worker should be started.
    pub start_hook_manager: bool,
}

/// Builder for `Config`; starts from the defaults and lets callers
/// override each setting.
pub struct Builder {
    pub config: Config,
}

impl Builder {
    /// Fresh builder holding the default settings: database name `root`,
    /// hook manager disabled.
    pub fn new() -> (r: Self)
        ensures
            r.config.db_name@ == "root"@,
            !r.config.start_hook_manager,
    {
        Builder {
            config: Config { db_name: "root".to_owned(), start_hook_manager: false },
        }
    }

    /// Request that a hook manager be started.
    pub fn enable_hook_manager(self) -> (r: Self)
        ensures
            r.config.start_hook_manager,
            r.config.db_name == self.config.db_name,
    {
        let mut b = self;
        b.config.start_hook_manager = true;
        b
    }

    /// Request that no hook manager be started.
    pub fn disable_hook_manager(self) -> (r: Self)
        ensures
            !r.config.start_hook_manager,
            r.config.db_name == self.config.db_name,
    {
        let mut b = self;
        b.config.start_hook_manager = false;
        b
    }

    /// Override the database name.
    pub fn set_database_name(self, name: String) -> (r: Self)
        ensures
            r.config.db_name == name,
            r.config.start_hook_manager == self.config.start_hook_manager,
    {
        let mut b = self;
        b.config.db_name = name;
        b
    }

    /// Produce the settings chosen so far.
    pub fn build(&self) -> (r: Config)
        ensures
            r.db_name == self.config.db_name,
            r.start_hook_manager == self.config.start_hook_manager,
    {
        Config {
            db_name: self.config.db_name.clone(),
            start_hook_manager: self.config.start_hook_manager,
        }
    }
}

} // verus!
