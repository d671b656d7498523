//! Keeps the configuration tables and reloads them from a data schema.

use crate::config::gconfig_table::GConfigTable;
use crate::config::role_table::{roles_added, RoleConfig, RoleTable};
use crate::config_table::{ConfigCid, ConfigTable};
use crate::data_schema::{texts, DataSchema};
use crate::text::contains_name;
use vstd::prelude::*;

verus! {

/// A configuration table of either kind.
pub enum AnyTable {
    /// The table of roles.
    Role(RoleTable),
    /// The table of game settings.
    Game(GConfigTable),
}

/// The registered configuration tables, at most one of each kind.
pub struct ConfigManager {
    role: Option<RoleTable>,
    game: Option<GConfigTable>,
}

impl ConfigManager {
    /// The roles of the registered role table, if one is registered.
    pub closed spec fn roles(&self) -> Option<Map<u32, RoleConfig>> {
        match self.role {
            Some(t) => Some(t.roles()),
            None => None,
        }
    }

    /// The registered tables are well formed.
    pub closed spec fn wf(&self) -> bool {
        match self.role {
            Some(t) => t.indexed(),
            None => true,
        }
    }

    /// The registered game settings, if any are registered.
    pub closed spec fn game(&self) -> Option<GConfigTable> {
        self.game
    }

    /// Whether a table of kind `cid` is registered.
    pub open spec fn has(&self, cid: ConfigCid) -> bool {
        match cid {
            ConfigCid::Cid_Role => self.roles() is Some,
            ConfigCid::Cid_Game => self.game() is Some,
        }
    }

    /// What reloading does to the roles: nothing to a table that is not
    /// there or not asked for; otherwise the roles of the schema's
    /// `roletable` are added, if the schema has one.
    pub open spec fn roles_reloaded(
        before: Option<Map<u32, RoleConfig>>,
        after: Option<Map<u32, RoleConfig>>,
        ds: &DataSchema,
        wanted: bool,
    ) -> bool {
        match before {
            None => after is None,
            Some(start) => after is Some && (if wanted && ds.tables@.contains_key("roletable"@) {
                roles_added(
                    start,
                    after->Some_0,
                    ds.tables@["roletable"@],
                    ds.tables@["roletable"@].rows@.len() as int,
                )
            } else {
                after->Some_0 == start
            }),
        }
    }

    /// A manager without tables.
    pub fn new() -> (m: ConfigManager)
        ensures
            m.wf(),
            m.roles() is None,
            m.game() is None,
    {
        ConfigManager { role: None, game: None }
    }

    /// Registers `table` under its kind, replacing a table of the same kind.
    pub fn register(&mut self, table: AnyTable)
        requires
            old(self).wf(),
            table matches AnyTable::Role(t) ==> t.indexed(),
        ensures
            final(self).wf(),
            match table {
                AnyTable::Role(t) => final(self).roles() == Some(t.roles())
                    && final(self).game() == old(self).game(),
                AnyTable::Game(t) => final(self).game() == Some(t)
                    && final(self).roles() == old(self).roles(),
            },
    {
        match table {
            AnyTable::Role(t) => {
                self.role = Some(t);
            },
            AnyTable::Game(t) => {
                self.game = Some(t);
            },
        }
    }

    /// Registers a fresh table of each kind.
    pub fn init(&mut self)
        requires
            old(self).wf(),
        ensures
            final(self).wf(),
            final(self).roles() == Some(Map::<u32, RoleConfig>::empty()),
            final(self).game() is Some,
            final(self).game()->Some_0.id == 0,
            final(self).game()->Some_0.a1 == 0,
            final(self).game()->Some_0.s1@ == Seq::<char>::empty(),
    {
        self.register(AnyTable::Game(GConfigTable::new()));
        self.register(AnyTable::Role(RoleTable::new()));
    }

    /// Clears and reloads from `ds` every registered table that is filled
    /// from a data table named in `tables`; the other tables are not
    /// touched.
    pub fn reload_tables(&mut self, ds: &DataSchema, tables: &Vec<String>)
        requires
            old(self).wf(),
        ensures
            final(self).wf(),
            Self::roles_reloaded(
                old(self).roles(),
                final(self).roles(),
                ds,
                texts(tables@).contains("roletable"@),
            ),
            final(self).game() == old(self).game(),
    {
        let role_wanted = contains_name(tables, "roletable");
        let game_wanted = contains_name(tables, "gconfig");
        if role_wanted {
            match &mut self.role {
                Some(t) => {
                    t.clear();
                    t.load(ds);
                },
                None => {},
            }
        }
        if game_wanted {
            match &mut self.game {
                Some(t) => {
                    t.clear();
                    t.load(ds);
                },
                None => {},
            }
        }
    }

    /// Clears every registered table, then reloads each from `ds`. A table
    /// that `ds` has nothing for stays as it was cleared; the answer is
    /// `true` all the same.
    pub fn reload_all(&mut self, ds: &DataSchema) -> (ok: bool)
        requires
            old(self).wf(),
        ensures
            final(self).wf(),
            ok,
            Self::roles_reloaded(old(self).roles(), final(self).roles(), ds, true),
            final(self).game() == old(self).game(),
    {
        match &mut self.role {
            Some(t) => {
                t.clear();
            },
            None => {},
        }
        match &mut self.game {
            Some(t) => {
                t.clear();
            },
            None => {},
        }
        match &mut self.role {
            Some(t) => {
                t.load(ds);
            },
            None => {},
        }
        match &mut self.game {
            Some(t) => {
                t.load(ds);
            },
            None => {},
        }
        true
    }
}

} // verus!
