//! What a configuration table has to offer to be managed.

use crate::data_schema::DataSchema;
use vstd::prelude::*;

verus! {

/// The kinds of configuration table.
#[allow(non_camel_case_types)]
#[derive(Debug, Clone, Copy, PartialEq, Eq, Hash, Structural)]
pub enum ConfigCid {
    /// The table of roles.
    Cid_Role,
    /// The table of game settings.
    Cid_Game,
}

impl ConfigCid {
    /// The number of this kind: 1 for roles, 2 for game settings.
    pub fn code(&self) -> (c: u32)
        ensures
            c == (match *self {
                ConfigCid::Cid_Role => 1u32,
                ConfigCid::Cid_Game => 2u32,
            }),
    {
        match self {
            ConfigCid::Cid_Role => 1,
            ConfigCid::Cid_Game => 2,
        }
    }
}

/// A table of configuration that can be filled from a data schema.
///
/// The kind of a table is fixed and its methods keep it well formed; an
/// implementation that is not verified is trusted to see to both.
pub trait ConfigTable {
    /// The kind of this table; it never changes.
    spec fn cid(&self) -> ConfigCid;

    /// What holds of the table between calls.
    spec fn wf(&self) -> bool;

    /// The kind of this table.
    fn get_cid(&self) -> (c: ConfigCid)
        ensures
            c == self.cid(),
    ;

    /// The names of the data tables that this table is filled from.
    fn get_cared_table(&self) -> (names: Vec<String>);

    /// Fills the table from `ds`; tells whether `ds` had what it needs.
    fn load(&mut self, ds: &DataSchema) -> (ok: bool)
        requires
            old(self).wf(),
        ensures
            final(self).wf(),
            final(self).cid() == old(self).cid(),
    ;

    /// Forgets what the table holds.
    fn clear(&mut self)
        requires
            old(self).wf(),
        ensures
            final(self).wf(),
            final(self).cid() == old(self).cid(),
    ;
}

} // verus!
