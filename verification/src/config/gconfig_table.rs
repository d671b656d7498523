//! Game settings.

use crate::config_table::{ConfigCid, ConfigTable};
use crate::data_schema::DataSchema;
use vstd::prelude::*;
use vstd::string::StringExecFns;

verus! {

/// The game settings.
#[derive(Debug)]
pub struct GConfigTable {
    /// Id of the settings record.
    pub id: u32,
    /// A numeric setting.
    pub a1: u32,
    /// A text setting.
    pub s1: String,
}

impl GConfigTable {
    /// Settings with every number zero and every text empty.
    pub fn new() -> (t: GConfigTable)
        ensures
            t.id == 0,
            t.a1 == 0,
            t.s1@ == Seq::<char>::empty(),
    {
        GConfigTable { id: 0, a1: 0, s1: String::new() }
    }
}

impl ConfigTable for GConfigTable {
    open spec fn cid(&self) -> ConfigCid {
        ConfigCid::Cid_Game
    }

    open spec fn wf(&self) -> bool {
        true
    }

    fn get_cid(&self) -> (c: ConfigCid) {
        ConfigCid::Cid_Game
    }

    /// The one data table of game settings: `gconfig`.
    fn get_cared_table(&self) -> (names: Vec<String>)
        ensures
            names@.len() == 1,
            names@[0]@ == "gconfig"@,
    {
        let mut v: Vec<String> = Vec::new();
        v.push(String::from_str("gconfig"));
        v
    }

    /// Succeeds exactly if `ds` has a table `gconfig`; the settings are not
    /// changed.
    fn load(&mut self, ds: &DataSchema) -> (ok: bool)
        ensures
            ok == ds.tables@.contains_key("gconfig"@),
            *final(self) == *old(self),
    {
        ds.get_table("gconfig").is_some()
    }

    /// Leaves the settings as they are.
    fn clear(&mut self)
        ensures
            *final(self) == *old(self),
    {
    }
}

} // verus!
