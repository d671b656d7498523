//! The roles of the game, by id.

use crate::config_table::{ConfigCid, ConfigTable};
use crate::data_schema::{cell_at, grid, DataSchema, DataTable};
use crate::lookup::{lookup_entries, LookupTable};
use crate::text::{parsed_u32, read_u32};
use vstd::prelude::*;
use vstd::string::StringExecFns;

verus! {

/// One role.
#[derive(Debug)]
pub struct RoleConfig {
    /// The id of the role.
    pub id: u32,
    /// The name of the role.
    pub name: String,
    /// The id of the configuration the role refers to.
    pub config_id: u32,
}

impl RoleConfig {
    /// A role with id 0 and no name.
    pub fn new() -> (c: RoleConfig)
        ensures
            c.id == 0,
            c.name@ == Seq::<char>::empty(),
            c.config_id == 0,
    {
        RoleConfig { id: 0, name: String::new(), config_id: 0 }
    }
}

/// No roles.
pub open spec fn no_roles() -> Map<u32, RoleConfig> {
    Map::empty()
}

/// The text of a cell that can be read and is not empty.
pub open spec fn filled_cell(table: DataTable, row: int, column: Seq<char>) -> Option<Seq<char>> {
    match cell_at(grid(table.rows@), table.field_index(), row, column) {
        Ok(s) => if s.len() > 0 {
            Some(s)
        } else {
            None
        },
        Err(_) => None,
    }
}

/// The id that row `row` of `table` gives a role: what its `id` cell
/// spells, or 0.
pub open spec fn role_id(table: DataTable, row: int) -> u32 {
    match filled_cell(table, row, "id"@) {
        Some(s) => match parsed_u32(s) {
            Some(id) => id,
            None => 0,
        },
        None => 0,
    }
}

/// The name that row `row` of `table` gives a role: its `name` cell, or the
/// empty text.
pub open spec fn role_name(table: DataTable, row: int) -> Seq<char> {
    match filled_cell(table, row, "name"@) {
        Some(s) => s,
        None => Seq::empty(),
    }
}

/// Whether `roles` is `start` with the roles of the first `n` rows of
/// `table` added in order, later rows replacing earlier ones of the same id.
pub open spec fn roles_added(
    start: Map<u32, RoleConfig>,
    roles: Map<u32, RoleConfig>,
    table: DataTable,
    n: int,
) -> bool {
    &&& forall|id: u32|
        roles.contains_key(id) <==> start.contains_key(id) || exists|i: int|
            0 <= i < n && #[trigger] role_id(table, i) == id
    &&& forall|id: u32| #[trigger]
        roles.contains_key(id) ==> {
            if exists|i: int| 0 <= i < n && #[trigger] role_id(table, i) == id {
                exists|i: int|
                    0 <= i < n && #[trigger] role_id(table, i) == id && roles[id].id == id
                        && roles[id].name@ == role_name(table, i) && roles[id].config_id == 0
                        && forall|j: int| i < j < n ==> #[trigger] role_id(table, j) != id
            } else {
                roles[id] == start[id]
            }
        }
}

/// The roles of the game: the roles themselves, and the position of each by
/// id.
pub struct RoleTable {
    index: LookupTable,
    datas: Vec<RoleConfig>,
}

impl RoleTable {
    /// The roles by id.
    pub closed spec fn roles(&self) -> Map<u32, RoleConfig> {
        Map::new(
            |id: u32| lookup_entries(self.index).contains_key(id as u64),
            |id: u32| self.datas@[lookup_entries(self.index)[id as u64] as int],
        )
    }

    /// The index and the list of roles agree: every id is indexed at the
    /// position of the one role with that id.
    pub closed spec fn indexed(&self) -> bool {
        &&& forall|key: u64| #[trigger]
            lookup_entries(self.index).contains_key(key) ==> key <= u32::MAX && lookup_entries(
                self.index,
            )[key] < self.datas@.len() && self.datas@[lookup_entries(self.index)[key] as int].id
                == key
        &&& forall|i: int|
            0 <= i < self.datas@.len() ==> lookup_entries(self.index).contains_key(
                (#[trigger] self.datas@[i]).id as u64,
            ) && lookup_entries(self.index)[self.datas@[i].id as u64] == i
    }

    /// A table without roles.
    pub fn new() -> (t: RoleTable)
        ensures
            t.indexed(),
            t.roles() == no_roles(),
    {
        let t = RoleTable { index: LookupTable::new(), datas: Vec::new() };
        proof {
            assert(t.roles() =~= no_roles());
        }
        t
    }

    /// Puts `role` under its id, replacing the role that has the id now.
    fn put(&mut self, role: RoleConfig)
        requires
            old(self).indexed(),
        ensures
            final(self).indexed(),
            final(self).roles() == old(self).roles().insert(role.id, role),
    {
        let key: u64 = role.id as u64;
        let n: usize = self.datas.len();
        let found = match self.index.get(&key) {
            Some(at) => Some(*at),
            None => None,
        };
        match found {
            Some(at) => {
                proof {
                    assert(lookup_entries(self.index).contains_key(key));
                    assert(at < n);
                }
                self.datas.set(at as usize, role);
                proof {
                    assert(self.roles() =~= old(self).roles().insert(role.id, role));
                }
            },
            None => {
                let at: u64 = n as u64;
                self.index.insert(key, at);
                self.datas.push(role);
                proof {
                    assert forall|i: int| 0 <= i < self.datas@.len() implies lookup_entries(
                        self.index,
                    ).contains_key((#[trigger] self.datas@[i]).id as u64) && lookup_entries(
                        self.index,
                    )[self.datas@[i].id as u64] == i by {
                        if i < old(self).datas@.len() {
                            assert(self.datas@[i] == old(self).datas@[i]);
                        }
                    }
                    assert(self.roles() =~= old(self).roles().insert(role.id, role));
                }
            },
        }
    }

    /// The role with id `id`, if there is one.
    pub fn get_role_config(&self, id: u32) -> (r: Option<&RoleConfig>)
        requires
            self.indexed(),
        ensures
            r == (if self.roles().contains_key(id) {
                Some(&self.roles()[id])
            } else {
                None
            }),
    {
        let key: u64 = id as u64;
        let n: usize = self.datas.len();
        match self.index.get(&key) {
            Some(at) => {
                proof {
                    assert(lookup_entries(self.index).contains_key(key));
                    assert(*at < n);
                }
                let at: usize = *at as usize;
                Some(&self.datas[at])
            },
            None => None,
        }
    }

    /// All roles, each once, in the order in which their ids first came
    /// up.
    pub fn get_role_configs(&self) -> (r: &Vec<RoleConfig>)
        requires
            self.indexed(),
        ensures
            forall|i: int|
                0 <= i < r@.len() ==> self.roles().contains_key((#[trigger] r@[i]).id)
                    && self.roles()[r@[i].id] == r@[i],
            forall|id: u32| #[trigger]
                self.roles().contains_key(id) ==> exists|i: int|
                    0 <= i < r@.len() && #[trigger] r@[i] == self.roles()[id],
            forall|i: int, j: int|
                0 <= i < j < r@.len() ==> (#[trigger] r@[i]).id != (#[trigger] r@[j]).id,
    {
        proof {
            assert forall|id: u32| #[trigger] self.roles().contains_key(id) implies exists|i: int|
                0 <= i < self.datas@.len() && #[trigger] self.datas@[i] == self.roles()[id] by {
                let at = lookup_entries(self.index)[id as u64] as int;
                assert(self.datas@[at] == self.roles()[id]);
            }
        }
        &self.datas
    }
}

impl ConfigTable for RoleTable {
    open spec fn cid(&self) -> ConfigCid {
        ConfigCid::Cid_Role
    }

    open spec fn wf(&self) -> bool {
        self.indexed()
    }

    fn get_cid(&self) -> (c: ConfigCid) {
        ConfigCid::Cid_Role
    }

    /// The one data table of roles: `roletable`.
    fn get_cared_table(&self) -> (names: Vec<String>)
        ensures
            names@.len() == 1,
            names@[0]@ == "roletable"@,
    {
        let mut v: Vec<String> = Vec::new();
        v.push(String::from_str("roletable"));
        v
    }

    /// Adds one role per row of the table `roletable` of `ds`, under the id
    /// that the row's `id` cell spells (0 if it spells none), with the name
    /// of the row's `name` cell. Succeeds exactly if `ds` has that table;
    /// otherwise nothing changes.
    fn load(&mut self, ds: &DataSchema) -> (ok: bool)
        ensures
            ok == ds.tables@.contains_key("roletable"@),
            ok ==> roles_added(
                old(self).roles(),
                final(self).roles(),
                ds.tables@["roletable"@],
                ds.tables@["roletable"@].rows@.len() as int,
            ),
            !ok ==> final(self).roles() == old(self).roles(),
    {
        match ds.get_table("roletable") {
            Some(table) => {
                let n = table.rows.len();
                let ghost start = self.roles();
                let mut i: usize = 0;
                while i < n
                    invariant
                        i <= n,
                        n == table.rows@.len(),
                        self.indexed(),
                        roles_added(start, self.roles(), *table, i as int),
                    decreases n - i,
                {
                    let ghost before = self.roles();
                    let mut conf = RoleConfig::new();
                    let id_cell = table.get_value(i, "id");
                    match read_u32(&id_cell) {
                        Some(id) => {
                            conf.id = id;
                        },
                        None => {},
                    }
                    match table.get_value(i, "name") {
                        Some(name) => {
                            conf.name = name;
                        },
                        None => {},
                    }
                    let ghost added = conf;
                    self.put(conf);
                    proof {
                        let roles = self.roles();
                        let id0 = added.id;
                        assert(id0 == role_id(*table, i as int));
                        assert(added.name@ == role_name(*table, i as int));
                        assert forall|id: u32|
                            roles.contains_key(id) <==> start.contains_key(id) || exists|k: int|
                                0 <= k < i + 1 && #[trigger] role_id(*table, k) == id by {
                            if before.contains_key(id) && !start.contains_key(id) {
                                let k = choose|k: int|
                                    0 <= k < i && #[trigger] role_id(*table, k) == id;
                                assert(0 <= k < i + 1 && role_id(*table, k) == id);
                            }
                            if roles.contains_key(id) && !before.contains_key(id) {
                                assert(role_id(*table, i as int) == id);
                            }
                            if exists|k: int| 0 <= k < i + 1 && #[trigger] role_id(*table, k) == id {
                                let k = choose|k: int|
                                    0 <= k < i + 1 && #[trigger] role_id(*table, k) == id;
                                if k < i {
                                    assert(before.contains_key(id));
                                }
                            }
                        }
                        assert forall|id: u32| #[trigger] roles.contains_key(id) implies {
                            if exists|k: int| 0 <= k < i + 1 && #[trigger] role_id(*table, k) == id {
                                exists|k: int|
                                    0 <= k < i + 1 && #[trigger] role_id(*table, k) == id
                                        && roles[id].id == id && roles[id].name@ == role_name(
                                        *table,
                                        k,
                                    ) && roles[id].config_id == 0 && forall|j: int|
                                        k < j < i + 1 ==> #[trigger] role_id(*table, j) != id
                            } else {
                                roles[id] == start[id]
                            }
                        } by {
                            if id == id0 {
                                assert(role_id(*table, i as int) == id);
                            } else {
                                assert(before.contains_key(id));
                                if exists|k: int| 0 <= k < i && #[trigger] role_id(*table, k) == id {
                                    let k = choose|k: int|
                                        0 <= k < i && #[trigger] role_id(*table, k) == id
                                            && before[id].id == id && before[id].name@ == role_name(
                                            *table,
                                            k,
                                        ) && before[id].config_id == 0 && forall|j: int|
                                            k < j < i ==> #[trigger] role_id(*table, j) != id;
                                    assert(0 <= k < i + 1 && role_id(*table, k) == id);
                                    assert forall|j: int| k < j < i + 1 implies #[trigger] role_id(
                                        *table,
                                        j,
                                    ) != id by {}
                                } else {
                                    assert forall|k: int| 0 <= k < i + 1 implies #[trigger] role_id(
                                        *table,
                                        k,
                                    ) != id by {}
                                }
                            }
                        }
                    }
                    i = i + 1;
                }
                true
            },
            None => false,
        }
    }

    /// Leaves the roles as they are.
    fn clear(&mut self)
        ensures
            *final(self) == *old(self),
    {
    }
}

} // verus!
