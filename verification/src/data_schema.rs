//! Tables of text cells, addressed by row number and field name, and the
//! schema that collects them by table name.

use vstd::hash_map::StringHashMap;
use vstd::prelude::*;

verus! {

/// The texts of a list of strings.
pub open spec fn texts(v: Seq<String>) -> Seq<Seq<char>> {
    v.map_values(|s: String| s@)
}

/// The texts of a list of rows.
pub open spec fn grid(rows: Seq<Vec<String>>) -> Seq<Seq<Seq<char>>> {
    rows.map_values(|r: Vec<String>| texts(r@))
}

/// For every text in `names`, the position of its last occurrence.
pub open spec fn last_positions(names: Seq<Seq<char>>) -> Map<Seq<char>, usize>
    decreases names.len(),
{
    if names.len() == 0 {
        Map::empty()
    } else {
        last_positions(names.drop_last()).insert(names.last(), (names.len() - 1) as usize)
    }
}

/// `last_positions` maps exactly the texts that occur, each to the position
/// of its last occurrence.
pub proof fn lemma_last_positions(names: Seq<Seq<char>>, name: Seq<char>)
    requires
        names.len() <= usize::MAX,
    ensures
        last_positions(names).contains_key(name) <==> names.contains(name),
        last_positions(names).contains_key(name) ==> {
            let i = last_positions(names)[name] as int;
            &&& 0 <= i < names.len()
            &&& names[i] == name
            &&& forall|j: int| i < j < names.len() ==> names[j] != name
        },
    decreases names.len(),
{
    if names.len() > 0 {
        let front = names.drop_last();
        lemma_last_positions(front, name);
        if names.last() == name {
            assert(names[names.len() - 1] == name);
        } else if front.contains(name) {
            let i = choose|i: int| 0 <= i < front.len() && front[i] == name;
            assert(names[i] == name);
            let p = last_positions(front)[name] as int;
            assert(names[p] == front[p]);
            assert forall|j: int| p < j < names.len() implies names[j] != name by {
                if j < front.len() {
                    assert(front[j] == names[j]);
                }
            }
        } else if names.contains(name) {
            let i = choose|i: int| 0 <= i < names.len() && names[i] == name;
            assert(front[i] == name);
        }
    }
}

/// The key of a row: its first cell, or the empty text for a row without
/// cells.
pub open spec fn row_key(row: Seq<Seq<char>>) -> Seq<char> {
    if row.len() > 0 {
        row[0]
    } else {
        Seq::empty()
    }
}

/// The keys of a list of rows.
pub open spec fn row_keys(rows: Seq<Seq<Seq<char>>>) -> Seq<Seq<char>> {
    rows.map_values(|r: Seq<Seq<char>>| row_key(r))
}

/// Why a cell could not be read.
#[derive(Debug, Clone, Copy, PartialEq, Eq, Structural)]
pub enum TableError {
    /// The table has no row with this number.
    RowOutOfRange,
    /// The row has fewer cells than the table has indexed fields, or no cell
    /// for the field that was asked for.
    ShortRow,
}

/// The cell that `get` reads: row `row`, zero-based, and the column of the
/// field `column`, or the first column if the table has no such field
/// indexed.
pub open spec fn cell_at(
    rows: Seq<Seq<Seq<char>>>,
    field_index: Map<Seq<char>, usize>,
    row: int,
    column: Seq<char>,
) -> Result<Seq<char>, TableError> {
    if row < 0 || row >= rows.len() {
        Err(TableError::RowOutOfRange)
    } else {
        let at = if field_index.contains_key(column) {
            field_index[column] as int
        } else {
            0
        };
        if rows[row].len() < field_index.len() || at >= rows[row].len() {
            Err(TableError::ShortRow)
        } else {
            Ok(rows[row][at])
        }
    }
}

/// A named table: field names, rows of cells, and two indexes that
/// `set_data` builds — from field name to column and from row key to row.
pub struct DataTable {
    /// The name of the table.
    pub name: String,
    /// The field names, in column order.
    pub fields: Vec<String>,
    /// The rows, each a list of cells in column order.
    pub rows: Vec<Vec<String>>,
    /// Column of each indexed field name.
    pub field_index: StringHashMap<usize>,
    /// Row of each indexed row key.
    pub rows_by_pk: StringHashMap<usize>,
}

impl DataTable {
    /// Column of each indexed field name.
    pub open spec fn field_index(&self) -> Map<Seq<char>, usize> {
        self.field_index@
    }

    /// Row of each indexed row key.
    pub open spec fn rows_by_pk(&self) -> Map<Seq<char>, usize> {
        self.rows_by_pk@
    }

    /// Both indexes are those of the fields and rows that the table holds.
    pub open spec fn indexed(&self) -> bool {
        &&& self.field_index() == last_positions(texts(self.fields@))
        &&& self.rows_by_pk() == last_positions(row_keys(grid(self.rows@)))
    }

    /// A table with the given name and fields, no rows and empty indexes.
    pub fn new(name: String, fields: Vec<String>) -> (t: DataTable)
        ensures
            t.name == name,
            t.fields == fields,
            t.rows@.len() == 0,
            t.field_index() == Map::<Seq<char>, usize>::empty(),
            t.rows_by_pk() == Map::<Seq<char>, usize>::empty(),
    {
        DataTable {
            name,
            fields,
            rows: Vec::new(),
            field_index: StringHashMap::new(),
            rows_by_pk: StringHashMap::new(),
        }
    }

    /// Replaces the rows by `data` and rebuilds both indexes: each field
    /// name maps to the last column of that name, each row key (the first
    /// cell of a row, the empty text for an empty row) to the last row with
    /// that key.
    pub fn set_data(&mut self, data: Vec<Vec<String>>)
        requires
            old(self).fields@.len() > 0,
        ensures
            final(self).name == old(self).name,
            final(self).fields == old(self).fields,
            final(self).rows == data,
            final(self).indexed(),
    {
        self.rows = data;
        self.field_index.clear();
        self.rows_by_pk.clear();
        let ghost names = texts(self.fields@);
        let ghost keys = row_keys(grid(self.rows@));
        let mut i: usize = 0;
        while i < self.fields.len()
            invariant
                i <= self.fields@.len(),
                names == texts(self.fields@),
                self.field_index@ == last_positions(names.take(i as int)),
                self.fields == old(self).fields,
                self.rows == data,
                self.name == old(self).name,
                self.rows_by_pk@ == Map::<Seq<char>, usize>::empty(),
            decreases self.fields@.len() - i,
        {
            let field = self.fields[i].clone();
            proof {
                assert(names.take(i + 1).drop_last() =~= names.take(i as int));
                assert(names.take(i + 1).last() == field@);
            }
            self.field_index.insert(field, i);
            i = i + 1;
        }
        proof {
            assert(names.take(i as int) =~= names);
        }
        let mut r: usize = 0;
        while r < self.rows.len()
            invariant
                r <= self.rows@.len(),
                keys == row_keys(grid(self.rows@)),
                self.rows_by_pk@ == last_positions(keys.take(r as int)),
                self.field_index@ == last_positions(names),
                names == texts(self.fields@),
                self.fields == old(self).fields,
                self.rows == data,
                self.name == old(self).name,
            decreases self.rows@.len() - r,
        {
            let key = if self.rows[r].len() > 0 {
                self.rows[r][0].clone()
            } else {
                String::new()
            };
            proof {
                assert(keys.take(r + 1).drop_last() =~= keys.take(r as int));
                assert(keys.take(r + 1).last() == row_key(grid(self.rows@)[r as int]));
                assert(key@ =~= row_key(grid(self.rows@)[r as int]));
            }
            self.rows_by_pk.insert(key, r);
            r = r + 1;
        }
        proof {
            assert(keys.take(r as int) =~= keys);
        }
    }

    /// The cell in row `row` (zero-based) under the field `column`.
    ///
    /// A field name that is not indexed reads the first column. Fails if the
    /// table has no such row, or if the row is too short to be read.
    pub fn get(&self, row: usize, column: &str) -> (r: Result<String, TableError>)
        ensures
            match r {
                Ok(s) => cell_at(grid(self.rows@), self.field_index(), row as int, column@) == Ok::<
                    Seq<char>,
                    TableError,
                >(s@),
                Err(e) => cell_at(grid(self.rows@), self.field_index(), row as int, column@)
                    == Err::<Seq<char>, TableError>(e),
            },
    {
        broadcast use vstd::hash_map::axiom_string_hash_map_spec_len;

        if row >= self.rows.len() {
            return Err(TableError::RowOutOfRange);
        }
        let data = &self.rows[row];
        let at: usize = match self.field_index.get(column) {
            Some(i) => *i,
            None => 0,
        };
        if data.len() < self.field_index.len() || at >= data.len() {
            return Err(TableError::ShortRow);
        }
        Ok(data[at].clone())
    }

    /// The cell in row `row` under the field `column`, if it can be read and
    /// is not empty.
    pub fn get_value(&self, row: usize, column: &str) -> (r: Option<String>)
        ensures
            match r {
                Some(s) => s@.len() > 0 && cell_at(
                    grid(self.rows@),
                    self.field_index(),
                    row as int,
                    column@,
                ) == Ok::<Seq<char>, TableError>(s@),
                None => match cell_at(grid(self.rows@), self.field_index(), row as int, column@) {
                    Ok(s) => s.len() == 0,
                    Err(_) => true,
                },
            },
    {
        match self.get(row, column) {
            Ok(s) => {
                if !s.as_str().is_empty() {
                    Some(s)
                } else {
                    None
                }
            },
            Err(_) => None,
        }
    }

    /// The number of the last row with the key `key`, if the rows are
    /// indexed and one has it.
    pub fn get_row_by_key(&self, key: &str) -> (r: Option<usize>)
        ensures
            r == (if self.rows_by_pk().contains_key(key@) {
                Some(self.rows_by_pk()[key@])
            } else {
                None
            }),
    {
        match self.rows_by_pk.get(key) {
            Some(i) => Some(*i),
            None => None,
        }
    }
}

/// Tables by name.
pub struct DataSchema {
    /// The tables of the schema, each under its name.
    pub tables: StringHashMap<DataTable>,
}

impl DataSchema {
    /// A schema without tables.
    pub fn new() -> (s: DataSchema)
        ensures
            s.tables@ == Map::<Seq<char>, DataTable>::empty(),
    {
        DataSchema { tables: StringHashMap::new() }
    }

    /// The table named `name`, if the schema has one.
    pub fn get_table(&self, name: &str) -> (r: Option<&DataTable>)
        ensures
            match r {
                Some(t) => self.tables@.contains_key(name@) && *t == self.tables@[name@],
                None => !self.tables@.contains_key(name@),
            },
    {
        self.tables.get(name)
    }

    /// A one-line description of the schema; empty for now.
    pub fn to_simple_info(&self) -> (r: String)
        ensures
            r@ == Seq::<char>::empty(),
    {
        String::new()
    }
}

/// Whether a load result is a table that can be taken up: it was read and
/// has at least one field.
pub open spec fn usable(item: Result<DataTable, String>) -> bool {
    item is Ok && item->Ok_0.fields@.len() > 0
}

/// The schema after taking up the usable tables of `loaded` in order, each
/// under its name, later ones replacing earlier ones of the same name.
pub open spec fn tables_after(
    start: Map<Seq<char>, DataTable>,
    loaded: Seq<Result<DataTable, String>>,
) -> Map<Seq<char>, DataTable>
    decreases loaded.len(),
{
    if loaded.len() == 0 {
        start
    } else {
        let before = tables_after(start, loaded.drop_last());
        if usable(loaded.last()) {
            before.insert(loaded.last()->Ok_0.name@, loaded.last()->Ok_0)
        } else {
            before
        }
    }
}

/// The key field (the first field) of every table taken up from `loaded`,
/// by table name.
pub open spec fn keys_after(
    start: Map<Seq<char>, String>,
    loaded: Seq<Result<DataTable, String>>,
) -> Map<Seq<char>, String>
    decreases loaded.len(),
{
    if loaded.len() == 0 {
        start
    } else {
        let before = keys_after(start, loaded.drop_last());
        if usable(loaded.last()) {
            before.insert(loaded.last()->Ok_0.name@, loaded.last()->Ok_0.fields@[0])
        } else {
            before
        }
    }
}

/// The names of the tables taken up from `loaded`, each flagged `true`.
pub open spec fn flags_after(
    start: Map<Seq<char>, bool>,
    loaded: Seq<Result<DataTable, String>>,
) -> Map<Seq<char>, bool>
    decreases loaded.len(),
{
    if loaded.len() == 0 {
        start
    } else {
        let before = flags_after(start, loaded.drop_last());
        if usable(loaded.last()) {
            before.insert(loaded.last()->Ok_0.name@, true)
        } else {
            before
        }
    }
}

/// Collects loaded tables into a schema and keeps book of what it took up.
pub struct DataSchemaLoader {
    /// An id for the caller's own use.
    pub myid: i32,
    /// The schema being filled.
    pub dc: DataSchema,
    /// The names of the files to load, in order.
    pub need_load_tables: Vec<String>,
    /// The directory prefix of the files.
    pub xml_path: String,
    /// XML text for the caller's own use.
    pub xml_data: String,
    /// A counter for the caller's own use.
    pub count: u32,
    /// An error code for the caller's own use.
    pub ec: i32,
    /// The names of the tables taken up.
    pub tables: StringHashMap<bool>,
    /// The key field of each table taken up.
    pub pks: StringHashMap<String>,
}

impl DataSchemaLoader {
    /// A loader that has taken up nothing.
    pub fn new() -> (l: DataSchemaLoader)
        ensures
            l.myid == 0,
            l.count == 0,
            l.ec == 0,
            l.need_load_tables@.len() == 0,
            l.xml_path@ == Seq::<char>::empty(),
            l.xml_data@ == Seq::<char>::empty(),
            l.dc.tables@ == Map::<Seq<char>, DataTable>::empty(),
            l.tables@ == Map::<Seq<char>, bool>::empty(),
            l.pks@ == Map::<Seq<char>, String>::empty(),
    {
        DataSchemaLoader {
            myid: 0,
            dc: DataSchema::new(),
            need_load_tables: Vec::new(),
            xml_path: String::new(),
            xml_data: String::new(),
            count: 0,
            ec: 0,
            tables: StringHashMap::new(),
            pks: StringHashMap::new(),
        }
    }

    /// Takes up what was loaded for the files of `need_load_tables`, in
    /// order: every result that is a table with at least one field enters
    /// the schema under its name, and its first field is recorded as its
    /// key; results that are errors, and tables without fields, are passed
    /// over.
    pub fn do_load_xml(&mut self, loaded: Vec<Result<DataTable, String>>)
        ensures
            final(self).dc.tables@ == tables_after(old(self).dc.tables@, loaded@),
            final(self).pks@ == keys_after(old(self).pks@, loaded@),
            final(self).tables@ == flags_after(old(self).tables@, loaded@),
            final(self).myid == old(self).myid,
            final(self).need_load_tables == old(self).need_load_tables,
            final(self).xml_path == old(self).xml_path,
            final(self).xml_data == old(self).xml_data,
            final(self).count == old(self).count,
            final(self).ec == old(self).ec,
    {
        let mut loaded = loaded;
        let ghost all = loaded@;
        let n = loaded.len();
        let mut i: usize = 0;
        while i < n
            invariant
                i <= n,
                n == all.len(),
                loaded@.len() == n,
                forall|j: int| i <= j < n ==> loaded@[j] == all[j],
                self.dc.tables@ == tables_after(old(self).dc.tables@, all.take(i as int)),
                self.pks@ == keys_after(old(self).pks@, all.take(i as int)),
                self.tables@ == flags_after(old(self).tables@, all.take(i as int)),
                self.myid == old(self).myid,
                self.need_load_tables == old(self).need_load_tables,
                self.xml_path == old(self).xml_path,
                self.xml_data == old(self).xml_data,
                self.count == old(self).count,
                self.ec == old(self).ec,
            decreases n - i,
        {
            let mut item: Result<DataTable, String> = Err(String::new());
            std::mem::swap(&mut item, &mut loaded[i]);
            proof {
                assert(all.take(i + 1).drop_last() =~= all.take(i as int));
                assert(all.take(i + 1).last() == item);
            }
            match item {
                Ok(content) => {
                    if content.fields.len() > 0 {
                        let key = content.name.clone();
                        let value = content.fields[0].clone();
                        self.pks.insert(key, value);
                        self.tables.insert(content.name.clone(), true);
                        self.dc.tables.insert(content.name.clone(), content);
                    }
                },
                Err(_) => {},
            }
            i = i + 1;
        }
        proof {
            assert(all.take(n as int) =~= all);
        }
    }
}

/// Builds a schema from what was loaded for the files `files` found under
/// `path`: the usable tables of `loaded`, in order, by name.
pub fn load_data_schema_from_xml(
    path: &str,
    files: Vec<String>,
    loaded: Vec<Result<DataTable, String>>,
) -> (schema: DataSchema)
    ensures
        schema.tables@ == tables_after(Map::<Seq<char>, DataTable>::empty(), loaded@),
{
    let mut loader = DataSchemaLoader::new();
    loader.xml_path = path.to_owned();
    loader.need_load_tables = files;
    loader.do_load_xml(loaded);
    loader.dc
}

} // verus!
