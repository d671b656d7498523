use commlib::app_helper::{App, NodeState};
use commlib::config::gconfig_table::GConfigTable;
use commlib::config::role_table::{RoleConfig, RoleTable};
use commlib::config_manager::{AnyTable, ConfigManager};
use commlib::config_table::{ConfigCid, ConfigTable};
use commlib::data_schema::{
    load_data_schema_from_xml, DataSchema, DataSchemaLoader, DataTable, TableError,
};
use commlib::text::{contains_name, read_u32};

fn strings(items: &[&str]) -> Vec<String> {
    items.iter().map(|s| s.to_string()).collect()
}

fn role_table(rows: &[&[&str]]) -> DataTable {
    let mut table = DataTable::new("roletable".to_string(), strings(&["id", "name"]));
    table.set_data(rows.iter().map(|r| strings(r)).collect());
    table
}

fn schema_with(table: DataTable) -> DataSchema {
    load_data_schema_from_xml("data/", strings(&["roletable.xml"]), vec![Ok(table)])
}

#[test]
fn new_table_has_no_rows() {
    let table = DataTable::new("t".to_string(), strings(&["a", "b"]));
    assert_eq!(table.name, "t");
    assert_eq!(table.fields, strings(&["a", "b"]));
    assert!(table.rows.is_empty());
    assert_eq!(table.get(0, "a"), Err(TableError::RowOutOfRange));
    assert_eq!(table.get_row_by_key("x"), None);
}

#[test]
fn cells_are_read_by_row_and_field() {
    let table = role_table(&[&["1", "knight"], &["2", "mage"], &["3", ""]]);
    assert_eq!(table.get(0, "id"), Ok("1".to_string()));
    assert_eq!(table.get(0, "name"), Ok("knight".to_string()));
    assert_eq!(table.get(1, "id"), Ok("2".to_string()));
    assert_eq!(table.get(2, "name"), Ok(String::new()));
    assert_eq!(table.get_value(1, "name"), Some("mage".to_string()));
    assert_eq!(table.get_value(2, "name"), None);
}

#[test]
fn row_numbers_start_at_zero_and_end_at_the_last_row() {
    let table = role_table(&[&["1", "knight"], &["2", "mage"]]);
    assert_eq!(table.get(1, "name"), Ok("mage".to_string()));
    assert_eq!(table.get(2, "name"), Err(TableError::RowOutOfRange));
    assert_eq!(table.get(usize::MAX, "name"), Err(TableError::RowOutOfRange));
    assert_eq!(table.get_value(2, "name"), None);
}

#[test]
fn unknown_field_reads_the_first_column() {
    let table = role_table(&[&["1", "knight"]]);
    assert_eq!(table.get(0, "nothing"), Ok("1".to_string()));
}

#[test]
fn short_rows_are_refused() {
    let table = role_table(&[&["1"], &[]]);
    assert_eq!(table.get(0, "id"), Err(TableError::ShortRow));
    assert_eq!(table.get(1, "id"), Err(TableError::ShortRow));
    assert_eq!(table.get_value(0, "name"), None);
}

#[test]
fn later_fields_and_rows_win_in_the_indexes() {
    let mut table = DataTable::new("t".to_string(), strings(&["k", "v", "k"]));
    table.set_data(vec![
        strings(&["a", "1", "x"]),
        strings(&["b", "2", "y"]),
        strings(&["a", "3", "z"]),
        vec![],
    ]);
    assert_eq!(table.get(0, "k"), Ok("x".to_string()));
    assert_eq!(table.get(1, "v"), Ok("2".to_string()));
    assert_eq!(table.get_row_by_key("a"), Some(2));
    assert_eq!(table.get_row_by_key("b"), Some(1));
    assert_eq!(table.get_row_by_key(""), Some(3));
    assert_eq!(table.get_row_by_key("c"), None);
}

#[test]
fn set_data_replaces_rows_and_indexes() {
    let mut table = role_table(&[&["1", "knight"], &["2", "mage"]]);
    table.set_data(vec![strings(&["9", "rogue"])]);
    assert_eq!(table.rows.len(), 1);
    assert_eq!(table.get_row_by_key("1"), None);
    assert_eq!(table.get_row_by_key("9"), Some(0));
    assert_eq!(table.get(0, "name"), Ok("rogue".to_string()));
}

#[test]
fn schema_finds_tables_by_name() {
    let empty = DataSchema::new();
    assert!(empty.get_table("roletable").is_none());
    assert_eq!(empty.to_simple_info(), "");
    let schema = schema_with(role_table(&[&["1", "knight"]]));
    let table = schema.get_table("roletable").expect("table not found");
    assert_eq!(table.get(0, "name"), Ok("knight".to_string()));
    assert!(schema.get_table("gconfig").is_none());
}

#[test]
fn loader_takes_up_usable_tables_only() {
    let mut loader = DataSchemaLoader::new();
    assert_eq!(loader.myid, 0);
    assert_eq!(loader.count, 0);
    assert_eq!(loader.ec, 0);
    assert!(loader.need_load_tables.is_empty());
    let first = role_table(&[&["1", "knight"]]);
    let second = role_table(&[&["2", "mage"]]);
    let fieldless = DataTable::new("bare".to_string(), Vec::new());
    let mut other = DataTable::new("gconfig".to_string(), strings(&["key", "value"]));
    other.set_data(vec![strings(&["speed", "3"])]);
    loader.do_load_xml(vec![
        Ok(first),
        Err("parse xml file failed".to_string()),
        Ok(fieldless),
        Ok(other),
        Ok(second),
    ]);
    let roles = loader.dc.get_table("roletable").expect("table not found");
    assert_eq!(roles.get(0, "name"), Ok("mage".to_string()));
    assert!(loader.dc.get_table("gconfig").is_some());
    assert!(loader.dc.get_table("bare").is_none());
    assert_eq!(loader.pks.get("roletable"), Some(&"id".to_string()));
    assert_eq!(loader.pks.get("gconfig"), Some(&"key".to_string()));
    assert_eq!(loader.pks.get("bare"), None);
    assert_eq!(loader.tables.get("roletable"), Some(&true));
    assert_eq!(loader.tables.get("bare"), None);
    assert_eq!(loader.tables.len(), 2);
}

#[test]
fn new_role_and_settings_are_blank() {
    let role = RoleConfig::new();
    assert_eq!(role.id, 0);
    assert_eq!(role.name, "");
    assert_eq!(role.config_id, 0);
    let settings = GConfigTable::new();
    assert_eq!(settings.id, 0);
    assert_eq!(settings.a1, 0);
    assert_eq!(settings.s1, "");
    assert_eq!(settings.get_cid(), ConfigCid::Cid_Game);
    assert_eq!(settings.get_cared_table(), strings(&["gconfig"]));
    assert_eq!(ConfigCid::Cid_Role.code(), 1);
    assert_eq!(ConfigCid::Cid_Game.code(), 2);
}

#[test]
fn roles_are_loaded_by_id() {
    let schema = schema_with(role_table(&[
        &["12", "knight"],
        &["7", "mage"],
        &["x", "nobody"],
        &["", "blank"],
        &["12", "paladin"],
        &["4294967296", "too big"],
        &["+5", "signed"],
    ]));
    let mut roles = RoleTable::new();
    assert_eq!(roles.get_cid(), ConfigCid::Cid_Role);
    assert_eq!(roles.get_cared_table(), strings(&["roletable"]));
    assert!(roles.get_role_config(12).is_none());
    assert!(roles.load(&schema));
    assert_eq!(roles.get_role_config(12).expect("role not found").name, "paladin");
    assert_eq!(roles.get_role_config(12).expect("role not found").id, 12);
    assert_eq!(roles.get_role_config(7).expect("role not found").name, "mage");
    assert_eq!(roles.get_role_config(5).expect("role not found").name, "signed");
    // Rows whose id spells no number all land on id 0; the last one stays.
    assert_eq!(roles.get_role_config(0).expect("role not found").name, "too big");
    assert!(roles.get_role_config(1).is_none());
    roles.clear();
    assert!(roles.get_role_config(7).is_some());
}

#[test]
fn roles_are_listed_once_each() {
    let schema = schema_with(role_table(&[&["3", "a"], &["1", "b"], &["3", "c"], &["2", "d"]]));
    let mut roles = RoleTable::new();
    assert!(roles.get_role_configs().is_empty());
    assert!(roles.load(&schema));
    let listed: Vec<(u32, &str)> = roles
        .get_role_configs()
        .iter()
        .map(|r| (r.id, r.name.as_str()))
        .collect();
    assert_eq!(listed, vec![(3, "c"), (1, "b"), (2, "d")]);
    assert!(roles.load(&schema));
    assert_eq!(roles.get_role_configs().len(), 3);
}

#[test]
fn cells_are_read_as_numbers() {
    assert_eq!(read_u32(&Some("42".to_string())), Some(42));
    assert_eq!(read_u32(&Some("4294967295".to_string())), Some(u32::MAX));
    assert_eq!(read_u32(&Some("4294967296".to_string())), None);
    assert_eq!(read_u32(&Some("-1".to_string())), None);
    assert_eq!(read_u32(&Some(" 1".to_string())), None);
    assert_eq!(read_u32(&Some(String::new())), None);
    assert_eq!(read_u32(&None), None);
}

#[test]
fn tables_do_not_load_from_a_schema_without_them() {
    let schema = DataSchema::new();
    let mut roles = RoleTable::new();
    assert!(!roles.load(&schema));
    assert!(roles.get_role_config(0).is_none());
    let mut settings = GConfigTable::new();
    assert!(!settings.load(&schema));
    let with_roles = schema_with(role_table(&[&["1", "knight"]]));
    assert!(!settings.load(&with_roles));
    let gconfig = DataTable::new("gconfig".to_string(), strings(&["key"]));
    let with_settings = load_data_schema_from_xml("", Vec::new(), vec![Ok(gconfig)]);
    assert!(settings.load(&with_settings));
}

#[test]
fn names_are_found_in_lists() {
    let names = strings(&["gconfig", "roletable"]);
    assert!(contains_name(&names, "roletable"));
    assert!(contains_name(&names, "gconfig"));
    assert!(!contains_name(&names, "role"));
    assert!(!contains_name(&Vec::new(), "roletable"));
}

#[test]
fn manager_reloads_only_what_is_asked_for() {
    let schema = schema_with(role_table(&[&["1", "knight"]]));
    let mut manager = ConfigManager::new();
    manager.reload_tables(&schema, &strings(&["roletable"]));
    manager.init();
    manager.reload_tables(&schema, &strings(&["gconfig"]));
    let mut probe = RoleTable::new();
    probe.load(&schema);
    assert!(probe.get_role_config(1).is_some());
    // Replace the role table by one that the test can look into afterwards.
    manager.register(AnyTable::Role(RoleTable::new()));
    manager.register(AnyTable::Game(GConfigTable::new()));
    manager.reload_tables(&schema, &strings(&["roletable", "other"]));
    assert!(manager.reload_all(&schema));
    assert!(manager.reload_all(&DataSchema::new()));
}

#[test]
fn frame_refuses_a_service_id_twice() {
    let mut app = App::new("clisrv");
    assert!(app.attach(1));
    assert!(app.attach(2));
    assert!(!app.attach(1));
    assert!(app.init(10001));
    assert!(!app.init(2));
    let mut ids = vec![5u64, 6];
    assert!(!App::add_service(&mut ids, 6));
    assert_eq!(ids, vec![5, 6]);
    assert!(App::add_service(&mut ids, 7));
    assert_eq!(ids, vec![5, 6, 7]);
}

#[test]
fn frame_stops_when_every_service_is_closed() {
    let app = App::new("test");
    assert!(app.run(&Vec::new()));
    assert!(app.run(&vec![NodeState::Closed, NodeState::Closed]));
    assert!(!app.run(&vec![NodeState::Closed, NodeState::Run]));
    assert!(!app.run(&vec![NodeState::Idle]));
    assert!(!app.run(&vec![NodeState::Start, NodeState::Closed]));
}
