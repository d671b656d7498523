use commlib::cli_conf::CliConf;
use commlib::data_schema::TableError;
use commlib::xmlreader::{CellFault, XmlError, XmlNode, XmlReader};

const NODE_CONF: &str = r#"<?xml version="1.0" encoding="utf-8"?>
<!-- test node -->
<node id="10001" name="cli">
  <srv>7</srv>
  <remote id="20002" addr="127.0.0.1" port="8090"/>
  <remote id="20003" addr="127.0.0.2" port="x"/>
  <limits>
    <conn max="100">many</conn>
  </limits>
  text after
</node>"#;

const ROLE_TABLE: &str = r#"<roletable>
  <data><cell name="id">1</cell><cell name="name">knight</cell></data>
  <data><cell name="id">2</cell><cell name="name">mage</cell><note>x</note></data>
  <other><cell name="skipped">0</cell></other>
  <data><group><cell name="level">9</cell></group><cell name="id">3</cell></data>
</roletable>"#;

fn plain(node: XmlNode) -> (Option<usize>, bool, String, Option<String>, Vec<(String, String, bool)>) {
    let attrs = node
        .attributes
        .into_iter()
        .map(|a| (a.name, a.value, a.namespaced))
        .collect();
    (node.parent, node.element, node.name, node.text, attrs)
}

#[test]
fn new_reader_is_blank() {
    let reader = XmlReader::new();
    assert_eq!(reader.key, "");
    assert_eq!(reader.value, "");
    assert!(reader.get_child(vec!["a"]).is_none());
    assert!(reader.get_children(vec!["a"]).is_none());
}

#[test]
fn root_element_becomes_the_reader() {
    let reader = XmlReader::read_content(NODE_CONF).expect("xml not read");
    assert_eq!(reader.key, "node");
    assert_eq!(reader.value, "\n  ");
    assert_eq!(reader.get_string(vec!["id"], "none"), "10001");
    assert_eq!(reader.get_string(vec!["name"], "none"), "cli");
    assert_eq!(reader.get_string(vec!["srv"], "none"), "7");
    assert_eq!(reader.get_string(vec!["missing"], "none"), "none");
    assert_eq!(reader.get_string(vec![], "none"), "none");
}

#[test]
fn numbers_are_read_with_defaults() {
    let reader = XmlReader::read_content(NODE_CONF).expect("xml not read");
    assert_eq!(reader.get_u64(vec!["id"], 5), 10001);
    assert_eq!(reader.get_u64(vec!["srv"], 5), 7);
    assert_eq!(reader.get_u64(vec!["remote", "port"], 5), 8090);
    // A value that spells no number reads as 0, a missing one as the default.
    assert_eq!(reader.get_u64(vec!["name"], 5), 0);
    assert_eq!(reader.get_u64(vec!["remote", "nothing"], 5), 5);
    assert_eq!(reader.get_u64(vec![], 5), 5);
}

#[test]
fn client_configuration_is_taken_from_the_reader() {
    let mut conf = CliConf::new();
    assert_eq!(conf.remote.id, 0);
    assert_eq!(conf.remote.addr, "");
    assert_eq!(conf.remote.port, 0);
    let reader = XmlReader::read_content(r#"<remote id="20002" addr="127.0.0.1" port="8090"/>"#)
        .expect("xml not read");
    conf.init(&reader);
    assert_eq!(conf.remote.id, 20002);
    assert_eq!(conf.remote.addr, "127.0.0.1");
    assert_eq!(conf.remote.port, 8090);
    let reader = XmlReader::read_content(r#"<remote id="x" port="65537"/>"#).expect("xml not read");
    conf.init(&reader);
    assert_eq!(conf.remote.id, 0);
    assert_eq!(conf.remote.addr, "");
    assert_eq!(conf.remote.port, 1);
}

#[test]
fn paths_follow_first_children() {
    let reader = XmlReader::read_content(NODE_CONF).expect("xml not read");
    let remote = reader.get_child(vec!["remote"]).expect("child not found");
    assert_eq!(remote.key, "remote");
    assert_eq!(remote.get_string(vec!["addr"], ""), "127.0.0.1");
    let conn = reader.get_child(vec!["limits", "conn"]).expect("child not found");
    assert_eq!(conn.value, "many");
    assert_eq!(reader.get_string(vec!["limits", "conn", "max"], ""), "100");
    assert!(reader.get_child(vec!["limits", "nothing"]).is_none());
    assert!(reader.get_child(vec!["nothing", "conn"]).is_none());
    assert!(reader.get_child(vec![]).is_none());
}

#[test]
fn children_come_in_groups() {
    let reader = XmlReader::read_content(NODE_CONF).expect("xml not read");
    let remotes = reader.get_children(vec!["remote"]).expect("children not found");
    assert_eq!(remotes.len(), 2);
    assert_eq!(remotes[0].get_string(vec!["id"], ""), "20002");
    assert_eq!(remotes[1].get_string(vec!["id"], ""), "20003");
    assert_eq!(remotes[1].get_u64(vec!["port"], 1), 0);
    let ports = reader.get_children(vec!["remote", "port"]).expect("children not found");
    assert_eq!(ports.len(), 1);
    assert_eq!(ports[0].value, "8090");
    assert!(reader.get_children(vec!["remote", "nothing"]).is_none());
    assert!(reader.get_children(vec!["nothing"]).is_none());
    assert!(reader.get_children(vec![]).is_none());
}

#[test]
fn attributes_and_elements_share_groups() {
    let reader = XmlReader::read_content(r#"<a b="attr"><b>first</b><b>second</b></a>"#)
        .expect("xml not read");
    let group = reader.get_children(vec!["b"]).expect("children not found");
    let values: Vec<&str> = group.iter().map(|r| r.value.as_str()).collect();
    assert_eq!(values, vec!["attr", "first", "second"]);
    assert_eq!(reader.get_string(vec!["b"], ""), "attr");
}

#[test]
fn broken_xml_is_refused() {
    assert!(matches!(XmlReader::read_content("<a><b></a>"), Err(XmlError::Parse(_))));
    assert!(matches!(XmlReader::read_content(""), Err(XmlError::Parse(_))));
    assert!(matches!(XmlReader::read_content("no xml"), Err(XmlError::Parse(_))));
    match XmlReader::read_content("<a>") {
        Err(XmlError::Parse(msg)) => assert!(!msg.is_empty()),
        other => panic!("Unexpected result {:?}", other.map(|r| r.key)),
    }
}

#[test]
fn doctype_is_allowed() {
    let reader = XmlReader::read_content("<!DOCTYPE a [<!ENTITY e \"text\">]><a>&e;</a>")
        .expect("xml not read");
    assert_eq!(reader.key, "a");
    assert_eq!(reader.value, "text");
}

#[test]
fn data_table_is_read_from_cells() {
    let table = XmlReader::read_data_string(ROLE_TABLE).expect("table not read");
    assert_eq!(table.name, "roletable");
    assert_eq!(table.fields, vec!["id", "name", "level"]);
    assert_eq!(
        table.rows,
        vec![vec!["1", "knight"], vec!["2", "mage"], vec!["3"]]
    );
    assert_eq!(table.get_row_by_key("2"), Some(1));
    assert_eq!(table.get_row_by_key("3"), Some(2));
    // Three fields are declared, so rows of fewer cells cannot be read.
    assert_eq!(table.get(1, "name"), Err(TableError::ShortRow));
    assert_eq!(table.get(3, "id"), Err(TableError::RowOutOfRange));
}

#[test]
fn regular_data_table_reads_back() {
    let table = XmlReader::read_data_string(
        "<gconfig>\n<data><cell name=\"key\">speed</cell><cell name=\"value\">3</cell></data>\n\
         <data><cell name=\"key\">jump</cell><cell name=\"value\">5</cell></data></gconfig>",
    )
    .expect("table not read");
    assert_eq!(table.name, "gconfig");
    assert_eq!(table.fields, vec!["key", "value"]);
    assert_eq!(table.get(0, "value"), Ok("3".to_string()));
    assert_eq!(table.get(1, "key"), Ok("jump".to_string()));
    assert_eq!(table.get_value(1, "value"), Some("5".to_string()));
    assert_eq!(table.get_row_by_key("jump"), Some(1));
}

#[test]
fn data_table_faults_are_told_apart() {
    assert!(matches!(XmlReader::read_data_string(""), Err(XmlError::Empty)));
    assert!(matches!(XmlReader::read_data_string("<t>"), Err(XmlError::Parse(_))));
    assert!(matches!(XmlReader::read_data_string("<t/>"), Err(XmlError::NoFields)));
    assert!(matches!(
        XmlReader::read_data_string("<t><other><cell name=\"a\">1</cell></other></t>"),
        Err(XmlError::NoFields)
    ));
    assert!(matches!(
        XmlReader::read_data_string("<t><data><cell>1</cell></data></t>"),
        Err(XmlError::NoName)
    ));
    assert!(matches!(
        XmlReader::read_data_string("<t><data><cell name=\"a\"/></data></t>"),
        Err(XmlError::NoText)
    ));
    assert!(matches!(
        XmlReader::read_data_string(
            "<t xmlns:x=\"urn:x\"><data><cell x:name=\"a\">1</cell></data></t>"
        ),
        Err(XmlError::NoName)
    ));
}

#[test]
fn fields_are_declared_once_in_document_order() {
    let nodes = vec![
        XmlNode { parent: None, element: false, name: String::new(), text: None, attributes: vec![] },
        XmlNode { parent: Some(0), element: true, name: "t".into(), text: None, attributes: vec![] },
        XmlNode { parent: Some(1), element: true, name: "data".into(), text: None, attributes: vec![] },
        cell(2, "b", Some("1")),
        cell(2, "a", Some("2")),
        cell(2, "b", Some("3")),
        XmlNode { parent: Some(1), element: true, name: "cell".into(), text: None, attributes: vec![] },
    ];
    assert_eq!(
        XmlReader::get_data_table_fields(&nodes, 1).expect("fields not read"),
        vec!["b", "a"]
    );
    let mut faulty = nodes;
    faulty.push(cell(2, "c", None));
    assert_eq!(XmlReader::get_data_table_fields(&faulty, 1), Err(CellFault::NoText));
    assert_eq!(plain(cell(2, "c", None)).3, None);
}

fn cell(parent: usize, name: &str, text: Option<&str>) -> XmlNode {
    XmlNode {
        parent: Some(parent),
        element: true,
        name: "cell".into(),
        text: text.map(|t| t.to_string()),
        attributes: vec![commlib::xmlreader::XmlAttr {
            name: "name".into(),
            value: name.into(),
            namespaced: false,
        }],
    }
}
