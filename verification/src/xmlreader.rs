//! XML as a tree of keyed readers.
//!
//! An XML text is parsed into a flat list of nodes in document order. From
//! that list a tree of readers is built: one reader per element, holding
//! the element's text and, grouped by name, a reader for each attribute and
//! each child element.

use crate::data_schema::{grid, texts, DataTable};
use crate::text::{contains_name, parse_u64, parsed_u64};
use vstd::prelude::*;
use vstd::string::StringExecFns;

verus! {

/// One attribute of an XML element.
pub struct XmlAttr {
    /// The name of the attribute, without prefix.
    pub name: String,
    /// The value of the attribute.
    pub value: String,
    /// Whether the attribute's name is in a namespace.
    pub namespaced: bool,
}

/// One node of an XML document.
pub struct XmlNode {
    /// Position, in the list of nodes, of the parent; `None` for the
    /// document itself.
    pub parent: Option<usize>,
    /// Whether the node is an element.
    pub element: bool,
    /// The tag name without prefix; empty if the node is no element.
    pub name: String,
    /// The node's text: for an element that of its first child, if that
    /// child is a text node.
    pub text: Option<String>,
    /// The attributes, in document order.
    pub attributes: Vec<XmlAttr>,
}

/// The nodes of the XML document `text` in document order, the document
/// itself first; or the parser's complaint, if `text` is no XML document.
pub uninterp spec fn xml_nodes(text: Seq<char>) -> Result<Seq<XmlNode>, Seq<char>>;

/// `roxmltree::Document::parse_with_options` with DTDs allowed, then
/// `Document::descendants`, each node written down as plain values: what
/// `Node::parent`, `is_element`, `tag_name`, `text` and `attributes` return
/// for it. A parse error is returned as its message. The result is a
/// function of the text alone.
#[verifier::external_body]
pub(crate) fn parse_nodes(content: &str) -> (r: Result<Vec<XmlNode>, String>)
    ensures
        r is Ok ==> xml_nodes(content@) is Ok && xml_nodes(content@)->Ok_0 == r->Ok_0@,
        r is Err ==> xml_nodes(content@) is Err && xml_nodes(content@)->Err_0 == r->Err_0@,
{
    let opt = roxmltree::ParsingOptions { allow_dtd: true, ..roxmltree::ParsingOptions::default() };
    let doc = roxmltree::Document::parse_with_options(content, opt).map_err(|e| e.to_string())?;
    Ok(doc.descendants().map(|n| XmlNode {
        parent: n.parent().map(|p| p.id().get_usize()),
        element: n.is_element(),
        name: n.tag_name().name().to_string(),
        text: n.text().map(|t| t.to_string()),
        attributes: n.attributes().map(|a| XmlAttr {
            name: a.name().to_string(),
            value: a.value().to_string(),
            namespaced: a.namespace().is_some(),
        }).collect(),
    }).collect())
}

/// What a reader is: a key, a value, and groups of child readers, each
/// group under the key that its readers share.
pub struct XmlTree {
    /// The tag or attribute name.
    pub key: Seq<char>,
    /// The text or attribute value.
    pub value: Seq<char>,
    /// The groups of children, in order of first appearance.
    pub children: Seq<(Seq<char>, Seq<XmlTree>)>,
}

/// Position of the first group with key `key`, or -1.
pub open spec fn group_position(groups: Seq<(Seq<char>, Seq<XmlTree>)>, key: Seq<char>) -> int
    decreases groups.len(),
{
    if groups.len() == 0 {
        -1
    } else {
        let p = group_position(groups.drop_last(), key);
        if p >= 0 {
            p
        } else if groups.last().0 == key {
            groups.len() - 1
        } else {
            -1
        }
    }
}

/// `group_position` finds the first group with the key, if there is one.
pub proof fn lemma_group_position(groups: Seq<(Seq<char>, Seq<XmlTree>)>, key: Seq<char>)
    ensures
        -1 <= group_position(groups, key) < groups.len(),
        group_position(groups, key) >= 0 ==> groups[group_position(groups, key)].0 == key,
        forall|i: int|
            0 <= i < groups.len() && (group_position(groups, key) < 0 || i < group_position(
                groups,
                key,
            )) ==> (#[trigger] groups[i]).0 != key,
    decreases groups.len(),
{
    if groups.len() > 0 {
        let front = groups.drop_last();
        lemma_group_position(front, key);
        let p = group_position(front, key);
        if p >= 0 {
            assert(front[p] == groups[p]);
        }
        assert forall|i: int|
            0 <= i < groups.len() && (group_position(groups, key) < 0 || i < group_position(
                groups,
                key,
            )) implies (#[trigger] groups[i]).0 != key by {
            if i < front.len() {
                assert(front[i] == groups[i]);
            }
        }
    }
}

/// The groups after adding `child`: appended to the first group with its
/// key, or as a new last group if there is none.
pub open spec fn with_child(
    groups: Seq<(Seq<char>, Seq<XmlTree>)>,
    child: XmlTree,
) -> Seq<(Seq<char>, Seq<XmlTree>)> {
    let p = group_position(groups, child.key);
    if p >= 0 {
        groups.update(p, (groups[p].0, groups[p].1.push(child)))
    } else {
        groups.push((child.key, seq![child]))
    }
}

/// The readers grouped under `key`, if there is such a group.
pub open spec fn group_of(tree: XmlTree, key: Seq<char>) -> Option<Seq<XmlTree>> {
    let p = group_position(tree.children, key);
    if p >= 0 {
        Some(tree.children[p].1)
    } else {
        None
    }
}

/// The reader reached from `tree` by following `keys`, at each step into
/// the first reader of the group with that key.
pub open spec fn walk(tree: XmlTree, keys: Seq<Seq<char>>) -> Option<XmlTree>
    decreases keys.len(),
{
    if keys.len() == 0 {
        Some(tree)
    } else {
        match group_of(tree, keys[0]) {
            Some(g) => if g.len() > 0 {
                walk(g[0], keys.drop_first())
            } else {
                None
            },
            None => None,
        }
    }
}

/// The group reached from `tree` by following `keys`: the group of the last
/// key, looked up in the reader that the keys before it lead to. An empty
/// group on the way is stepped over in place.
pub open spec fn walk_group(tree: XmlTree, keys: Seq<Seq<char>>) -> Option<Seq<XmlTree>>
    decreases keys.len(),
{
    if keys.len() == 0 {
        None
    } else {
        match group_of(tree, keys[0]) {
            Some(g) => if keys.len() == 1 {
                Some(g)
            } else if g.len() > 0 {
                walk_group(g[0], keys.drop_first())
            } else {
                walk_group(tree, keys.drop_first())
            },
            None => None,
        }
    }
}

/// The texts of a list of keys.
pub open spec fn key_texts(keys: Seq<&str>) -> Seq<Seq<char>> {
    keys.map_values(|k: &str| k@)
}

/// The reader for an attribute.
pub open spec fn attr_tree(a: XmlAttr) -> XmlTree {
    XmlTree { key: a.name@, value: a.value@, children: Seq::empty() }
}

/// The groups made of the first `n` attributes.
pub open spec fn attr_groups(attrs: Seq<XmlAttr>, n: int) -> Seq<(Seq<char>, Seq<XmlTree>)>
    decreases n,
{
    if n <= 0 {
        Seq::empty()
    } else {
        with_child(attr_groups(attrs, n - 1), attr_tree(attrs[n - 1]))
    }
}

/// Whether node `j` is a child element of node `i`.
pub open spec fn child_element(nodes: Seq<XmlNode>, i: int, j: int) -> bool {
    0 <= j < nodes.len() && nodes[j].element && nodes[j].parent == Some(i as usize)
}

/// The groups of node `i`: its attributes, then its child elements among
/// the nodes after `i` and before `n`.
pub open spec fn node_groups(nodes: Seq<XmlNode>, i: int, n: int) -> Seq<(Seq<char>, Seq<XmlTree>)>
    decreases nodes.len() - i, n,
{
    if 0 <= i < nodes.len() {
        if n <= i + 1 {
            attr_groups(nodes[i].attributes@, nodes[i].attributes@.len() as int)
        } else if n <= nodes.len() && child_element(nodes, i, n - 1) {
            with_child(node_groups(nodes, i, n - 1), node_tree(nodes, n - 1))
        } else {
            node_groups(nodes, i, n - 1)
        }
    } else {
        Seq::empty()
    }
}

/// The reader for node `i`: its tag name, its text (empty if it has none),
/// and its attributes and child elements as children.
pub open spec fn node_tree(nodes: Seq<XmlNode>, i: int) -> XmlTree
    decreases nodes.len() - i, nodes.len() + 1,
{
    if 0 <= i < nodes.len() {
        XmlTree {
            key: nodes[i].name@,
            value: match nodes[i].text {
                Some(t) => t@,
                None => Seq::empty(),
            },
            children: node_groups(nodes, i, nodes.len() as int),
        }
    } else {
        XmlTree { key: Seq::empty(), value: Seq::empty(), children: Seq::empty() }
    }
}

/// Position of the root element: the first child element of the document
/// among the first `n` nodes, or -1.
pub open spec fn root_position(nodes: Seq<XmlNode>, n: int) -> int
    decreases n,
{
    if n <= 0 {
        -1
    } else {
        let p = root_position(nodes, n - 1);
        if p >= 0 {
            p
        } else if child_element(nodes, 0, n - 1) {
            n - 1
        } else {
            -1
        }
    }
}

/// The trees of a list of readers.
pub open spec fn trees(v: Seq<XmlReader>) -> Seq<XmlTree> {
    Seq::new(v.len(), |i: int| v[i].tree())
}

/// What following `keys` from `tree` gives: nothing without keys, otherwise
/// the reader that `walk` reaches.
pub open spec fn child_at(tree: XmlTree, keys: Seq<Seq<char>>) -> Option<XmlTree> {
    if keys.len() == 0 {
        None
    } else {
        walk(tree, keys)
    }
}

/// What the document with the nodes `nodes` reads as: the reader of its
/// root element, if it has one.
pub open spec fn document_tree(nodes: Seq<XmlNode>) -> Option<XmlTree> {
    let p = root_position(nodes, nodes.len() as int);
    if p >= 0 {
        Some(node_tree(nodes, p))
    } else {
        None
    }
}

/// What can be wrong with a cell of a data table.
#[derive(Debug, Clone, Copy, PartialEq, Eq, Structural)]
pub enum CellFault {
    /// The cell has no attribute `name`.
    NoName,
    /// The cell has no text.
    NoText,
}

/// The value of the first attribute among the first `n` that is called
/// `name` and is in no namespace.
pub open spec fn attribute_upto(attrs: Seq<XmlAttr>, name: Seq<char>, n: int) -> Option<Seq<char>>
    decreases n,
{
    if n <= 0 {
        None
    } else {
        match attribute_upto(attrs, name, n - 1) {
            Some(v) => Some(v),
            None => if !attrs[n - 1].namespaced && attrs[n - 1].name@ == name {
                Some(attrs[n - 1].value@)
            } else {
                None
            },
        }
    }
}

/// The child of node `root` in whose subtree node `j` lies (`j` itself, if
/// it is such a child), found by going up from `j`.
pub open spec fn top_of(nodes: Seq<XmlNode>, root: int, j: int) -> Option<int>
    decreases j,
{
    if 0 <= j < nodes.len() {
        match nodes[j].parent {
            Some(p) => if p == root {
                Some(j)
            } else if p < j {
                top_of(nodes, root, p as int)
            } else {
                None
            },
            None => None,
        }
    } else {
        None
    }
}

/// Whether node `j` declares a field: a `cell` anywhere below a `data`
/// child of the root element.
pub open spec fn is_field_cell(nodes: Seq<XmlNode>, root: int, j: int) -> bool {
    0 <= j < nodes.len() && nodes[j].name@ == "cell"@ && match top_of(nodes, root, j) {
        Some(d) => 0 <= d < nodes.len() && nodes[d].name@ == "data"@,
        None => false,
    }
}

/// The field names that the first `n` nodes declare: the `name` attribute
/// of every field cell, in document order, each name once. The first cell
/// without a name or without text is a fault.
pub open spec fn fields_upto(nodes: Seq<XmlNode>, root: int, n: int) -> Result<
    Seq<Seq<char>>,
    CellFault,
>
    decreases n,
{
    if n <= 0 {
        Ok(Seq::empty())
    } else {
        match fields_upto(nodes, root, n - 1) {
            Err(f) => Err(f),
            Ok(acc) => if is_field_cell(nodes, root, n - 1) {
                match attribute_upto(
                    nodes[n - 1].attributes@,
                    "name"@,
                    nodes[n - 1].attributes@.len() as int,
                ) {
                    None => Err(CellFault::NoName),
                    Some(name) => if nodes[n - 1].text is None {
                        Err(CellFault::NoText)
                    } else if acc.contains(name) {
                        Ok(acc)
                    } else {
                        Ok(acc.push(name))
                    },
                }
            } else {
                Ok(acc)
            },
        }
    }
}

/// Whether node `j` is a cell of the row `d`: a child element called
/// `cell`.
pub open spec fn is_row_cell(nodes: Seq<XmlNode>, d: int, j: int) -> bool {
    child_element(nodes, d, j) && nodes[j].name@ == "cell"@
}

/// The texts of the cells of row `d` among the first `n` nodes, in
/// document order. The first cell without text is a fault.
pub open spec fn row_upto(nodes: Seq<XmlNode>, d: int, n: int) -> Result<Seq<Seq<char>>, CellFault>
    decreases n,
{
    if n <= 0 {
        Ok(Seq::empty())
    } else {
        match row_upto(nodes, d, n - 1) {
            Err(f) => Err(f),
            Ok(acc) => if is_row_cell(nodes, d, n - 1) {
                match nodes[n - 1].text {
                    Some(t) => Ok(acc.push(t@)),
                    None => Err(CellFault::NoText),
                }
            } else {
                Ok(acc)
            },
        }
    }
}

/// Whether node `d` is a row: a child element of the root element called
/// `data`.
pub open spec fn is_row(nodes: Seq<XmlNode>, root: int, d: int) -> bool {
    child_element(nodes, root, d) && nodes[d].name@ == "data"@
}

/// The rows among the first `n` nodes, in document order.
pub open spec fn rows_upto(nodes: Seq<XmlNode>, root: int, n: int) -> Result<
    Seq<Seq<Seq<char>>>,
    CellFault,
>
    decreases n,
{
    if n <= 0 {
        Ok(Seq::empty())
    } else {
        match rows_upto(nodes, root, n - 1) {
            Err(f) => Err(f),
            Ok(acc) => if is_row(nodes, root, n - 1) {
                match row_upto(nodes, n - 1, nodes.len() as int) {
                    Ok(row) => Ok(acc.push(row)),
                    Err(f) => Err(f),
                }
            } else {
                Ok(acc)
            },
        }
    }
}

/// Why an XML text could not be read.
#[derive(Debug)]
pub enum XmlError {
    /// The text is empty.
    Empty,
    /// The text is no XML document; the parser's complaint is attached.
    Parse(String),
    /// The document has no root element.
    NoRoot,
    /// The table has no fields.
    NoFields,
    /// A cell has no attribute `name`.
    NoName,
    /// A cell has no text.
    NoText,
}

/// A keyed value with groups of keyed children.
pub struct XmlReader {
    /// The tag or attribute name.
    pub key: String,
    /// The text or attribute value.
    pub value: String,
    children: Vec<(String, Vec<XmlReader>)>,
}

/// Whether node `j` of `nodes` is a child element of node `i`.
fn is_child_element(nodes: &Vec<XmlNode>, i: usize, j: usize) -> (r: bool)
    requires
        j < nodes@.len(),
    ensures
        r == child_element(nodes@, i as int, j as int),
{
    nodes[j].element && match nodes[j].parent {
        Some(p) => p == i,
        None => false,
    }
}

/// The position of the root element: the first child element of the
/// document node.
fn find_root(nodes: &Vec<XmlNode>) -> (r: Option<usize>)
    ensures
        match r {
            Some(p) => p < nodes@.len() && root_position(nodes@, nodes@.len() as int) == p,
            None => root_position(nodes@, nodes@.len() as int) < 0,
        },
{
    let n = nodes.len();
    let mut j: usize = 0;
    while j < n
        invariant
            j <= n,
            n == nodes@.len(),
            root_position(nodes@, j as int) < 0,
        decreases n - j,
    {
        if is_child_element(nodes, 0, j) {
            proof {
                lemma_root_found(nodes@, j as int, n as int);
            }
            return Some(j);
        }
        j = j + 1;
    }
    None
}

/// A fault in the fields stays a fault.
proof fn lemma_fields_fault(nodes: Seq<XmlNode>, root: int, j: int, n: int)
    requires
        0 < j <= n,
        fields_upto(nodes, root, j) is Err,
    ensures
        fields_upto(nodes, root, n) == fields_upto(nodes, root, j),
    decreases n - j,
{
    if n > j {
        lemma_fields_fault(nodes, root, j, n - 1);
    }
}

/// A fault in a row stays a fault.
proof fn lemma_row_fault(nodes: Seq<XmlNode>, d: int, j: int, n: int)
    requires
        0 < j <= n,
        row_upto(nodes, d, j) is Err,
    ensures
        row_upto(nodes, d, n) == row_upto(nodes, d, j),
    decreases n - j,
{
    if n > j {
        lemma_row_fault(nodes, d, j, n - 1);
    }
}

/// A fault in the rows stays a fault.
proof fn lemma_rows_fault(nodes: Seq<XmlNode>, root: int, j: int, n: int)
    requires
        0 < j <= n,
        rows_upto(nodes, root, j) is Err,
    ensures
        rows_upto(nodes, root, n) == rows_upto(nodes, root, j),
    decreases n - j,
{
    if n > j {
        lemma_rows_fault(nodes, root, j, n - 1);
    }
}

/// Once found, the root element stays the first.
proof fn lemma_root_found(nodes: Seq<XmlNode>, j: int, n: int)
    requires
        0 <= j < n,
        root_position(nodes, j) < 0,
        child_element(nodes, 0, j),
    ensures
        root_position(nodes, n) == j,
    decreases n - j,
{
    if n > j + 1 {
        lemma_root_found(nodes, j, n - 1);
    }
}

/// The value of the first attribute of `node` that is called `name` and is
/// in no namespace.
fn attribute<'a>(node: &'a XmlNode, name: &String) -> (r: Option<&'a String>)
    ensures
        match r {
            Some(v) => attribute_upto(node.attributes@, name@, node.attributes@.len() as int)
                == Some(v@),
            None => attribute_upto(node.attributes@, name@, node.attributes@.len() as int) is None,
        },
{
    let n = node.attributes.len();
    let mut a: usize = 0;
    while a < n
        invariant
            a <= n,
            n == node.attributes@.len(),
            attribute_upto(node.attributes@, name@, a as int) is None,
        decreases n - a,
    {
        if !node.attributes[a].namespaced && node.attributes[a].name == *name {
            proof {
                lemma_attribute_found(node.attributes@, name@, a as int, n as int);
            }
            return Some(&node.attributes[a].value);
        }
        a = a + 1;
    }
    None
}

/// Once found, an attribute stays the first of its name.
proof fn lemma_attribute_found(attrs: Seq<XmlAttr>, name: Seq<char>, a: int, n: int)
    requires
        0 <= a < n,
        attribute_upto(attrs, name, a) is None,
        !attrs[a].namespaced,
        attrs[a].name@ == name,
    ensures
        attribute_upto(attrs, name, n) == Some(attrs[a].value@),
    decreases n - a,
{
    if n > a + 1 {
        lemma_attribute_found(attrs, name, a, n - 1);
    }
}

/// The child of node `root` in whose subtree node `j` lies.
fn find_top(nodes: &Vec<XmlNode>, root: usize, j: usize) -> (r: Option<usize>)
    requires
        j < nodes@.len(),
    ensures
        match r {
            Some(d) => d < nodes@.len() && top_of(nodes@, root as int, j as int) == Some(d as int),
            None => top_of(nodes@, root as int, j as int) is None,
        },
{
    let mut cur: usize = j;
    loop
        invariant
            cur < nodes@.len(),
            top_of(nodes@, root as int, j as int) == top_of(nodes@, root as int, cur as int),
        decreases cur,
    {
        match nodes[cur].parent {
            Some(p) => {
                if p == root {
                    return Some(cur);
                } else if p < cur {
                    cur = p;
                } else {
                    return None;
                }
            },
            None => {
                return None;
            },
        }
    }
}

/// Adds `child` to `node`: to the group of its key, or as a new group.
fn insert_child_reader(node: &mut XmlReader, child: XmlReader)
    ensures
        final(node).tree() == (XmlTree {
            children: with_child(old(node).tree().children, child.tree()),
            ..old(node).tree()
        }),
{
    let ghost groups = node.tree().children;
    let ghost added = child.tree();
    let n = node.children.len();
    proof {
        child.lemma_tree();
    }
    let mut p: usize = 0;
    while p < n
        invariant
            p <= n,
            n == node.children@.len(),
            *node == *old(node),
            added == child.tree(),
            child.key@ == added.key,
            forall|i: int| 0 <= i < p ==> (#[trigger] groups[i]).0 != added.key,
            groups == node.tree().children,
        decreases n - p,
    {
        proof {
            node.lemma_tree();
        }
        if node.children[p].0 == child.key {
            proof {
                lemma_group_position(groups, added.key);
                assert(groups[p as int].0 == added.key);
                assert(group_position(groups, added.key) == p);
            }
            node.children[p].1.push(child);
            proof {
                node.lemma_tree();
                old(node).lemma_tree();
                let new = node.tree().children;
                let want = with_child(groups, added);
                let was = old(node).children@;
                let now = node.children@;
                assert(want == groups.update(p as int, (groups[p as int].0, groups[p as int].1.push(added))));
                assert forall|g: int| 0 <= g < new.len() implies new[g] == want[g] by {
                    assert(new[g].0 == now[g].0@);
                    assert(new[g].1.len() == now[g].1@.len());
                    assert(groups[g].0 == was[g].0@);
                    assert(groups[g].1.len() == was[g].1@.len());
                    if g == p {
                        assert(want[g] == (groups[g].0, groups[g].1.push(added)));
                        assert forall|i: int| 0 <= i < new[g].1.len() implies new[g].1[i]
                            == groups[g].1.push(added)[i] by {
                            assert(new[g].1[i] == now[g].1@[i].tree());
                            if i < was[g].1@.len() {
                                assert(now[g].1@[i] == was[g].1@[i]);
                                assert(groups[g].1[i] == was[g].1@[i].tree());
                            } else {
                                assert(now[g].1@[i] == child);
                            }
                        }
                        assert(new[g].1 =~= groups[g].1.push(added));
                    } else {
                        assert(want[g] == groups[g]);
                        assert(now[g] == was[g]);
                        assert forall|i: int| 0 <= i < new[g].1.len() implies new[g].1[i]
                            == groups[g].1[i] by {
                            assert(new[g].1[i] == now[g].1@[i].tree());
                            assert(groups[g].1[i] == was[g].1@[i].tree());
                        }
                        assert(new[g].1 =~= groups[g].1);
                    }
                }
                assert(new =~= want);
            }
            return ;
        }
        p = p + 1;
    }
    proof {
        node.lemma_tree();
        lemma_group_position(groups, added.key);
        assert(group_position(groups, added.key) < 0);
    }
    let key = child.key.clone();
    let mut readers: Vec<XmlReader> = Vec::new();
    readers.push(child);
    node.children.push((key, readers));
    proof {
        node.lemma_tree();
        old(node).lemma_tree();
        let new = node.tree().children;
        let want = with_child(groups, added);
        assert forall|g: int| 0 <= g < new.len() implies new[g] == want[g] by {
            assert(new[g].1.len() == want[g].1.len());
            assert forall|i: int| 0 <= i < new[g].1.len() implies new[g].1[i] == want[g].1[i] by {
                assert(new[g].1[i] == node.children@[g].1@[i].tree());
                if g == n {
                    assert(node.children@[g].1@[i] == child);
                } else {
                    assert(node.children@[g].1@[i] == old(node).children@[g].1@[i]);
                    assert(groups[g].1[i] == old(node).children@[g].1@[i].tree());
                }
            }
            assert(new[g].1 =~= want[g].1);
        }
        assert(new =~= want);
    }
}

impl XmlReader {
    /// What this reader is.
    pub closed spec fn tree(&self) -> XmlTree
        decreases self,
    {
        XmlTree {
            key: self.key@,
            value: self.value@,
            children: Seq::new(
                self.children@.len(),
                |g: int|
                    (
                        self.children@[g].0@,
                        Seq::new(
                            self.children@[g].1@.len(),
                            |i: int|
                                if 0 <= g < self.children@.len() && 0 <= i
                                    < self.children@[g].1@.len() {
                                    self.children@[g].1@[i].tree()
                                } else {
                                    arbitrary()
                                },
                        ),
                    ),
            ),
        }
    }

    /// The tree of a reader, one level deep.
    proof fn lemma_tree(&self)
        ensures
            self.tree().key == self.key@,
            self.tree().value == self.value@,
            self.tree().children.len() == self.children@.len(),
            forall|g: int|
                0 <= g < self.children@.len() ==> (#[trigger] self.tree().children[g]).0
                    == self.children@[g].0@ && self.tree().children[g].1.len()
                    == self.children@[g].1@.len(),
            forall|g: int, i: int|
                0 <= g < self.children@.len() && 0 <= i < self.children@[g].1@.len()
                    ==> self.tree().children[g].1[i] == (#[trigger] self.children@[g].1@[i]).tree(),
    {
    }

    /// A reader with empty key and value and no children.
    pub fn new() -> (r: XmlReader)
        ensures
            r.tree() == (XmlTree {
                key: Seq::empty(),
                value: Seq::empty(),
                children: Seq::empty(),
            }),
    {
        let r = XmlReader { key: String::new(), value: String::new(), children: Vec::new() };
        proof {
            r.lemma_tree();
            assert(r.tree().children =~= Seq::empty());
        }
        r
    }

    /// The first group of children with key `key`, if there is one.
    fn find_group(&self, key: &String) -> (r: Option<&Vec<XmlReader>>)
        ensures
            match r {
                Some(v) => group_of(self.tree(), key@) == Some(trees(v@)),
                None => group_of(self.tree(), key@) is None,
            },
    {
        let ghost groups = self.tree().children;
        let n = self.children.len();
        let mut p: usize = 0;
        proof {
            self.lemma_tree();
            lemma_group_position(groups, key@);
        }
        while p < n
            invariant
                p <= n,
                n == self.children@.len(),
                groups == self.tree().children,
                forall|i: int| 0 <= i < p ==> (#[trigger] groups[i]).0 != key@,
            decreases n - p,
        {
            proof {
                self.lemma_tree();
            }
            if self.children[p].0 == *key {
                proof {
                    lemma_group_position(groups, key@);
                    assert(groups[p as int].0 == key@);
                    assert(group_position(groups, key@) == p);
                    assert(groups[p as int].1 =~= trees(self.children@[p as int].1@));
                }
                return Some(&self.children[p].1);
            }
            p = p + 1;
        }
        proof {
            lemma_group_position(groups, key@);
            assert(group_position(groups, key@) < 0);
        }
        None
    }

    /// The reader found by following `keys` from this one, at each step
    /// into the first child with that key. Without keys there is nothing to
    /// find.
    pub fn get_child(&self, keys: Vec<&str>) -> (r: Option<&Self>)
        ensures
            match r {
                Some(x) => child_at(self.tree(), key_texts(keys@)) == Some(x.tree()),
                None => child_at(self.tree(), key_texts(keys@)) is None,
            },
    {
        if keys.len() == 0 {
            return None;
        }
        let ghost path = key_texts(keys@);
        let mut cur: &XmlReader = self;
        let mut k: usize = 0;
        proof {
            assert(path.skip(0) =~= path);
        }
        while k < keys.len()
            invariant
                k <= keys@.len(),
                path == key_texts(keys@),
                walk(self.tree(), path) == walk(cur.tree(), path.skip(k as int)),
            decreases keys@.len() - k,
        {
            let key = String::from_str(keys[k]);
            proof {
                assert(path.skip(k as int)[0] == key@);
                assert(path.skip(k as int).drop_first() =~= path.skip(k + 1));
            }
            match cur.find_group(&key) {
                Some(v) => {
                    if v.len() > 0 {
                        cur = &v[0];
                    } else {
                        return None;
                    }
                },
                None => {
                    return None;
                },
            }
            k = k + 1;
        }
        Some(cur)
    }

    /// The group of readers found by following `keys` from this one: the
    /// children with the last key of the reader that the keys before it
    /// lead to. Without keys there is nothing to find.
    pub fn get_children(&self, keys: Vec<&str>) -> (r: Option<&Vec<Self>>)
        ensures
            match r {
                Some(v) => walk_group(self.tree(), key_texts(keys@)) == Some(trees(v@)),
                None => walk_group(self.tree(), key_texts(keys@)) is None,
            },
    {
        let n = keys.len();
        if n == 0 {
            return None;
        }
        let ghost path = key_texts(keys@);
        let mut cur: &XmlReader = self;
        let mut k: usize = 0;
        proof {
            assert(path.skip(0) =~= path);
        }
        while k < n - 1
            invariant
                k <= n - 1,
                n == keys@.len(),
                path == key_texts(keys@),
                walk_group(self.tree(), path) == walk_group(cur.tree(), path.skip(k as int)),
            decreases n - k,
        {
            let key = String::from_str(keys[k]);
            proof {
                assert(path.skip(k as int)[0] == key@);
                assert(path.skip(k as int).drop_first() =~= path.skip(k + 1));
            }
            match cur.find_group(&key) {
                Some(v) => {
                    if v.len() > 0 {
                        cur = &v[0];
                    }
                },
                None => {
                    return None;
                },
            }
            k = k + 1;
        }
        let key = String::from_str(keys[k]);
        proof {
            assert(path.skip(k as int)[0] == key@);
        }
        cur.find_group(&key)
    }

    /// The value of the reader found by following `keys`, or
    /// `default_value` if there is none.
    pub fn get_string(&self, keys: Vec<&str>, default_value: &str) -> (r: String)
        ensures
            r@ == (match child_at(self.tree(), key_texts(keys@)) {
                Some(t) => t.value,
                None => default_value@,
            }),
    {
        match self.get_child(keys) {
            Some(reader) => {
                proof {
                    reader.lemma_tree();
                }
                reader.value.clone()
            },
            None => String::from_str(default_value),
        }
    }

    /// The number that the value of the reader found by following `keys`
    /// spells, 0 if it spells none, or `default_value` if there is no such
    /// reader.
    pub fn get_u64(&self, keys: Vec<&str>, default_value: u64) -> (r: u64)
        ensures
            r == (match child_at(self.tree(), key_texts(keys@)) {
                Some(t) => match parsed_u64(t.value) {
                    Some(n) => n,
                    None => 0,
                },
                None => default_value,
            }),
    {
        match self.get_child(keys) {
            Some(reader) => {
                proof {
                    reader.lemma_tree();
                }
                match parse_u64(reader.value.as_str()) {
                    Some(n) => n,
                    None => 0,
                }
            },
            None => default_value,
        }
    }

    /// The reader for node `i` of `nodes`: its tag name, its text, and its
    /// attributes and child elements as grouped children.
    fn do_parse(nodes: &Vec<XmlNode>, i: usize) -> (r: XmlReader)
        requires
            i < nodes@.len(),
        ensures
            r.tree() == node_tree(nodes@, i as int),
        decreases nodes@.len() - i,
    {
        let node = &nodes[i];
        let value = match &node.text {
            Some(t) => t.clone(),
            None => String::new(),
        };
        let mut reader = XmlReader { key: node.name.clone(), value, children: Vec::new() };
        let ghost head = node_tree(nodes@, i as int);
        proof {
            reader.lemma_tree();
            assert(reader.tree().children =~= attr_groups(node.attributes@, 0));
        }
        let mut a: usize = 0;
        while a < node.attributes.len()
            invariant
                a <= node.attributes@.len(),
                reader.tree() == (XmlTree {
                    children: attr_groups(node.attributes@, a as int),
                    ..head
                }),
            decreases node.attributes@.len() - a,
        {
            let attr = &node.attributes[a];
            let attr_reader = XmlReader {
                key: attr.name.clone(),
                value: attr.value.clone(),
                children: Vec::new(),
            };
            proof {
                attr_reader.lemma_tree();
                assert(attr_reader.tree().children =~= Seq::empty());
                assert(attr_reader.tree() == attr_tree(*attr));
            }
            insert_child_reader(&mut reader, attr_reader);
            a = a + 1;
        }
        let n = nodes.len();
        let mut j: usize = i + 1;
        while j < n
            invariant
                i < j <= n,
                n == nodes@.len(),
                head == node_tree(nodes@, i as int),
                reader.tree() == (XmlTree { children: node_groups(nodes@, i as int, j as int), ..head }),
            decreases n - j,
        {
            if is_child_element(nodes, i, j) {
                let child = Self::do_parse(nodes, j);
                insert_child_reader(&mut reader, child);
            }
            j = j + 1;
        }
        reader
    }

    /// Reads an XML text into the reader of its root element.
    ///
    /// Fails with the parser's complaint if the text is no XML document,
    /// and with `NoRoot` if the document has no root element.
    pub fn read_content(content: &str) -> (r: Result<Self, XmlError>)
        ensures
            match r {
                Ok(reader) => xml_nodes(content@) is Ok && document_tree(xml_nodes(content@)->Ok_0)
                    == Some(reader.tree()),
                Err(XmlError::Parse(msg)) => xml_nodes(content@) is Err && xml_nodes(
                    content@,
                )->Err_0 == msg@,
                Err(XmlError::NoRoot) => xml_nodes(content@) is Ok && document_tree(
                    xml_nodes(content@)->Ok_0,
                ) is None,
                Err(_) => false,
            },
    {
        let nodes = match parse_nodes(content) {
            Ok(nodes) => nodes,
            Err(msg) => {
                return Err(XmlError::Parse(msg));
            },
        };
        match find_root(&nodes) {
            Some(root) => Ok(Self::do_parse(&nodes, root)),
            None => Err(XmlError::NoRoot),
        }
    }

    /// The field names of the table whose root element is node `root`: the
    /// `name` attribute of every `cell` below a `data` child of the root,
    /// in document order, each name once.
    ///
    /// Fails at the first such cell that has no `name` or no text.
    pub fn get_data_table_fields(nodes: &Vec<XmlNode>, root: usize) -> (r: Result<
        Vec<String>,
        CellFault,
    >)
        ensures
            match r {
                Ok(fields) => fields_upto(nodes@, root as int, nodes@.len() as int) == Ok::<
                    Seq<Seq<char>>,
                    CellFault,
                >(texts(fields@)),
                Err(f) => fields_upto(nodes@, root as int, nodes@.len() as int) == Err::<
                    Seq<Seq<char>>,
                    CellFault,
                >(f),
            },
    {
        let cell = String::from_str("cell");
        let data = String::from_str("data");
        let name_key = String::from_str("name");
        let mut attrs: Vec<String> = Vec::new();
        let n = nodes.len();
        let mut j: usize = 0;
        proof {
            assert(texts(attrs@) =~= Seq::<Seq<char>>::empty());
        }
        while j < n
            invariant
                j <= n,
                n == nodes@.len(),
                cell@ == "cell"@,
                data@ == "data"@,
                name_key@ == "name"@,
                fields_upto(nodes@, root as int, j as int) == Ok::<Seq<Seq<char>>, CellFault>(
                    texts(attrs@),
                ),
            decreases n - j,
        {
            let is_cell = nodes[j].name == cell && match find_top(nodes, root, j) {
                Some(d) => nodes[d].name == data,
                None => false,
            };
            if is_cell {
                match attribute(&nodes[j], &name_key) {
                    None => {
                        proof {
                            lemma_fields_fault(nodes@, root as int, j as int + 1, n as int);
                        }
                        return Err(CellFault::NoName);
                    },
                    Some(name) => {
                        if nodes[j].text.is_none() {
                            proof {
                                lemma_fields_fault(nodes@, root as int, j as int + 1, n as int);
                            }
                            return Err(CellFault::NoText);
                        }
                        if !contains_name(&attrs, name.as_str()) {
                            let ghost before = attrs@;
                            attrs.push(name.clone());
                            proof {
                                assert(texts(attrs@) =~= texts(before).push(name@));
                            }
                        }
                    },
                }
            }
            j = j + 1;
        }
        Ok(attrs)
    }

    /// The texts of the cells of row `d`.
    fn read_row(nodes: &Vec<XmlNode>, d: usize) -> (r: Result<Vec<String>, CellFault>)
        ensures
            match r {
                Ok(row) => row_upto(nodes@, d as int, nodes@.len() as int) == Ok::<
                    Seq<Seq<char>>,
                    CellFault,
                >(texts(row@)),
                Err(f) => row_upto(nodes@, d as int, nodes@.len() as int) == Err::<
                    Seq<Seq<char>>,
                    CellFault,
                >(f),
            },
    {
        let cell = String::from_str("cell");
        let mut row: Vec<String> = Vec::new();
        let n = nodes.len();
        let mut j: usize = 0;
        proof {
            assert(texts(row@) =~= Seq::<Seq<char>>::empty());
        }
        while j < n
            invariant
                j <= n,
                n == nodes@.len(),
                cell@ == "cell"@,
                row_upto(nodes@, d as int, j as int) == Ok::<Seq<Seq<char>>, CellFault>(
                    texts(row@),
                ),
            decreases n - j,
        {
            if is_child_element(nodes, d, j) && nodes[j].name == cell {
                match &nodes[j].text {
                    Some(t) => {
                        let ghost before = row@;
                        row.push(t.clone());
                        proof {
                            assert(texts(row@) =~= texts(before).push(t@));
                        }
                    },
                    None => {
                        proof {
                            lemma_row_fault(nodes@, d as int, j as int + 1, n as int);
                        }
                        return Err(CellFault::NoText);
                    },
                }
            }
            j = j + 1;
        }
        Ok(row)
    }

    /// The rows of the table whose root element is node `root`.
    fn read_rows(nodes: &Vec<XmlNode>, root: usize) -> (r: Result<Vec<Vec<String>>, CellFault>)
        ensures
            match r {
                Ok(rows) => rows_upto(nodes@, root as int, nodes@.len() as int) == Ok::<
                    Seq<Seq<Seq<char>>>,
                    CellFault,
                >(grid(rows@)),
                Err(f) => rows_upto(nodes@, root as int, nodes@.len() as int) == Err::<
                    Seq<Seq<Seq<char>>>,
                    CellFault,
                >(f),
            },
    {
        let data = String::from_str("data");
        let mut rows: Vec<Vec<String>> = Vec::new();
        let n = nodes.len();
        let mut d: usize = 0;
        proof {
            assert(grid(rows@) =~= Seq::<Seq<Seq<char>>>::empty());
        }
        while d < n
            invariant
                d <= n,
                n == nodes@.len(),
                data@ == "data"@,
                rows_upto(nodes@, root as int, d as int) == Ok::<Seq<Seq<Seq<char>>>, CellFault>(
                    grid(rows@),
                ),
            decreases n - d,
        {
            if is_child_element(nodes, root, d) && nodes[d].name == data {
                match Self::read_row(nodes, d) {
                    Ok(row) => {
                        let ghost before = rows@;
                        rows.push(row);
                        proof {
                            assert(grid(rows@) =~= grid(before).push(texts(row@)));
                        }
                    },
                    Err(f) => {
                        proof {
                            lemma_rows_fault(nodes@, root as int, d as int + 1, n as int);
                        }
                        return Err(f);
                    },
                }
            }
            d = d + 1;
        }
        Ok(rows)
    }

    /// Reads an XML text as a data table: the root element names the
    /// table, the cells below its `data` children declare the fields, and
    /// each `data` child is a row of cells.
    ///
    /// Fails if the text is empty or no XML document, if a cell lacks its
    /// name or its text, or if no field is declared.
    pub fn read_data_string(xml_data: &str) -> (r: Result<DataTable, XmlError>)
        ensures
            match r {
                Ok(t) => {
                    let nodes = xml_nodes(xml_data@)->Ok_0;
                    let root = root_position(nodes, nodes.len() as int);
                    &&& xml_data@.len() > 0
                    &&& xml_nodes(xml_data@) is Ok
                    &&& 0 <= root < nodes.len()
                    &&& t.name@ == nodes[root].name@
                    &&& fields_upto(nodes, root, nodes.len() as int) == Ok::<
                        Seq<Seq<char>>,
                        CellFault,
                    >(texts(t.fields@))
                    &&& t.fields@.len() > 0
                    &&& rows_upto(nodes, root, nodes.len() as int) == Ok::<
                        Seq<Seq<Seq<char>>>,
                        CellFault,
                    >(grid(t.rows@))
                    &&& t.indexed()
                },
                Err(XmlError::Empty) => xml_data@.len() == 0,
                Err(XmlError::Parse(msg)) => xml_data@.len() > 0 && xml_nodes(xml_data@) is Err
                    && xml_nodes(xml_data@)->Err_0 == msg@,
                Err(e) => {
                    let nodes = xml_nodes(xml_data@)->Ok_0;
                    let root = root_position(nodes, nodes.len() as int);
                    let fields = fields_upto(nodes, root, nodes.len() as int);
                    let rows = rows_upto(nodes, root, nodes.len() as int);
                    &&& xml_data@.len() > 0
                    &&& xml_nodes(xml_data@) is Ok
                    &&& match e {
                        XmlError::NoRoot => root < 0,
                        XmlError::NoName => root >= 0 && fields == Err::<Seq<Seq<char>>, CellFault>(
                            CellFault::NoName,
                        ),
                        XmlError::NoFields => root >= 0 && fields == Ok::<
                            Seq<Seq<char>>,
                            CellFault,
                        >(Seq::empty()),
                        XmlError::NoText => root >= 0 && (fields == Err::<
                            Seq<Seq<char>>,
                            CellFault,
                        >(CellFault::NoText) || (fields is Ok && fields->Ok_0.len() > 0 && rows
                            is Err)),
                        _ => false,
                    }
                },
            },
    {
        if xml_data.is_empty() {
            return Err(XmlError::Empty);
        }
        let nodes = match parse_nodes(xml_data) {
            Ok(nodes) => nodes,
            Err(msg) => {
                return Err(XmlError::Parse(msg));
            },
        };
        let root = match find_root(&nodes) {
            Some(root) => root,
            None => {
                return Err(XmlError::NoRoot);
            },
        };
        let fields = match Self::get_data_table_fields(&nodes, root) {
            Ok(fields) => fields,
            Err(CellFault::NoName) => {
                return Err(XmlError::NoName);
            },
            Err(CellFault::NoText) => {
                return Err(XmlError::NoText);
            },
        };
        if fields.len() == 0 {
            proof {
                assert(texts(fields@) =~= Seq::<Seq<char>>::empty());
            }
            return Err(XmlError::NoFields);
        }
        let mut dt = DataTable::new(nodes[root].name.clone(), fields);
        let rows = match Self::read_rows(&nodes, root) {
            Ok(rows) => rows,
            Err(_) => {
                return Err(XmlError::NoText);
            },
        };
        dt.set_data(rows);
        Ok(dt)
    }
}

} // verus!
