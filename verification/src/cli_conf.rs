//! Where the client connects to, as read from its XML configuration.

use crate::text::parsed_u64;
use crate::xmlreader::{child_at, XmlReader, XmlTree};
use vstd::prelude::*;

verus! {

/// The address of one node.
pub struct NodeConf {
    /// The id of the node.
    pub id: u64,
    /// The host name or address of the node.
    pub addr: String,
    /// The port of the node.
    pub port: u16,
}

impl NodeConf {
    /// A node with id 0, no address and port 0.
    pub fn new() -> (n: NodeConf)
        ensures
            n.id == 0,
            n.addr@ == Seq::<char>::empty(),
            n.port == 0,
    {
        NodeConf { id: 0, addr: String::new(), port: 0 }
    }
}

/// The number under the key `key` of `tree`: what the value of the first
/// child with that key spells, 0 if it spells no number or there is no such
/// child.
pub open spec fn number_at(tree: XmlTree, key: Seq<char>) -> u64 {
    match child_at(tree, seq![key]) {
        Some(t) => match parsed_u64(t.value) {
            Some(n) => n,
            None => 0,
        },
        None => 0,
    }
}

/// The text under the key `key` of `tree`: the value of the first child
/// with that key, empty if there is no such child.
pub open spec fn text_at(tree: XmlTree, key: Seq<char>) -> Seq<char> {
    match child_at(tree, seq![key]) {
        Some(t) => t.value,
        None => Seq::empty(),
    }
}

/// The configuration of the client.
pub struct CliConf {
    /// The node that the client connects to.
    pub remote: NodeConf,
}

impl CliConf {
    /// A configuration with a blank remote node.
    pub fn new() -> (c: CliConf)
        ensures
            c.remote.id == 0,
            c.remote.addr@ == Seq::<char>::empty(),
            c.remote.port == 0,
    {
        CliConf { remote: NodeConf::new() }
    }

    /// Takes the remote node from `xr`: its `id`, its `addr`, and its
    /// `port`, of which the low 16 bits count.
    pub fn init(&mut self, xr: &XmlReader)
        ensures
            final(self).remote.id == number_at(xr.tree(), "id"@),
            final(self).remote.addr@ == text_at(xr.tree(), "addr"@),
            final(self).remote.port == number_at(xr.tree(), "port"@) % 65536,
    {
        let mut id_path: Vec<&str> = Vec::new();
        id_path.push("id");
        let mut addr_path: Vec<&str> = Vec::new();
        addr_path.push("addr");
        let mut port_path: Vec<&str> = Vec::new();
        port_path.push("port");
        proof {
            assert(crate::xmlreader::key_texts(id_path@) =~= seq!["id"@]);
            assert(crate::xmlreader::key_texts(addr_path@) =~= seq!["addr"@]);
            assert(crate::xmlreader::key_texts(port_path@) =~= seq!["port"@]);
        }
        self.remote.id = xr.get_u64(id_path, 0);
        self.remote.addr = xr.get_string(addr_path, "");
        let port: u64 = xr.get_u64(port_path, 0);
        self.remote.port = (port % 65536) as u16;
        proof {
            reveal_strlit("");
            assert(""@ =~= Seq::<char>::empty());
        }
    }
}

} // verus!
