//! Nodes of the hierarchical namespace and the typed entries bound to them.
//!
//! A node is stored in the node index keyed by its parent's identifier; the
//! stored value is the node's own identifier (8 big-endian bytes) followed
//! by the UTF-8 bytes of its name.

use vstd::prelude::*;
use vstd::slice::{slice_subrange, slice_to_vec};
use vstd::utf8::{decode_utf8, encode_utf8, valid_utf8};
use crate::error::Error;
use crate::id::{u64_be_bytes, u64_from_be_bytes, lemma_u64_be_bytes_roundtrip, Id};
use crate::objectclass::ObjectClass;
use crate::text::bytes_to_string;

verus! {

/// The mathematical content of a namespace node.
pub ghost struct NodeView {
    /// Numeric value of the node's own identifier.
    pub id: u64,
    /// Numeric value of the parent's identifier.
    pub parent_id: u64,
    /// The node's name component.
    pub name: Seq<char>,
}

/// One element of the hierarchical namespace.
pub struct Node {
    /// The node's own durable identifier.
    pub id: Id,
    /// The identifier of the node's parent.
    pub parent_id: Id,
    /// The node's name among its siblings.
    pub name: String,
}

impl View for Node {
    type V = NodeView;

    open spec fn view(&self) -> NodeView {
        NodeView { id: self.id.value(), parent_id: self.parent_id.value(), name: self.name@ }
    }
}

/// A typed directory object bound to a node.
pub struct Entry {
    /// The namespace node the entry is bound to.
    pub node: Node,
    /// The semantic type of the entry.
    pub objectclass: ObjectClass,
}

/// The durable byte form of a node: its own identifier in 8 big-endian
/// bytes, followed by the UTF-8 bytes of its name.
pub open spec fn node_encoding(id: u64, name: Seq<char>) -> Seq<u8> {
    u64_be_bytes(id) + encode_utf8(name)
}

/// The node a stored value under `parent_id` denotes, if it is well formed.
pub open spec fn parse_node(parent_id: u64, bytes: Seq<u8>) -> Option<NodeView> {
    if bytes.len() >= 8 && valid_utf8(bytes.skip(8)) {
        Some(
            NodeView {
                id: u64_from_be_bytes(bytes.take(8)),
                parent_id,
                name: decode_utf8(bytes.skip(8)),
            },
        )
    } else {
        None
    }
}

/// Parsing inverts the durable encoding of a node.
pub broadcast proof fn lemma_node_encoding_roundtrip(parent_id: u64, id: u64, name: Seq<char>)
    ensures
        #[trigger] parse_node(parent_id, node_encoding(id, name)) == Some(
            NodeView { id, parent_id, name },
        ),
{
    let bytes = node_encoding(id, name);
    assert(bytes.take(8) =~= u64_be_bytes(id));
    assert(bytes.skip(8) =~= encode_utf8(name));
    lemma_u64_be_bytes_roundtrip(id);
    vstd::utf8::encode_utf8_valid_utf8(name);
    vstd::utf8::encode_utf8_decode_utf8(name);
}

impl Node {
    /// Encode this node into its durable byte form.
    pub fn to_bytes(&self) -> (r: Vec<u8>)
        ensures
            r@ == node_encoding(self.id.value(), self.name@),
    {
        let mut r = self.id.as_bytes();
        let mut name_bytes = self.name.as_str().as_bytes_vec();
        r.append(&mut name_bytes);
        r
    }

    /// Decode a node from a value stored in the node index under
    /// `parent_id`; `Serialize` when the bytes are malformed.
    pub fn from_parent_id_and_bytes(parent_id: Id, bytes: &[u8]) -> (r: Result<Node, Error>)
        ensures
            match r {
                Ok(n) => parse_node(parent_id.value(), bytes@) == Some(n@),
                Err(e) => e == Error::Serialize && parse_node(parent_id.value(), bytes@) is None,
            },
    {
        if bytes.len() < 8 {
            return Err(Error::Serialize);
        }
        let id_bytes = slice_subrange(bytes, 0, 8);
        let id = match Id::from_bytes(id_bytes) {
            Some(id) => id,
            None => {
                return Err(Error::Serialize);
            },
        };
        let name_bytes = slice_to_vec(slice_subrange(bytes, 8, bytes.len()));
        match bytes_to_string(name_bytes) {
            Some(name) => {
                let n = Node { id, parent_id, name };
                proof {
                    assert(bytes@.take(8) =~= id_bytes@);
                    assert(bytes@.skip(8) =~= bytes@.subrange(8, bytes@.len() as int));
                }
                Ok(n)
            },
            None => Err(Error::Serialize),
        }
    }
}

} // verus!
