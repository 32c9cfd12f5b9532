//! Node identities derived from network addresses.
use std::collections::hash_map::DefaultHasher;
use std::hash::Hasher;
use vstd::prelude::*;
use vstd::std_specs::hash::*;
use vstd::string::*;
use vstd::utf8::*;

use crate::NodeId;

verus! {

/// The identity of the node listening on `address`: the standard hasher's
/// digest of the address as `str` feeds it, its UTF-8 bytes then the byte `0xff`.
pub open spec fn node_id_spec(address: Seq<char>) -> NodeId {
    DefaultHasher::spec_finish(seq![encode_utf8(address), seq![0xffu8]])
}

/// The identity of the node listening on `address`.
pub fn generate_node_id(address: &str) -> (id: NodeId)
    ensures
        id == node_id_spec(address@),
{
    let mut hasher = DefaultHasher::new();
    hasher.write(address.as_bytes());
    let mut end: Vec<u8> = Vec::new();
    end.push(0xff);
    hasher.write(end.as_slice());
    assert(hasher@ =~= seq![encode_utf8(address@), seq![0xffu8]]);
    hasher.finish()
}

} // verus!
