use vstd::prelude::*;

use crate::digest::Digest;

verus! {

/// A record of the node store: the two child digests that produced a parent
/// digest. A leaf record carries no children.
#[derive(Clone, Copy, Debug)]
pub struct Node {
    pub left: Option<Digest>,
    pub right: Option<Digest>,
}

/// The append-only node store: a mapping from a node's digest to the pair of
/// child digests it was combined from. Backed by a hash map of an outside
/// crate, so the store itself is opaque to the verifier; everything proved
/// about it goes through `db_nodes` and the method contracts below.
#[verifier::external_body]
pub struct MockDB {
    nodes: hashbrown::HashMap<Digest, Node>,
}

/// What the node store holds, as a map from digests to child records.
pub uninterp spec fn db_nodes(db: MockDB) -> Map<Digest, Node>;

/// The contents of a store that holds nothing.
pub open spec fn db_empty() -> Map<Digest, Node> {
    Map::empty()
}

impl MockDB {
    /// Relies on hashbrown's `HashMap::new`: a freshly created map is empty.
    #[verifier::external_body]
    pub fn new() -> (r: MockDB)
        ensures
            db_nodes(r) == db_empty(),
    {
        MockDB { nodes: hashbrown::HashMap::new() }
    }

    /// Relies on hashbrown's `HashMap::insert`: after the call the key maps
    /// to the given value and every other key is unchanged.
    #[verifier::external_body]
    pub fn insert(&mut self, key: Digest, node: Node)
        ensures
            db_nodes(*final(self)) == db_nodes(*old(self)).insert(key, node),
    {
        self.nodes.insert(key, node);
    }

    /// Relies on hashbrown's `HashMap::get`: returns the value the key maps
    /// to, or nothing when the key is absent.
    #[verifier::external_body]
    pub fn get(&self, key: Digest) -> (r: Option<Node>)
        ensures
            db_nodes(*self).contains_key(key) ==> r == Some(db_nodes(*self)[key]),
            !db_nodes(*self).contains_key(key) ==> r is None,
    {
        self.nodes.get(&key).cloned()
    }
}

} // verus!
