use vstd::prelude::*;

use crate::digest::Digest;

verus! {

/// A pair of child digests, keyed in `MockTree` by the parent digest they
/// combine to.
#[derive(Clone, Copy, Debug)]
pub struct Node {
    pub left: Digest,
    pub right: Digest,
}

/// A standalone node index from a parent digest to its two children. Backed
/// by a hash map of an outside crate, so the index itself is opaque to the
/// verifier; everything proved about it goes through `tree_nodes` and the
/// method contracts below.
#[verifier::external_body]
pub struct MockTree {
    nodes: hashbrown::HashMap<Digest, Node>,
}

/// What the node index holds, as a map from digests to child pairs.
pub uninterp spec fn tree_nodes(t: MockTree) -> Map<Digest, Node>;

/// The contents of an index that holds nothing.
pub open spec fn tree_empty() -> Map<Digest, Node> {
    Map::empty()
}

impl MockTree {
    /// Relies on hashbrown's `HashMap::new`: a freshly created map is empty.
    #[verifier::external_body]
    pub fn new() -> (r: MockTree)
        ensures
            tree_nodes(r) == tree_empty(),
    {
        MockTree { nodes: hashbrown::HashMap::new() }
    }

    /// Relies on hashbrown's `HashMap::insert`: after the call the key maps
    /// to the given value and every other key is unchanged.
    #[verifier::external_body]
    pub fn insert(&mut self, key: Digest, node: Node)
        ensures
            tree_nodes(*final(self)) == tree_nodes(*old(self)).insert(key, node),
    {
        self.nodes.insert(key, node);
    }
}

} // verus!
