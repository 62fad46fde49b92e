use vstd::prelude::*;

use crate::digest::{combine, combine_of, Digest};
use crate::mock_db::{db_nodes, MockDB, Node};
use crate::node_map::NodeMap;

verus! {

/// The ways an operation of the tree can fail.
#[derive(Clone, Copy, PartialEq, Eq, Structural, Debug)]
pub enum MerkleError {
    /// A path longer than the tree's height was supplied.
    PathTooLong,
    /// An empty path has no sibling.
    EmptyPath,
    /// An index-bit sequence whose length differs from the tree's height.
    InvalidIndexLength,
    /// A node that a historical walk expected is missing from the node store.
    NodeNotFound,
    /// A recomputed root does not match the expected root.
    VerificationFailed,
}

/// The hash of an empty subtree whose leaves lie `levels` levels below it.
pub open spec fn zero_at(levels: nat, empty_leaf: Digest) -> Digest
    decreases levels,
{
    if levels == 0 {
        empty_leaf
    } else {
        let h = zero_at((levels - 1) as nat, empty_leaf);
        combine_of(h, h)
    }
}

/// The zero-hash table of a tree: entry `d` is the hash of an empty subtree
/// rooted at depth `d`, so entry 0 is the root of an entirely empty tree and
/// entry `height` is the empty leaf itself.
pub open spec fn zero_table(height: nat, empty_leaf: Digest) -> Seq<Digest> {
    Seq::new(height + 1, |d: int| zero_at((height - d) as nat, empty_leaf))
}

/// The node store after recording the children of every empty subtree of up
/// to `levels` levels.
pub open spec fn zero_records(db: Map<Digest, Node>, levels: nat, empty_leaf: Digest) -> Map<
    Digest,
    Node,
>
    decreases levels,
{
    if levels == 0 {
        db
    } else {
        let h = zero_at((levels - 1) as nat, empty_leaf);
        zero_records(db, (levels - 1) as nat, empty_leaf).insert(
            combine_of(h, h),
            Node { left: Some(h), right: Some(h) },
        )
    }
}

/// The sparse map of a tree that holds no non-default node.
pub open spec fn empty_node_map() -> Map<Seq<bool>, Digest> {
    Map::empty()
}

/// The effective hash of the node at `path`: the stored hash when the sparse
/// map holds one, the empty-subtree hash of the path's depth otherwise.
pub open spec fn node_hash_of(
    nodes: Map<Seq<bool>, Digest>,
    zeros: Seq<Digest>,
    path: Seq<bool>,
) -> Digest
    recommends
        path.len() < zeros.len(),
{
    if nodes.contains_key(path) {
        nodes[path]
    } else {
        zeros[path.len() as int]
    }
}

/// The same path with its last direction bit flipped: the sibling position.
pub open spec fn flip_last(path: Seq<bool>) -> Seq<bool>
    recommends
        path.len() > 0,
{
    path.update(path.len() as int - 1, !path[path.len() as int - 1])
}

/// The bits of `num`, least significant first, padded or truncated to
/// `length` bits.
pub open spec fn le_bits_of(num: nat, length: nat) -> Seq<bool>
    decreases length,
{
    if length == 0 {
        Seq::empty()
    } else {
        seq![num % 2 == 1] + le_bits_of(num / 2, (length - 1) as nat)
    }
}

/// The little-endian index bits of `num`, as a vector of `length` booleans.
pub fn usize_le_bits(num: usize, length: usize) -> (r: Vec<bool>)
    ensures
        r@ == le_bits_of(num as nat, length as nat),
{
    let mut result: Vec<bool> = Vec::new();
    let mut n: usize = num;
    let mut i: usize = 0;
    proof {
        assert(Seq::<bool>::empty() + le_bits_of(num as nat, length as nat) =~= le_bits_of(
            num as nat,
            length as nat,
        ));
    }
    while i < length
        invariant
            0 <= i <= length,
            result@.len() == i,
            le_bits_of(num as nat, length as nat) == result@ + le_bits_of(
                n as nat,
                (length - i) as nat,
            ),
        decreases length - i,
    {
        let ghost rest = le_bits_of(n as nat, (length - i) as nat);
        let b = n % 2 == 1;
        result.push(b);
        proof {
            assert(rest == seq![b] + le_bits_of(n as nat / 2, (length - i - 1) as nat));
            assert(result@ + le_bits_of(n as nat / 2, (length - i - 1) as nat) =~= (result@.drop_last()
                + rest));
        }
        n = n / 2;
        i = i + 1;
    }
    proof {
        assert(result@ + le_bits_of(n as nat, (length - i) as nat) =~= result@);
    }
    result
}

/// A copy of a bit vector.
fn copy_bits(v: &Vec<bool>) -> (r: Vec<bool>)
    ensures
        r@ == v@,
{
    let n = v.len();
    let mut r: Vec<bool> = Vec::new();
    let mut i: usize = 0;
    while i < n
        invariant
            0 <= i <= n,
            n == v@.len(),
            r@.len() == i,
            forall|j: int| 0 <= j < i ==> r@[j] == v@[j],
        decreases n - i,
    {
        r.push(v[i]);
        i = i + 1;
    }
    proof {
        assert(r@ =~= v@);
    }
    r
}

/// The reversal of a vector.
fn reversed<T: Copy>(v: &Vec<T>) -> (r: Vec<T>)
    ensures
        r@ == v@.reverse(),
{
    let n = v.len();
    let mut r: Vec<T> = Vec::new();
    let mut i: usize = 0;
    while i < n
        invariant
            0 <= i <= n,
            n == v@.len(),
            r@.len() == i,
            forall|j: int| 0 <= j < i ==> r@[j] == v@[n - 1 - j],
        decreases n - i,
    {
        r.push(v[n - 1 - i]);
        i = i + 1;
    }
    proof {
        assert(r@ =~= v@.reverse());
    }
    r
}

/// The node store's record for a leaf: a node with no children.
pub open spec fn leaf_record() -> Node {
    Node { left: None, right: None }
}

/// The sparse map and node store after walking from `path` up to the root,
/// recombining with the sibling at each level and recording every parent in
/// both. `nodes` already holds `h` at `path` when the walk starts.
pub open spec fn walk_up(
    nodes: Map<Seq<bool>, Digest>,
    db: Map<Digest, Node>,
    zeros: Seq<Digest>,
    path: Seq<bool>,
    h: Digest,
) -> (Map<Seq<bool>, Digest>, Map<Digest, Node>)
    decreases path.len(),
{
    if path.len() == 0 {
        (nodes, db)
    } else {
        let b = path.last();
        let sib = node_hash_of(nodes, zeros, flip_last(path));
        let parent = if b {
            combine_of(sib, h)
        } else {
            combine_of(h, sib)
        };
        let rec = Node {
            left: if b {
                Some(sib)
            } else {
                Some(h)
            },
            right: if b {
                Some(h)
            } else {
                Some(sib)
            },
        };
        walk_up(
            nodes.insert(path.drop_last(), parent),
            db.insert(parent, rec),
            zeros,
            path.drop_last(),
            parent,
        )
    }
}

/// The sparse map and node store after a leaf update: the leaf hash is
/// stored at `path` and recorded as a leaf in the store, then every ancestor
/// is recombined and recorded.
pub open spec fn updated_state(
    nodes: Map<Seq<bool>, Digest>,
    db: Map<Digest, Node>,
    zeros: Seq<Digest>,
    path: Seq<bool>,
    h: Digest,
) -> (Map<Seq<bool>, Digest>, Map<Digest, Node>) {
    walk_up(nodes.insert(path, h), db.insert(h, leaf_record()), zeros, path, h)
}

/// The ordered sibling hashes along `path`: first the sibling of `path`
/// itself, last the sibling adjacent to the root.
pub open spec fn siblings_of(
    nodes: Map<Seq<bool>, Digest>,
    zeros: Seq<Digest>,
    path: Seq<bool>,
) -> Seq<Digest>
    decreases path.len(),
{
    if path.len() == 0 {
        Seq::empty()
    } else {
        seq![node_hash_of(nodes, zeros, flip_last(path))] + siblings_of(
            nodes,
            zeros,
            path.drop_last(),
        )
    }
}

/// The root recomputed from a leaf hash, little-endian index bits and the
/// paired sibling hashes: at each step the state is combined with the next
/// sibling, on the side the index bit selects.
pub open spec fn fold_root(h: Digest, bits: Seq<bool>, sibs: Seq<Digest>) -> Digest
    decreases bits.len(),
{
    if bits.len() == 0 || sibs.len() == 0 {
        h
    } else {
        let s = if bits[0] {
            combine_of(sibs[0], h)
        } else {
            combine_of(h, sibs[0])
        };
        fold_root(s, bits.skip(1), sibs.skip(1))
    }
}

/// The siblings the node store yields on the walk from `hash` downward,
/// consuming the most significant index bit first, in root-to-leaf order;
/// nothing when a needed node or child is absent.
pub open spec fn root_walk(db: Map<Digest, Node>, hash: Digest, bits: Seq<bool>) -> Option<
    Seq<Digest>,
>
    decreases bits.len(),
{
    if bits.len() == 0 {
        Some(Seq::empty())
    } else if !db.contains_key(hash) {
        None
    } else {
        let node = db[hash];
        let b = bits.last();
        let child_opt = if b {
            node.right
        } else {
            node.left
        };
        let sib_opt = if b {
            node.left
        } else {
            node.right
        };
        match (child_opt, sib_opt) {
            (Some(child), Some(sib)) => match root_walk(db, child, bits.drop_last()) {
                Some(rest) => Some(seq![sib] + rest),
                None => None,
            },
            _ => None,
        }
    }
}

/// A fixed-height binary hash tree that stores only its non-default node
/// hashes, keyed by big-endian root-to-node paths, and derives every other
/// node from the zero-hash table.
pub struct MerkleTree {
    height: usize,
    node_hashes: NodeMap,
    zero_hashes: Vec<Digest>,
}

impl MerkleTree {
    /// The tree's height.
    pub closed spec fn spec_height(&self) -> nat {
        self.height as nat
    }

    /// The sparse map from paths to non-default node hashes.
    pub closed spec fn nodes(&self) -> Map<Seq<bool>, Digest> {
        self.node_hashes@
    }

    /// The zero-hash table, of length `height + 1`.
    pub closed spec fn zeros(&self) -> Seq<Digest> {
        self.zero_hashes@
    }

    /// The tree's internal invariant: the sparse map keeps its keys distinct
    /// and the zero-hash table has one entry per depth.
    pub closed spec fn wf(&self) -> bool {
        &&& self.node_hashes.wf()
        &&& self.zero_hashes@.len() == self.spec_height() + 1
    }

    /// Builds a tree of the given height whose leaves all hold the empty
    /// leaf, recording every empty subtree's children in the node store.
    pub fn new(mock_db: &mut MockDB, height: usize, empty_leaf_hash: Digest) -> (r: MerkleTree)
        ensures
            r.wf(),
            r.spec_height() == height,
            r.nodes() == empty_node_map(),
            r.zeros() == zero_table(height as nat, empty_leaf_hash),
            db_nodes(*final(mock_db)) == zero_records(
                db_nodes(*old(mock_db)),
                height as nat,
                empty_leaf_hash,
            ),
    {
        let ghost db0 = db_nodes(*mock_db);
        let mut asc: Vec<Digest> = Vec::new();
        let mut h = empty_leaf_hash;
        asc.push(h);
        let mut k: usize = 0;
        while k < height
            invariant
                0 <= k <= height,
                asc@.len() == k + 1,
                forall|j: int| 0 <= j <= k ==> asc@[j] == zero_at(j as nat, empty_leaf_hash),
                h == zero_at(k as nat, empty_leaf_hash),
                db_nodes(*mock_db) == zero_records(db0, k as nat, empty_leaf_hash),
            decreases height - k,
        {
            let nh = combine(&h, &h);
            asc.push(nh);
            mock_db.insert(nh, Node { left: Some(h), right: Some(h) });
            h = nh;
            k = k + 1;
        }
        let zero_hashes = reversed(&asc);
        let node_hashes = NodeMap::new();
        proof {
            assert(zero_hashes@ =~= zero_table(height as nat, empty_leaf_hash));
        }
        MerkleTree { height, node_hashes, zero_hashes }
    }

    /// The tree's height.
    pub fn height(&self) -> (r: usize)
        ensures
            r == self.spec_height(),
    {
        self.height
    }

    /// The effective hash of the node at `path`, or `PathTooLong` when the
    /// path descends below the leaves.
    pub fn get_node_hash(&self, path: &Vec<bool>) -> (r: Result<Digest, MerkleError>)
        requires
            self.wf(),
        ensures
            path@.len() <= self.spec_height() ==> r == Ok::<Digest, MerkleError>(
                node_hash_of(self.nodes(), self.zeros(), path@),
            ),
            path@.len() > self.spec_height() ==> r == Err::<Digest, MerkleError>(
                MerkleError::PathTooLong,
            ),
    {
        if path.len() > self.height {
            return Err(MerkleError::PathTooLong);
        }
        match self.node_hashes.get(path) {
            Some(h) => Ok(h),
            None => Ok(self.zero_hashes[path.len()]),
        }
    }

    /// The root of the tree: the effective hash at the empty path.
    pub fn get_root(&self) -> (r: Digest)
        requires
            self.wf(),
        ensures
            r == node_hash_of(self.nodes(), self.zeros(), Seq::empty()),
    {
        let empty: Vec<bool> = Vec::new();
        match self.get_node_hash(&empty) {
            Ok(h) => h,
            Err(_) => {
                proof {
                    assert(false);
                }
                Digest::zero()
            },
        }
    }

    /// The effective hash of the sibling of the node at `path`: the node
    /// whose path differs in the last bit alone.
    pub fn get_sibling_hash(&self, path: &Vec<bool>) -> (r: Result<Digest, MerkleError>)
        requires
            self.wf(),
        ensures
            path@.len() == 0 ==> r == Err::<Digest, MerkleError>(MerkleError::EmptyPath),
            path@.len() > self.spec_height() ==> r == Err::<Digest, MerkleError>(
                MerkleError::PathTooLong,
            ),
            0 < path@.len() <= self.spec_height() ==> r == Ok::<Digest, MerkleError>(
                node_hash_of(self.nodes(), self.zeros(), flip_last(path@)),
            ),
    {
        if path.len() == 0 {
            return Err(MerkleError::EmptyPath);
        }
        let mut p = copy_bits(path);
        let last = p.len() - 1;
        let b = p[last];
        p.set(last, !b);
        proof {
            assert(p@ =~= flip_last(path@));
        }
        self.get_node_hash(&p)
    }

    /// Stores `leaf_hash` at the leaf the little-endian `index_bits` select,
    /// then recombines and stores every ancestor up to the root, recording
    /// each new node's children in the node store.
    pub fn update_leaf(
        &mut self,
        mock_db: &mut MockDB,
        index_bits: Vec<bool>,
        leaf_hash: Digest,
    ) -> (r: Result<(), MerkleError>)
        requires
            old(self).wf(),
        ensures
            final(self).wf(),
            final(self).spec_height() == old(self).spec_height(),
            final(self).zeros() == old(self).zeros(),
            index_bits@.len() != old(self).spec_height() ==> r == Err::<(), MerkleError>(
                MerkleError::InvalidIndexLength,
            ) && *final(self) == *old(self) && db_nodes(*final(mock_db)) == db_nodes(*old(mock_db)),
            index_bits@.len() == old(self).spec_height() ==> r == Ok::<(), MerkleError>(()) && ({
                let st = updated_state(
                    old(self).nodes(),
                    db_nodes(*old(mock_db)),
                    old(self).zeros(),
                    index_bits@.reverse(),
                    leaf_hash,
                );
                final(self).nodes() == st.0 && db_nodes(*final(mock_db)) == st.1
            }),
    {
        if index_bits.len() != self.height {
            return Err(MerkleError::InvalidIndexLength);
        }
        let ghost height0 = self.spec_height();
        let ghost zeros0 = self.zeros();
        let ghost target = updated_state(
            self.nodes(),
            db_nodes(*mock_db),
            self.zeros(),
            index_bits@.reverse(),
            leaf_hash,
        );
        let mut path = reversed(&index_bits);
        let mut h = leaf_hash;
        let p0 = copy_bits(&path);
        self.node_hashes.insert(p0, h);
        mock_db.insert(h, Node { left: None, right: None });
        while path.len() > 0
            invariant
                self.wf(),
                self.spec_height() == height0,
                self.zeros() == zeros0,
                path@.len() <= height0,
                walk_up(self.nodes(), db_nodes(*mock_db), zeros0, path@, h) == target,
            decreases path@.len(),
        {
            let ghost old_path = path@;
            let ghost nodes_before = self.nodes();
            let ghost db_before = db_nodes(*mock_db);
            let sib = match self.get_sibling_hash(&path) {
                Ok(s) => s,
                Err(_) => {
                    proof {
                        assert(false);
                    }
                    Digest::zero()
                },
            };
            let b = match path.pop() {
                Some(x) => x,
                None => {
                    proof {
                        assert(false);
                    }
                    false
                },
            };
            let nh = if b {
                combine(&sib, &h)
            } else {
                combine(&h, &sib)
            };
            let pp = copy_bits(&path);
            self.node_hashes.insert(pp, nh);
            let node = Node {
                left: if b {
                    Some(sib)
                } else {
                    Some(h)
                },
                right: if b {
                    Some(h)
                } else {
                    Some(sib)
                },
            };
            mock_db.insert(nh, node);
            proof {
                assert(path@ == old_path.drop_last());
                assert(b == old_path.last());
                assert(walk_up(nodes_before, db_before, zeros0, old_path, h) == walk_up(
                    self.nodes(),
                    db_nodes(*mock_db),
                    zeros0,
                    path@,
                    nh,
                ));
            }
            h = nh;
        }
        proof {
            assert(walk_up(self.nodes(), db_nodes(*mock_db), zeros0, path@, h) == (
                self.nodes(),
                db_nodes(*mock_db),
            ));
        }
        Ok(())
    }

    /// A membership proof for the leaf the little-endian `index_bits`
    /// select, read from the live tree: the sibling hashes from the leaf's
    /// immediate sibling up to the sibling adjacent to the root.
    pub fn prove(&self, index_bits: Vec<bool>) -> (r: Result<MerkleProof, MerkleError>)
        requires
            self.wf(),
        ensures
            index_bits@.len() != self.spec_height() ==> r == Err::<MerkleProof, MerkleError>(
                MerkleError::InvalidIndexLength,
            ),
            index_bits@.len() == self.spec_height() ==> (r matches Ok(p) && p.siblings@
                == siblings_of(self.nodes(), self.zeros(), index_bits@.reverse())),
    {
        if index_bits.len() != self.height {
            return Err(MerkleError::InvalidIndexLength);
        }
        let ghost full = index_bits@.reverse();
        let mut path = reversed(&index_bits);
        let mut siblings: Vec<Digest> = Vec::new();
        proof {
            assert(Seq::<Digest>::empty() + siblings_of(self.nodes(), self.zeros(), full)
                =~= siblings_of(self.nodes(), self.zeros(), full));
        }
        while path.len() > 0
            invariant
                self.wf(),
                path@.len() <= self.spec_height(),
                siblings_of(self.nodes(), self.zeros(), full) == siblings@ + siblings_of(
                    self.nodes(),
                    self.zeros(),
                    path@,
                ),
            decreases path@.len(),
        {
            let ghost old_path = path@;
            let ghost old_sibs = siblings@;
            let sib = match self.get_sibling_hash(&path) {
                Ok(s) => s,
                Err(_) => {
                    proof {
                        assert(false);
                    }
                    Digest::zero()
                },
            };
            siblings.push(sib);
            path.pop();
            proof {
                assert(siblings_of(self.nodes(), self.zeros(), old_path) == seq![sib]
                    + siblings_of(self.nodes(), self.zeros(), path@));
                assert(old_sibs + (seq![sib] + siblings_of(self.nodes(), self.zeros(), path@))
                    =~= siblings@ + siblings_of(self.nodes(), self.zeros(), path@));
            }
        }
        proof {
            assert(siblings@ + siblings_of(self.nodes(), self.zeros(), path@) =~= siblings@);
        }
        Ok(MerkleProof { siblings })
    }

    /// A membership proof against a previously observed `root`, rebuilt
    /// entirely from the node store: the store is walked from `root` down to
    /// the leaf, collecting the sibling recorded at each level.
    pub fn prove_with_given_root(
        &self,
        mock_db: &MockDB,
        root: Digest,
        index_bits: Vec<bool>,
    ) -> (r: Result<MerkleProof, MerkleError>)
        ensures
            index_bits@.len() != self.spec_height() ==> r == Err::<MerkleProof, MerkleError>(
                MerkleError::InvalidIndexLength,
            ),
            index_bits@.len() == self.spec_height() ==> (match root_walk(
                db_nodes(*mock_db),
                root,
                index_bits@,
            ) {
                Some(sibs) => r matches Ok(p) && p.siblings@ == sibs.reverse(),
                None => r == Err::<MerkleProof, MerkleError>(MerkleError::NodeNotFound),
            }),
    {
        if index_bits.len() != self.height {
            return Err(MerkleError::InvalidIndexLength);
        }
        let ghost full = index_bits@;
        let ghost db = db_nodes(*mock_db);
        let mut path = copy_bits(&index_bits);
        let mut siblings: Vec<Digest> = Vec::new();
        let mut hash = root;
        while path.len() > 0
            invariant
                full == index_bits@,
                full.len() == self.spec_height(),
                db == db_nodes(*mock_db),
                (match root_walk(db, hash, path@) {
                    Some(rest) => root_walk(db, root, full) == Some(siblings@ + rest),
                    None => root_walk(db, root, full) is None,
                }),
            decreases path@.len(),
        {
            let ghost old_path = path@;
            let ghost old_sibs = siblings@;
            let node = match mock_db.get(hash) {
                Some(n) => n,
                None => {
                    return Err(MerkleError::NodeNotFound);
                },
            };
            let b = match path.pop() {
                Some(x) => x,
                None => {
                    proof {
                        assert(false);
                    }
                    false
                },
            };
            let child_opt = if b {
                node.right
            } else {
                node.left
            };
            let sib_opt = if b {
                node.left
            } else {
                node.right
            };
            let child = match child_opt {
                Some(c) => c,
                None => {
                    return Err(MerkleError::NodeNotFound);
                },
            };
            let sib = match sib_opt {
                Some(s) => s,
                None => {
                    return Err(MerkleError::NodeNotFound);
                },
            };
            siblings.push(sib);
            proof {
                assert(root_walk(db, hash, old_path) == (match root_walk(
                    db,
                    child,
                    old_path.drop_last(),
                ) {
                    Some(rest) => Some(seq![sib] + rest),
                    None => None::<Seq<Digest>>,
                }));
                if root_walk(db, child, old_path.drop_last()) is Some {
                    let rest = root_walk(db, child, old_path.drop_last()).unwrap();
                    assert(old_sibs + (seq![sib] + rest) =~= siblings@ + rest);
                }
            }
            hash = child;
        }
        let out = reversed(&siblings);
        Ok(MerkleProof { siblings: out })
    }
}

/// An ordered list of sibling digests, from the leaf's immediate sibling up
/// to the sibling adjacent to the root, sufficient to recompute a root from
/// one leaf's hash and position.
#[derive(Clone, Debug)]
pub struct MerkleProof {
    pub siblings: Vec<Digest>,
}

impl MerkleProof {
    /// A placeholder proof of the given length, filled with zero digests.
    pub fn dummy(height: usize) -> (r: MerkleProof)
        ensures
            r.siblings@.len() == height,
            forall|i: int| 0 <= i < height ==> r.siblings@[i] == Digest::spec_zero(),
    {
        let mut siblings: Vec<Digest> = Vec::new();
        let mut i: usize = 0;
        while i < height
            invariant
                0 <= i <= height,
                siblings@.len() == i,
                forall|j: int| 0 <= j < i ==> siblings@[j] == Digest::spec_zero(),
            decreases height - i,
        {
            siblings.push(Digest::zero());
            i = i + 1;
        }
        MerkleProof { siblings }
    }

    /// The number of levels the proof spans.
    pub fn height(&self) -> (r: usize)
        ensures
            r == self.siblings@.len(),
    {
        self.siblings.len()
    }

    /// The root recomputed from a leaf hash and its little-endian index
    /// bits, combining with each sibling in leaf-to-root order.
    pub fn get_root(&self, leaf_hash: Digest, index_bits: &Vec<bool>) -> (r: Digest)
        ensures
            r == fold_root(leaf_hash, index_bits@, self.siblings@),
    {
        let mut state = leaf_hash;
        let n = if index_bits.len() < self.siblings.len() {
            index_bits.len()
        } else {
            self.siblings.len()
        };
        let mut i: usize = 0;
        proof {
            assert(index_bits@.skip(0) =~= index_bits@);
            assert(self.siblings@.skip(0) =~= self.siblings@);
        }
        while i < n
            invariant
                0 <= i <= n,
                n <= index_bits@.len(),
                n <= self.siblings@.len(),
                n == index_bits@.len() || n == self.siblings@.len(),
                fold_root(leaf_hash, index_bits@, self.siblings@) == fold_root(
                    state,
                    index_bits@.skip(i as int),
                    self.siblings@.skip(i as int),
                ),
            decreases n - i,
        {
            let ghost bits_left = index_bits@.skip(i as int);
            let ghost sibs_left = self.siblings@.skip(i as int);
            let s = self.siblings[i];
            let prev = state;
            state = if index_bits[i] {
                combine(&s, &prev)
            } else {
                combine(&prev, &s)
            };
            proof {
                assert(bits_left[0] == index_bits@[i as int]);
                assert(sibs_left[0] == self.siblings@[i as int]);
                assert(bits_left.skip(1) =~= index_bits@.skip(i + 1));
                assert(sibs_left.skip(1) =~= self.siblings@.skip(i + 1));
            }
            i = i + 1;
        }
        proof {
            assert(index_bits@.skip(i as int).len() == 0 || self.siblings@.skip(i as int).len()
                == 0);
        }
        state
    }

    /// Succeeds exactly when the root recomputed from the leaf hash and
    /// index bits equals the expected root.
    pub fn verify(&self, leaf_hash: Digest, index_bits: &Vec<bool>, merkle_root: Digest) -> (r:
        Result<(), MerkleError>)
        ensures
            fold_root(leaf_hash, index_bits@, self.siblings@) == merkle_root ==> r == Ok::<
                (),
                MerkleError,
            >(()),
            fold_root(leaf_hash, index_bits@, self.siblings@) != merkle_root ==> r == Err::<
                (),
                MerkleError,
            >(MerkleError::VerificationFailed),
    {
        let computed = self.get_root(leaf_hash, index_bits);
        if computed == merkle_root {
            Ok(())
        } else {
            Err(MerkleError::VerificationFailed)
        }
    }
}

/// The zero-hash table has one entry per depth, ends with the empty leaf,
/// and each entry is the combination of the entry below it with itself.
pub proof fn lemma_zero_table_invariant(height: nat, empty_leaf: Digest)
    ensures
        zero_table(height, empty_leaf).len() == height + 1,
        zero_table(height, empty_leaf)[height as int] == empty_leaf,
        forall|d: int|
            0 <= d < height ==> #[trigger] zero_table(height, empty_leaf)[d] == combine_of(
                zero_table(height, empty_leaf)[d + 1],
                zero_table(height, empty_leaf)[d + 1],
            ),
{
    assert forall|d: int|
        0 <= d < height implies #[trigger] zero_table(height, empty_leaf)[d] == combine_of(
        zero_table(height, empty_leaf)[d + 1],
        zero_table(height, empty_leaf)[d + 1],
    ) by {
        assert(zero_table(height, empty_leaf)[d] == zero_at((height - d) as nat, empty_leaf));
        assert(zero_at((height - d) as nat, empty_leaf) == combine_of(
            zero_at((height - d - 1) as nat, empty_leaf),
            zero_at((height - d - 1) as nat, empty_leaf),
        ));
    }
}

/// A freshly constructed tree's root is entry 0 of the zero-hash table: the
/// hash of the entirely empty tree.
pub proof fn lemma_fresh_root(t: MerkleTree, height: nat, empty_leaf: Digest)
    requires
        t.wf(),
        t.spec_height() == height,
        t.nodes() == empty_node_map(),
        t.zeros() == zero_table(height, empty_leaf),
    ensures
        node_hash_of(t.nodes(), t.zeros(), Seq::empty()) == t.zeros()[0],
{
    assert(!t.nodes().contains_key(Seq::empty()));
}

/// Flipping the last bit of a path twice is the identity, so the sibling of
/// a path's sibling is the node at the path itself.
pub proof fn lemma_sibling_flip(nodes: Map<Seq<bool>, Digest>, zeros: Seq<Digest>, path: Seq<bool>)
    requires
        path.len() > 0,
    ensures
        flip_last(flip_last(path)) == path,
        node_hash_of(nodes, zeros, flip_last(flip_last(path))) == node_hash_of(nodes, zeros, path),
{
    assert(flip_last(flip_last(path)) =~= path);
}

/// Determinism: replaying one update with equal index bits and digests on
/// trees with equal sparse maps and equal node stores yields equal sparse
/// maps, equal node stores, and so equal roots.
pub proof fn lemma_update_deterministic(
    nodes1: Map<Seq<bool>, Digest>,
    db1: Map<Digest, Node>,
    nodes2: Map<Seq<bool>, Digest>,
    db2: Map<Digest, Node>,
    zeros: Seq<Digest>,
    path: Seq<bool>,
    h: Digest,
)
    requires
        nodes1 == nodes2,
        db1 == db2,
    ensures
        updated_state(nodes1, db1, zeros, path, h) == updated_state(nodes2, db2, zeros, path, h),
{
}

/// Whether `q` is a strict prefix of `p`: a position strictly above `p` on
/// the way to the root.
pub open spec fn strict_prefix(q: Seq<bool>, p: Seq<bool>) -> bool {
    q.len() < p.len() && q == p.take(q.len() as int)
}

/// The walk up from `path` writes only at strict prefixes of `path`: every
/// other position of the sparse map keeps its presence and its value.
proof fn lemma_walk_up_frame(
    nodes: Map<Seq<bool>, Digest>,
    db: Map<Digest, Node>,
    zeros: Seq<Digest>,
    path: Seq<bool>,
    h: Digest,
)
    ensures
        forall|q: Seq<bool>|
            !(#[trigger] strict_prefix(q, path)) ==> walk_up(
                nodes,
                db,
                zeros,
                path,
                h,
            ).0.contains_key(q) == nodes.contains_key(q) && (nodes.contains_key(q) ==> walk_up(
                nodes,
                db,
                zeros,
                path,
                h,
            ).0[q] == nodes[q]),
    decreases path.len(),
{
    if path.len() == 0 {
    } else {
        let b = path.last();
        let sib = node_hash_of(nodes, zeros, flip_last(path));
        let parent = if b {
            combine_of(sib, h)
        } else {
            combine_of(h, sib)
        };
        let rec = Node {
            left: if b {
                Some(sib)
            } else {
                Some(h)
            },
            right: if b {
                Some(h)
            } else {
                Some(sib)
            },
        };
        let p1 = path.drop_last();
        let n1 = nodes.insert(p1, parent);
        let d1 = db.insert(parent, rec);
        assert(walk_up(nodes, db, zeros, path, h) == walk_up(n1, d1, zeros, p1, parent));
        lemma_walk_up_frame(n1, d1, zeros, p1, parent);
        assert(p1 =~= path.take(path.len() as int - 1));
        assert forall|q: Seq<bool>| !strict_prefix(q, path) implies walk_up(
            nodes,
            db,
            zeros,
            path,
            h,
        ).0.contains_key(q) == nodes.contains_key(q) && (nodes.contains_key(q) ==> walk_up(
            nodes,
            db,
            zeros,
            path,
            h,
        ).0[q] == nodes[q]) by {
            assert(strict_prefix(p1, path));
            if strict_prefix(q, p1) {
                assert(p1.take(q.len() as int) =~= path.take(q.len() as int));
                assert(strict_prefix(q, path));
            }
            assert(!strict_prefix(q, p1));
            assert(q != p1);
            assert(n1.contains_key(q) == nodes.contains_key(q));
            assert(walk_up(n1, d1, zeros, p1, parent).0.contains_key(q) == n1.contains_key(q));
        }
    }
}

/// Walking up a second time from the same leaf position with the same hash
/// rewrites every node it wrote with the very value it already holds.
proof fn lemma_walk_up_twice(
    nodes: Map<Seq<bool>, Digest>,
    db: Map<Digest, Node>,
    db2: Map<Digest, Node>,
    zeros: Seq<Digest>,
    path: Seq<bool>,
    h: Digest,
)
    ensures
        walk_up(walk_up(nodes, db, zeros, path, h).0, db2, zeros, path, h).0 == walk_up(
            nodes,
            db,
            zeros,
            path,
            h,
        ).0,
    decreases path.len(),
{
    if path.len() == 0 {
    } else {
        let b = path.last();
        let sib = node_hash_of(nodes, zeros, flip_last(path));
        let parent = if b {
            combine_of(sib, h)
        } else {
            combine_of(h, sib)
        };
        let rec = Node {
            left: if b {
                Some(sib)
            } else {
                Some(h)
            },
            right: if b {
                Some(h)
            } else {
                Some(sib)
            },
        };
        let p1 = path.drop_last();
        let n1 = nodes.insert(p1, parent);
        let d1 = db.insert(parent, rec);
        assert(walk_up(nodes, db, zeros, path, h) == walk_up(n1, d1, zeros, p1, parent));
        let nf = walk_up(n1, d1, zeros, p1, parent).0;
        lemma_walk_up_frame(n1, d1, zeros, p1, parent);
        assert(!strict_prefix(flip_last(path), p1));
        assert(nf.contains_key(flip_last(path)) == n1.contains_key(flip_last(path)));
        assert(flip_last(path) != p1);
        assert(node_hash_of(nf, zeros, flip_last(path)) == sib);
        assert(!strict_prefix(p1, p1));
        assert(nf.contains_key(p1) && nf[p1] == parent);
        assert(nf.insert(p1, parent) =~= nf);
        lemma_walk_up_twice(n1, d1, db2.insert(parent, rec), zeros, p1, parent);
        assert(walk_up(nf, db2, zeros, path, h) == walk_up(
            nf.insert(p1, parent),
            db2.insert(parent, rec),
            zeros,
            p1,
            parent,
        ));
    }
}

/// The walk up never removes a node store entry: every digest the store maps
/// before stays mapped after.
proof fn lemma_walk_up_grows_store(
    nodes: Map<Seq<bool>, Digest>,
    db: Map<Digest, Node>,
    zeros: Seq<Digest>,
    path: Seq<bool>,
    h: Digest,
)
    ensures
        forall|k: Digest|
            db.contains_key(k) ==> #[trigger] walk_up(nodes, db, zeros, path, h).1.contains_key(k),
    decreases path.len(),
{
    if path.len() == 0 {
    } else {
        let b = path.last();
        let sib = node_hash_of(nodes, zeros, flip_last(path));
        let parent = if b {
            combine_of(sib, h)
        } else {
            combine_of(h, sib)
        };
        let rec = Node {
            left: if b {
                Some(sib)
            } else {
                Some(h)
            },
            right: if b {
                Some(h)
            } else {
                Some(sib)
            },
        };
        let p1 = path.drop_last();
        let n1 = nodes.insert(p1, parent);
        let d1 = db.insert(parent, rec);
        assert(walk_up(nodes, db, zeros, path, h) == walk_up(n1, d1, zeros, p1, parent));
        lemma_walk_up_grows_store(n1, d1, zeros, p1, parent);
    }
}

/// The node store is append-only across an update: every digest it maps
/// before a leaf update it still maps afterwards.
pub proof fn lemma_update_grows_store(
    nodes: Map<Seq<bool>, Digest>,
    db: Map<Digest, Node>,
    zeros: Seq<Digest>,
    path: Seq<bool>,
    h: Digest,
)
    ensures
        forall|k: Digest|
            db.contains_key(k) ==> #[trigger] updated_state(
                nodes,
                db,
                zeros,
                path,
                h,
            ).1.contains_key(k),
{
    lemma_walk_up_grows_store(nodes.insert(path, h), db.insert(h, leaf_record()), zeros, path, h);
}

/// Idempotence: updating a leaf twice with the same index bits and the same
/// digest leaves the sparse map, and with it the root, unchanged.
pub proof fn lemma_update_idempotent(
    nodes: Map<Seq<bool>, Digest>,
    db: Map<Digest, Node>,
    zeros: Seq<Digest>,
    index_bits: Seq<bool>,
    h: Digest,
)
    ensures
        ({
            let p = index_bits.reverse();
            let st = updated_state(nodes, db, zeros, p, h);
            let st2 = updated_state(st.0, st.1, zeros, p, h);
            st2.0 == st.0 && node_hash_of(st2.0, zeros, Seq::empty()) == node_hash_of(
                st.0,
                zeros,
                Seq::empty(),
            )
        }),
{
    let p = index_bits.reverse();
    let n1 = nodes.insert(p, h);
    let d1 = db.insert(h, leaf_record());
    let st = updated_state(nodes, db, zeros, p, h);
    lemma_walk_up_frame(n1, d1, zeros, p, h);
    assert(!strict_prefix(p, p));
    assert(st.0.contains_key(p) && st.0[p] == h);
    assert(st.0.insert(p, h) =~= st.0);
    lemma_walk_up_twice(n1, d1, st.1.insert(h, leaf_record()), zeros, p, h);
}

/// After the walk up from `path`, the sibling list read back from the
/// resulting sparse map recomputes the resulting root from the hash stored
/// at `path`.
proof fn lemma_walk_up_verifies(
    nodes: Map<Seq<bool>, Digest>,
    db: Map<Digest, Node>,
    zeros: Seq<Digest>,
    path: Seq<bool>,
    h: Digest,
)
    requires
        nodes.contains_key(path),
        nodes[path] == h,
    ensures
        ({
            let nf = walk_up(nodes, db, zeros, path, h).0;
            fold_root(h, path.reverse(), siblings_of(nf, zeros, path)) == node_hash_of(
                nf,
                zeros,
                Seq::empty(),
            )
        }),
    decreases path.len(),
{
    let nf = walk_up(nodes, db, zeros, path, h).0;
    if path.len() == 0 {
        assert(path =~= Seq::<bool>::empty());
        assert(nf == nodes);
        assert(fold_root(h, path.reverse(), siblings_of(nf, zeros, path)) == h);
    } else {
        let b = path.last();
        let sib = node_hash_of(nodes, zeros, flip_last(path));
        let parent = if b {
            combine_of(sib, h)
        } else {
            combine_of(h, sib)
        };
        let rec = Node {
            left: if b {
                Some(sib)
            } else {
                Some(h)
            },
            right: if b {
                Some(h)
            } else {
                Some(sib)
            },
        };
        let p1 = path.drop_last();
        let n1 = nodes.insert(p1, parent);
        let d1 = db.insert(parent, rec);
        assert(walk_up(nodes, db, zeros, path, h) == walk_up(n1, d1, zeros, p1, parent));
        lemma_walk_up_frame(n1, d1, zeros, p1, parent);
        assert(!strict_prefix(flip_last(path), p1));
        assert(flip_last(path) != p1);
        assert(nf.contains_key(flip_last(path)) == n1.contains_key(flip_last(path)));
        assert(node_hash_of(nf, zeros, flip_last(path)) == sib);
        lemma_walk_up_verifies(n1, d1, zeros, p1, parent);
        assert(path.reverse()[0] == b);
        assert(path.reverse().skip(1) =~= p1.reverse());
        assert(siblings_of(nf, zeros, path) == seq![node_hash_of(nf, zeros, flip_last(path))]
            + siblings_of(nf, zeros, p1));
        assert((seq![sib] + siblings_of(nf, zeros, p1))[0] == sib);
        assert((seq![sib] + siblings_of(nf, zeros, p1)).skip(1) =~= siblings_of(nf, zeros, p1));
        assert(fold_root(h, path.reverse(), siblings_of(nf, zeros, path)) == fold_root(
            parent,
            p1.reverse(),
            siblings_of(nf, zeros, p1),
        ));
    }
}

/// After a leaf update, the sibling list read from the updated sparse map
/// recomputes the updated root from the new leaf hash and its little-endian
/// index bits: a proof taken right after an update verifies.
pub proof fn lemma_update_then_prove_verifies(
    nodes: Map<Seq<bool>, Digest>,
    db: Map<Digest, Node>,
    zeros: Seq<Digest>,
    index_bits: Seq<bool>,
    h: Digest,
)
    ensures
        ({
            let st = updated_state(nodes, db, zeros, index_bits.reverse(), h);
            fold_root(h, index_bits, siblings_of(st.0, zeros, index_bits.reverse()))
                == node_hash_of(st.0, zeros, Seq::empty())
        }),
{
    let p = index_bits.reverse();
    let n1 = nodes.insert(p, h);
    lemma_walk_up_verifies(n1, db.insert(h, leaf_record()), zeros, p, h);
    assert(p.reverse() =~= index_bits);
}

} // verus!
