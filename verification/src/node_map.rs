use vstd::prelude::*;

use crate::digest::Digest;

verus! {

/// The map that an association list denotes: entries are folded in order,
/// so a later entry for a key overrides an earlier one.
pub open spec fn entries_view(s: Seq<(Vec<bool>, Digest)>) -> Map<Seq<bool>, Digest>
    decreases s.len(),
{
    if s.len() == 0 {
        Map::empty()
    } else {
        entries_view(s.drop_last()).insert(s.last().0@, s.last().1)
    }
}

/// The sparse mapping from tree paths to non-default node hashes, stored as
/// an association list whose keys stay pairwise distinct.
pub struct NodeMap {
    entries: Vec<(Vec<bool>, Digest)>,
}

/// Compares two bit vectors element by element.
fn bits_eq(a: &Vec<bool>, b: &Vec<bool>) -> (r: bool)
    ensures
        r == (a@ == b@),
{
    if a.len() != b.len() {
        proof {
            assert(a@ != b@);
        }
        return false;
    }
    let n = a.len();
    let mut i: usize = 0;
    while i < n
        invariant
            n == a@.len(),
            n == b@.len(),
            0 <= i <= n,
            forall|j: int| 0 <= j < i ==> a@[j] == b@[j],
        decreases n - i,
    {
        if a[i] != b[i] {
            proof {
                assert(a@ != b@);
            }
            return false;
        }
        i = i + 1;
    }
    proof {
        assert(a@ =~= b@);
    }
    true
}

impl View for NodeMap {
    type V = Map<Seq<bool>, Digest>;

    closed spec fn view(&self) -> Map<Seq<bool>, Digest> {
        entries_view(self.entries@)
    }
}

impl NodeMap {
    /// Keys are pairwise distinct.
    pub closed spec fn wf(&self) -> bool {
        forall|i: int, j: int|
            0 <= i < j < self.entries@.len() ==> self.entries@[i].0@ != self.entries@[j].0@
    }

    pub fn new() -> (r: NodeMap)
        ensures
            r.wf(),
            r@ == Map::<Seq<bool>, Digest>::empty(),
    {
        NodeMap { entries: Vec::new() }
    }

    pub fn get(&self, path: &Vec<bool>) -> (r: Option<Digest>)
        requires
            self.wf(),
        ensures
            self@.contains_key(path@) ==> r == Some(self@[path@]),
            !self@.contains_key(path@) ==> r is None,
    {
        let n = self.entries.len();
        let mut i: usize = 0;
        while i < n
            invariant
                self.wf(),
                n == self.entries@.len(),
                0 <= i <= n,
                forall|j: int| 0 <= j < i ==> self.entries@[j].0@ != path@,
            decreases n - i,
        {
            let pair = &self.entries[i];
            if bits_eq(&pair.0, path) {
                proof {
                    lemma_entries_view_found(self.entries@, i as int);
                }
                return Some(pair.1);
            }
            i = i + 1;
        }
        proof {
            lemma_entries_view_absent(self.entries@, path@);
        }
        None
    }

    pub fn insert(&mut self, path: Vec<bool>, value: Digest)
        requires
            old(self).wf(),
        ensures
            final(self).wf(),
            final(self)@ == old(self)@.insert(path@, value),
    {
        let n = self.entries.len();
        let mut i: usize = 0;
        while i < n
            invariant
                self.wf(),
                *self == *old(self),
                n == self.entries@.len(),
                0 <= i <= n,
                forall|j: int| 0 <= j < i ==> self.entries@[j].0@ != path@,
            decreases n - i,
        {
            let found = {
                let pair = &self.entries[i];
                bits_eq(&pair.0, &path)
            };
            if found {
                proof {
                    lemma_entries_view_update(self.entries@, i as int, path@, value);
                }
                self.entries.set(i, (path, value));
                return ;
            }
            i = i + 1;
        }
        proof {
            let s = self.entries@;
            assert(s.push((path, value)).drop_last() =~= s);
            assert(s.push((path, value)).last() == (path, value));
        }
        self.entries.push((path, value));
    }
}

/// If no later entry shares entry `i`'s key, the view holds entry `i`.
proof fn lemma_entries_view_found(s: Seq<(Vec<bool>, Digest)>, i: int)
    requires
        0 <= i < s.len(),
        forall|j: int| i < j < s.len() ==> s[j].0@ != s[i].0@,
    ensures
        entries_view(s).contains_key(s[i].0@),
        entries_view(s)[s[i].0@] == s[i].1,
    decreases s.len(),
{
    if i == s.len() - 1 {
    } else {
        assert(forall|j: int|
            i < j < s.drop_last().len() ==> s.drop_last()[j].0@ != s.drop_last()[i].0@);
        lemma_entries_view_found(s.drop_last(), i);
    }
}

/// A key that no entry carries is not in the view.
proof fn lemma_entries_view_absent(s: Seq<(Vec<bool>, Digest)>, k: Seq<bool>)
    requires
        forall|j: int| 0 <= j < s.len() ==> s[j].0@ != k,
    ensures
        !entries_view(s).contains_key(k),
    decreases s.len(),
{
    if s.len() > 0 {
        lemma_entries_view_absent(s.drop_last(), k);
    }
}

/// Replacing the one entry that carries a key updates the view at that key.
proof fn lemma_entries_view_update(s: Seq<(Vec<bool>, Digest)>, i: int, k: Seq<bool>, v: Digest)
    requires
        0 <= i < s.len(),
        s[i].0@ == k,
        forall|j: int, l: int| 0 <= j < l < s.len() ==> s[j].0@ != s[l].0@,
    ensures
        forall|p: Vec<bool>|
            p@ == k ==> entries_view(s.update(i, (p, v))) == entries_view(s).insert(k, v),
    decreases s.len(),
{
    assert forall|p: Vec<bool>| p@ == k implies entries_view(s.update(i, (p, v))) == entries_view(
        s,
    ).insert(k, v) by {
        let s2 = s.update(i, (p, v));
        if i == s.len() - 1 {
            assert(s2.drop_last() =~= s.drop_last());
            assert(entries_view(s2) == entries_view(s.drop_last()).insert(k, v));
            assert(entries_view(s.drop_last()).insert(s.last().0@, s.last().1).insert(k, v)
                =~= entries_view(s.drop_last()).insert(k, v));
        } else {
            lemma_entries_view_update(s.drop_last(), i, k, v);
            assert(s2.drop_last() =~= s.drop_last().update(i, (p, v)));
            assert(s2.last() == s.last());
            assert(entries_view(s2) == entries_view(s.drop_last()).insert(k, v).insert(
                s.last().0@,
                s.last().1,
            ));
            assert(s.last().0@ != k);
            assert(entries_view(s.drop_last()).insert(k, v).insert(s.last().0@, s.last().1)
                =~= entries_view(s.drop_last()).insert(s.last().0@, s.last().1).insert(k, v));
        }
    }
}

} // verus!
