//! An in-memory picture of the parts of the filesystem that the engine reads:
//! the managed tree and the home-directory targets of its entries.
use vstd::prelude::*;
use crate::paths::{PathV, pv, path_eq};

verus! {

/// What lies at a path.
pub enum Node {
    File,
    Dir,
    /// A symlink, with the path it resolves to.
    Link(PathV),
}

/// What lies at a path, as a value that running code can hold.
#[derive(Clone, Debug, PartialEq, Eq)]
pub enum EntryKind {
    /// Anything that is neither a directory nor a symlink.
    File,
    Dir,
    /// A symlink, with the path it resolves to.
    Symlink(Vec<String>),
}

impl EntryKind {
    pub open spec fn node(&self) -> Node {
        match self {
            EntryKind::File => Node::File,
            EntryKind::Dir => Node::Dir,
            EntryKind::Symlink(to) => Node::Link(pv(to)),
        }
    }
}

/// One path of the snapshot and what lies there.
#[derive(Clone, Debug, PartialEq, Eq)]
pub struct FsEntry {
    pub path: Vec<String>,
    pub kind: EntryKind,
}

/// A set of paths with what lies at each; a path that it does not hold does
/// not exist.
#[derive(Clone, Debug, PartialEq, Eq)]
pub struct FsSnapshot {
    pub entries: Vec<FsEntry>,
}

impl FsSnapshot {
    /// No path is held twice.
    pub open spec fn wf(&self) -> bool {
        forall|i: int, j: int|
            0 <= i < self.entries.len() && 0 <= j < self.entries.len() && i != j
                ==> pv(&self.entries[i].path) != pv(&self.entries[j].path)
    }

    pub open spec fn holds(&self, p: PathV) -> bool {
        exists|i: int| 0 <= i < self.entries.len() && pv(&self.entries[i].path) == p
    }

    pub open spec fn index_of(&self, p: PathV) -> int {
        choose|i: int| 0 <= i < self.entries.len() && pv(&self.entries[i].path) == p
    }

    /// The entry at index `i` is what the snapshot says of its path.
    pub proof fn lemma_entry(&self, i: int)
        requires
            self.wf(),
            0 <= i < self.entries.len(),
        ensures
            self@.contains_key(pv(&self.entries[i].path)),
            self@[pv(&self.entries[i].path)] == self.entries[i].kind.node(),
    {
        let p = pv(&self.entries[i].path);
        assert(self.holds(p));
        let k = self.index_of(p);
        assert(k == i);
    }

    /// An empty snapshot.
    pub fn new() -> (r: FsSnapshot)
        ensures
            r.wf(),
            r@ == Map::<PathV, Node>::empty(),
    {
        let r = FsSnapshot { entries: Vec::new() };
        assert(r@ =~= Map::<PathV, Node>::empty());
        r
    }

    fn find(&self, p: &Vec<String>) -> (r: Option<usize>)
        ensures
            match r {
                Some(i) => i < self.entries.len() && pv(&self.entries[i as int].path) == pv(p),
                None => !self.holds(pv(p)),
            },
    {
        let mut i: usize = 0;
        while i < self.entries.len()
            invariant
                0 <= i <= self.entries.len(),
                forall|j: int| 0 <= j < i ==> pv(&self.entries[j].path) != pv(p),
            decreases self.entries.len() - i,
        {
            if path_eq(&self.entries[i].path, p) {
                return Some(i);
            }
            i += 1;
        }
        None
    }

    /// What lies at `p`, if anything.
    pub fn lookup(&self, p: &Vec<String>) -> (r: Option<&EntryKind>)
        requires
            self.wf(),
        ensures
            r is Some == self@.contains_key(pv(p)),
            r is Some ==> self@[pv(p)] == r->0.node(),
    {
        match self.find(p) {
            Some(i) => {
                proof {
                    self.lemma_entry(i as int);
                }
                Some(&self.entries[i].kind)
            },
            None => None,
        }
    }

    /// Records that `kind` lies at `p`, in place of what lay there.
    pub fn insert(&mut self, p: Vec<String>, kind: EntryKind)
        requires
            old(self).wf(),
        ensures
            final(self).wf(),
            final(self)@ == old(self)@.insert(pv(&p), kind.node()),
    {
        self.remove(&p);
        let ghost mid = *self;
        let ghost key = pv(&p);
        let ghost node = kind.node();
        self.entries.push(FsEntry { path: p, kind });
        proof {
            let n = mid.entries.len() as int;
            assert(!mid@.contains_key(key));
            assert forall|i: int, j: int|
                0 <= i < self.entries.len() && 0 <= j < self.entries.len() && i != j
                    implies pv(&self.entries[i].path) != pv(&self.entries[j].path) by {
                if i < n && j < n {
                    assert(self.entries[i] == mid.entries[i]);
                    assert(self.entries[j] == mid.entries[j]);
                } else if i < n {
                    assert(self.entries[i] == mid.entries[i]);
                    mid.lemma_entry(i);
                } else {
                    assert(self.entries[j] == mid.entries[j]);
                    mid.lemma_entry(j);
                }
            }
            assert forall|q: PathV| #[trigger] self.holds(q) == (mid.holds(q) || q == key) by {
                if mid.holds(q) {
                    let i = mid.index_of(q);
                    assert(self.entries[i] == mid.entries[i]);
                }
                if q == key {
                    assert(pv(&self.entries[n].path) == key);
                }
                if self.holds(q) {
                    let i = self.index_of(q);
                    if i < n {
                        assert(self.entries[i] == mid.entries[i]);
                    }
                }
            }
            assert forall|q: PathV| #[trigger] self.holds(q) implies self@[q] == (if q == key {
                node
            } else {
                mid@[q]
            }) by {
                let i = self.index_of(q);
                self.lemma_entry(i);
                if i < n {
                    assert(self.entries[i] == mid.entries[i]);
                    mid.lemma_entry(i);
                }
            }
            assert(self@ =~= mid@.insert(key, node));
            assert(mid@ =~= old(self)@.remove(key));
            assert(self@ =~= old(self)@.insert(key, node));
        }
    }

    /// Forgets what lies at `p`.
    pub fn remove(&mut self, p: &Vec<String>)
        requires
            old(self).wf(),
        ensures
            final(self).wf(),
            final(self)@ == old(self)@.remove(pv(p)),
    {
        match self.find(p) {
            None => {
                assert(self@ =~= old(self)@.remove(pv(p)));
            },
            Some(k) => {
                let ghost pre = *self;
                let ghost key = pv(p);
                self.entries.remove(k);
                proof {
                    let old_index = |i: int| if i < k { i } else { i + 1 };
                    assert forall|i: int|
                        0 <= i < self.entries.len() implies #[trigger] self.entries[i]
                        == pre.entries[old_index(i)] by {}
                    assert forall|i: int, j: int|
                        0 <= i < self.entries.len() && 0 <= j < self.entries.len() && i != j
                            implies pv(&self.entries[i].path) != pv(&self.entries[j].path) by {
                        assert(self.entries[i] == pre.entries[old_index(i)]);
                        assert(self.entries[j] == pre.entries[old_index(j)]);
                    }
                    assert forall|q: PathV| #[trigger] self.holds(q) == (pre.holds(q) && q != key) by {
                        if pre.holds(q) && q != key {
                            let i = pre.index_of(q);
                            let ni = if i < k { i } else { i - 1 };
                            assert(self.entries[ni] == pre.entries[old_index(ni)]);
                        }
                        if self.holds(q) {
                            let i = self.index_of(q);
                            assert(self.entries[i] == pre.entries[old_index(i)]);
                        }
                    }
                    assert forall|q: PathV| #[trigger] self.holds(q) implies self@[q] == pre@[q] by {
                        let i = self.index_of(q);
                        self.lemma_entry(i);
                        assert(self.entries[i] == pre.entries[old_index(i)]);
                        pre.lemma_entry(old_index(i));
                    }
                    assert(self@ =~= pre@.remove(key));
                }
            },
        }
    }
}

impl View for FsSnapshot {
    type V = Map<PathV, Node>;

    open spec fn view(&self) -> Map<PathV, Node> {
        Map::new(|p: PathV| self.holds(p), |p: PathV| self.entries[self.index_of(p)].kind.node())
    }
}

} // verus!
