//! Warm scans: which directories of an earlier snapshot need not be read again.

use crate::arena::{BACKSLASH, SEP};
use crate::identity::{key_of, lemma_key_roundtrip, FsIdentity};
use crate::lookup::{ByteMap, ByteTable};
use std::collections::HashMap;
use vstd::prelude::*;

verus! {

/// What an earlier snapshot knew of a directory.
#[derive(Debug, Clone, Copy)]
pub struct CachedDir {
    pub total_bytes: u64,
    pub file_count: u32,
    pub mtime: i64,
}

/// The totals to take over for a directory that is not read again.
#[derive(Debug, Clone, Copy)]
pub struct SkipResult {
    pub total_bytes: u64,
    pub file_count: u32,
}

/// A path without its separator at the end, if it has one.
pub open spec fn without_last_sep(path: Seq<u8>, sep: u8) -> Seq<u8> {
    if path.len() > 0 && path.last() == sep {
        path.drop_last()
    } else {
        path
    }
}

/// The last separator of `path` stands at `pos`.
pub open spec fn is_last_sep(path: Seq<u8>, pos: int, sep: u8) -> bool {
    &&& 0 <= pos < path.len()
    &&& path[pos] == sep
    &&& forall|j: int| pos < j < path.len() ==> #[trigger] path[j] != sep
}

/// The parent of a path: what stands before its last separator, that separator for an
/// entry of the root, and nothing for a path without a separator.
pub open spec fn parent_of(path: Seq<u8>, sep: u8) -> Seq<u8> {
    let trimmed = without_last_sep(path, sep);
    if exists|pos: int| is_last_sep(trimmed, pos, sep) {
        let pos = choose|pos: int| is_last_sep(trimmed, pos, sep);
        if pos == 0 {
            seq![sep]
        } else {
            trimmed.take(pos)
        }
    } else {
        Seq::empty()
    }
}

/// The parent of a path, as bytes.
pub fn parent_path_bytes(path: &[u8], sep: u8) -> (parent: Vec<u8>)
    ensures
        parent@ == parent_of(path@, sep),
{
    let n = if path.len() > 0 && path[path.len() - 1] == sep {
        path.len() - 1
    } else {
        path.len()
    };
    let ghost trimmed = without_last_sep(path@, sep);
    assert(trimmed =~= path@.take(n as int));
    let mut i: usize = n;
    while i > 0
        invariant
            i <= n <= path@.len(),
            trimmed == path@.take(n as int),
            trimmed == without_last_sep(path@, sep),
            forall|j: int| i <= j < n ==> #[trigger] trimmed[j] != sep,
        decreases i,
    {
        i = i - 1;
        if path[i] == sep {
            assert(is_last_sep(trimmed, i as int, sep));
            proof {
                let pos = choose|pos: int| is_last_sep(trimmed, pos, sep);
                assert(is_last_sep(trimmed, pos, sep));
                assert(trimmed[pos] == sep && trimmed[i as int] == sep);
                assert(pos == i);
            }
            if i == 0 {
                let mut root: Vec<u8> = Vec::new();
                root.push(sep);
                assert(root@ =~= seq![sep]);
                return root;
            }
            let parent = vstd::slice::slice_to_vec(vstd::slice::slice_subrange(path, 0, i));
            assert(parent@ =~= trimmed.take(i as int));
            return parent;
        }
        assert(trimmed[i as int] != sep);
    }
    Vec::new()
}

/// The path is that of an entry of a drive, such as `C:\\x`.
pub open spec fn is_in_drive(path: Seq<u8>, sep: u8) -> bool {
    let trimmed = without_last_sep(path, sep);
    sep == BACKSLASH && trimmed.len() > 2 && trimmed[1] == 58 && is_last_sep(trimmed, 2, sep)
}

/// The directory that a path lies in. That of a drive ends in its separator.
pub open spec fn dir_of(path: Seq<u8>, sep: u8) -> Seq<u8> {
    if is_in_drive(path, sep) {
        path.take(3)
    } else {
        parent_of(path, sep)
    }
}

/// The directory that a path lies in.
pub fn dir_of_path(path: &[u8], sep: u8) -> (dir: Vec<u8>)
    ensures
        dir@ == dir_of(path@, sep),
{
    let mut parent = parent_path_bytes(path, sep);
    let ghost trimmed = without_last_sep(path@, sep);
    proof {
        if is_last_sep(trimmed, 2, sep) {
            let pos = choose|pos: int| is_last_sep(trimmed, pos, sep);
            assert(is_last_sep(trimmed, pos, sep));
            assert(trimmed[pos] == sep && trimmed[2] == sep);
            assert(pos == 2);
        }
        if exists|pos: int| is_last_sep(trimmed, pos, sep) {
            let pos = choose|pos: int| is_last_sep(trimmed, pos, sep);
            assert(is_last_sep(trimmed, pos, sep));
        }
    }
    if sep == BACKSLASH && parent.len() == 2 && parent[1] == 58 {
        parent.push(sep);
        assert(parent@ =~= path@.take(3));
    }
    parent
}

/// An earlier snapshot, indexed by identity and by path.
pub struct SnapshotIndex {
    by_identity: HashMap<u128, CachedDir>,
    by_path: ByteMap<CachedDir>,
    non_leaves: ByteTable,
    sep: u8,
}

impl SnapshotIndex {
    /// The directories whose identity is known.
    pub closed spec fn identities(&self) -> Map<FsIdentity, CachedDir> {
        Map::new(
            |id: FsIdentity| self.by_identity@.contains_key(key_of(id)),
            |id: FsIdentity| self.by_identity@[key_of(id)],
        )
    }

    /// The directories by path.
    pub closed spec fn paths(&self) -> Map<Seq<u8>, CachedDir> {
        Map::new(
            |p: Seq<u8>| self.by_path.keys().contains(p),
            |p: Seq<u8>| self.by_path.vals()[self.by_path.keys().index_of(p)],
        )
    }

    /// What stands between the names of a path.
    pub closed spec fn separator(&self) -> u8 {
        self.sep
    }

    /// The directories that have directories inside.
    pub closed spec fn parents(&self) -> Set<Seq<u8>> {
        self.non_leaves@.to_set()
    }

    pub closed spec fn wf(&self) -> bool {
        self.by_path.wf() && self.non_leaves.wf()
    }

    /// An index of paths with slashes.
    pub fn new() -> (index: SnapshotIndex)
        ensures
            index.wf(),
            index.separator() == SEP,
            index.identities() == Map::<FsIdentity, CachedDir>::empty(),
            index.paths() == Map::<Seq<u8>, CachedDir>::empty(),
            index.parents() == Set::<Seq<u8>>::empty(),
    {
        SnapshotIndex::with_separator(SEP)
    }

    pub fn with_separator(sep: u8) -> (index: SnapshotIndex)
        ensures
            index.wf(),
            index.separator() == sep,
            index.identities() == Map::<FsIdentity, CachedDir>::empty(),
            index.paths() == Map::<Seq<u8>, CachedDir>::empty(),
            index.parents() == Set::<Seq<u8>>::empty(),
    {
        let index = SnapshotIndex {
            by_identity: HashMap::new(),
            by_path: ByteMap::new(),
            non_leaves: ByteTable::new(),
            sep,
        };
        assert(index.identities() =~= Map::<FsIdentity, CachedDir>::empty());
        assert(index.paths() =~= Map::<Seq<u8>, CachedDir>::empty());
        assert(index.parents() =~= Set::<Seq<u8>>::empty());
        index
    }

    /// Records a directory under its identity, if that is known.
    pub fn insert_identity(&mut self, identity: FsIdentity, cached: CachedDir)
        requires
            old(self).wf(),
        ensures
            final(self).wf(),
            final(self).separator() == old(self).separator(),
            final(self).identities() == (if identity.known() {
                old(self).identities().insert(identity, cached)
            } else {
                old(self).identities()
            }),
            final(self).paths() == old(self).paths(),
            final(self).parents() == old(self).parents(),
    {
        if identity.is_known() {
            let ghost before = *self;
            self.by_identity.insert(identity.key(), cached);
            proof {
                assert forall|id: FsIdentity| key_of(id) == key_of(identity) <==> id == identity by {
                    lemma_key_roundtrip(id);
                    lemma_key_roundtrip(identity);
                }
                assert(self.identities() =~= before.identities().insert(identity, cached));
            }
        }
    }

    /// Records a directory under its path, and its parent as a directory with
    /// directories inside.
    pub fn insert_path(&mut self, path: Vec<u8>, cached: CachedDir)
        requires
            old(self).wf(),
        ensures
            final(self).wf(),
            final(self).separator() == old(self).separator(),
            final(self).identities() == old(self).identities(),
            final(self).paths() == old(self).paths().insert(path@, cached),
            final(self).parents() == (if dir_of(path@, old(self).separator()).len() > 0 {
                old(self).parents().insert(dir_of(path@, old(self).separator()))
            } else {
                old(self).parents()
            }),
    {
        let ghost before = *self;
        let parent = dir_of_path(path.as_slice(), self.sep);
        if parent.len() > 0 {
            let _ = self.non_leaves.insert(parent.as_slice());
            proof {
                assert forall|p: Seq<u8>| self.non_leaves@.contains(p) <==> before.non_leaves@.contains(p) || p == parent@ by {
                    if before.non_leaves@.contains(parent@) {
                    } else {
                        assert(self.non_leaves@ == before.non_leaves@.push(parent@));
                        if before.non_leaves@.contains(p) {
                            let k = choose|k: int| 0 <= k < before.non_leaves@.len() && before.non_leaves@[k] == p;
                            assert(self.non_leaves@[k] == p);
                        }
                        assert(self.non_leaves@[before.non_leaves@.len() as int] == parent@);
                    }
                }
                assert(self.parents() =~= before.parents().insert(parent@));
            }
        }
        self.by_path.put(path.as_slice(), cached);
        proof {
            self.by_path.lemma_wf();
            before.by_path.lemma_wf();
            let ks = before.by_path.keys();
            let ks2 = self.by_path.keys();
            assert forall|p: Seq<u8>| (ks2.contains(p) <==> ks.contains(p) || p == path@) && (ks2.contains(p) ==>
                self.by_path.vals()[ks2.index_of(p)] == (if p == path@ { cached } else { before.by_path.vals()[ks.index_of(p)] })) by {
                if ks.contains(path@) {
                    let i = ks.index_of(path@);
                    assert(ks[i] == path@);
                } else {
                    assert(ks2 == ks.push(path@));
                    assert(ks2[ks.len() as int] == path@);
                    if ks.contains(p) {
                        let i = ks.index_of(p);
                        assert(ks2[i] == p);
                    }
                }
                if ks2.contains(p) {
                    let i = ks2.index_of(p);
                    assert(ks2[i] == p);
                }
            }
            assert(self.paths() =~= before.paths().insert(path@, cached));
        }
    }

    /// The totals that a directory had in this snapshot, looked up by identity.
    pub fn lookup_identity(&self, identity: FsIdentity) -> (r: Option<CachedDir>)
        requires
            self.wf(),
        ensures
            r == (if self.identities().contains_key(identity) {
                Some(self.identities()[identity])
            } else {
                None
            }),
    {
        match self.by_identity.get(&identity.key()) {
            Some(c) => Some(*c),
            None => None,
        }
    }

    /// The totals that a directory had in this snapshot, looked up by path.
    pub fn lookup_path(&self, path: &[u8]) -> (r: Option<CachedDir>)
        requires
            self.wf(),
        ensures
            r == (if self.paths().contains_key(path@) {
                Some(self.paths()[path@])
            } else {
                None
            }),
    {
        match self.by_path.find(path) {
            Some(i) => {
                proof {
                    self.by_path.lemma_wf();
                    let k = self.by_path.keys().index_of(path@);
                    assert(self.by_path.keys()[k] == path@);
                }
                Some(*self.by_path.value_at(i))
            },
            None => None,
        }
    }

    /// Turns the index into the rule by which a warm scan skips directories.
    pub fn build_skip_predicate(self) -> (p: SkipPredicate)
        requires
            self.wf(),
        ensures
            p.index == self,
    {
        SkipPredicate { index: self }
    }
}

/// The rule by which a warm scan skips directories.
pub struct SkipPredicate {
    pub index: SnapshotIndex,
}

/// What is taken over from a snapshot for a directory: nothing where directories lie
/// inside it, since a modification time does not speak for what lies deeper; else
/// the totals recorded under its identity, or else under its path, if it was not
/// modified since.
pub open spec fn skip_decision(
    index: &SnapshotIndex,
    path: Seq<u8>,
    current_mtime: i64,
    identity: FsIdentity,
) -> Option<SkipResult> {
    let by_id = index.identities();
    let by_path = index.paths();
    if index.parents().contains(path) {
        None
    } else if identity.known() && by_id.contains_key(identity) && current_mtime <= by_id[identity].mtime {
        Some(
            SkipResult {
                total_bytes: by_id[identity].total_bytes,
                file_count: by_id[identity].file_count,
            },
        )
    } else if by_path.contains_key(path) && current_mtime <= by_path[path].mtime {
        Some(
            SkipResult { total_bytes: by_path[path].total_bytes, file_count: by_path[path].file_count },
        )
    } else {
        None
    }
}

impl SkipPredicate {
    /// The totals to take over for a directory, or `None` if it has to be read.
    pub fn check(&self, path: &[u8], current_mtime: i64, identity: FsIdentity) -> (r: Option<SkipResult>)
        requires
            self.index.wf(),
        ensures
            r == skip_decision(&self.index, path@, current_mtime, identity),
    {
        if self.index.is_non_leaf(path) {
            return None;
        }
        if identity.is_known() {
            if let Some(cached) = self.index.lookup_identity(identity) {
                if current_mtime <= cached.mtime {
                    return Some(
                        SkipResult { total_bytes: cached.total_bytes, file_count: cached.file_count },
                    );
                }
            }
        }
        if let Some(cached) = self.index.lookup_path(path) {
            if current_mtime <= cached.mtime {
                return Some(
                    SkipResult { total_bytes: cached.total_bytes, file_count: cached.file_count },
                );
            }
        }
        None
    }
}

impl SnapshotIndex {
    /// Whether the snapshot knows directories inside this one.
    pub fn is_non_leaf(&self, path: &[u8]) -> (r: bool)
        requires
            self.wf(),
        ensures
            r == self.parents().contains(path@),
    {
        match self.non_leaves.find(path) {
            Some(i) => {
                assert(self.non_leaves@[i as int] == path@);
                true
            },
            None => false,
        }
    }
}

/// The parent of a recorded path is never skipped, whatever else is recorded.
pub proof fn law_parent_never_skipped(index: &SnapshotIndex, child: Seq<u8>, mtime: i64, identity: FsIdentity)
    requires
        index.parents().contains(dir_of(child, index.separator())),
    ensures
        skip_decision(index, dir_of(child, index.separator()), mtime, identity) is None,
{
}

/// A directory modified after both of its records is read again.
pub proof fn law_modified_is_read(index: &SnapshotIndex, path: Seq<u8>, mtime: i64, identity: FsIdentity)
    requires
        index.identities().contains_key(identity) ==> index.identities()[identity].mtime < mtime,
        index.paths().contains_key(path) ==> index.paths()[path].mtime < mtime,
    ensures
        skip_decision(index, path, mtime, identity) is None,
{
}

} // verus!
