//! Filesystem identities and the set of directories already visited.

use std::collections::HashSet;
use vstd::prelude::*;

verus! {

/// Canonical filesystem identity: `(dev, ino)` on Unix, volume serial and file id on Windows.
///
/// A rename keeps the identity, hard links share it, and different `dev` values
/// are different identity spaces.
#[derive(Debug, Clone, Copy, PartialEq, Eq, Hash, Structural)]
pub struct FsIdentity {
    pub dev: u64,
    pub ino: u64,
}

/// An identity as one number: the device above the inode.
pub open spec fn key_of(id: FsIdentity) -> u128 {
    (id.dev as int * 0x1_0000_0000_0000_0000 + id.ino as int) as u128
}

/// The identity that a number stands for.
pub open spec fn identity_of(key: u128) -> FsIdentity {
    FsIdentity {
        dev: (key as int / 0x1_0000_0000_0000_0000) as u64,
        ino: (key as int % 0x1_0000_0000_0000_0000) as u64,
    }
}

/// Packing an identity into one number loses nothing.
pub proof fn lemma_key_roundtrip(id: FsIdentity)
    ensures
        identity_of(key_of(id)) == id,
{
}

impl FsIdentity {
    /// Sentinel for "identity not available" (FUSE, NFS, etc.).
    pub open spec fn spec_unknown() -> FsIdentity {
        FsIdentity { dev: 0, ino: 0 }
    }

    /// Sentinel for "identity not available" (FUSE, NFS, etc.).
    pub fn unknown() -> (id: FsIdentity)
        ensures
            id == FsIdentity::spec_unknown(),
    {
        FsIdentity { dev: 0, ino: 0 }
    }

    /// The identity was read from the filesystem: no real file has inode 0.
    pub open spec fn known(self) -> bool {
        self.ino != 0
    }

    /// Returns true if this identity was actually populated from the filesystem.
    pub fn is_known(&self) -> (r: bool)
        ensures
            r == self.known(),
    {
        self.ino != 0
    }

    /// The identity made of a Linux `statx` result: the two halves of the device
    /// number and the inode.
    pub fn from_statx(dev_major: u32, dev_minor: u32, ino: u64) -> (id: FsIdentity)
        ensures
            id.dev == dev_major * 0x1_0000_0000 + dev_minor,
            id.ino == ino,
    {
        let major = dev_major as u64;
        let minor = dev_minor as u64;
        assert(((major << 32) | minor) == major * 0x1_0000_0000 + minor) by (bit_vector)
            requires
                major <= 0xffff_ffffu64,
                minor <= 0xffff_ffffu64,
        ;
        FsIdentity { dev: (major << 32) | minor, ino }
    }

    /// The identity made of a BSD or macOS `stat` result.
    pub fn from_stat(dev: u64, ino: u64) -> (id: FsIdentity)
        ensures
            id == (FsIdentity { dev, ino }),
    {
        FsIdentity { dev, ino }
    }

    /// The identity as one number, for use as a key.
    pub fn key(&self) -> (k: u128)
        ensures
            k == key_of(*self),
    {
        self.dev as u128 * 0x1_0000_0000_0000_0000 + self.ino as u128
    }
}

impl Default for FsIdentity {
    fn default() -> (id: FsIdentity)
        ensures
            id == FsIdentity::spec_unknown(),
    {
        FsIdentity { dev: 0, ino: 0 }
    }
}

/// Tracks what was visited, so that what is reached under several names or through
/// overlapping trees counts once: files with hard links, and directories that a bind
/// mount shows twice.
pub struct VisitedSet {
    seen: HashSet<u128>,
}

impl View for VisitedSet {
    type V = Set<FsIdentity>;

    closed spec fn view(&self) -> Set<FsIdentity> {
        Set::new(|id: FsIdentity| self.seen@.contains(key_of(id)))
    }
}

proof fn lemma_view_len(seen: Set<u128>, ids: Set<FsIdentity>)
    requires
        seen.finite(),
        ids == Set::new(|id: FsIdentity| seen.contains(key_of(id))),
    ensures
        ids.len() == seen.len(),
        ids.finite(),
{
    let f = |k: u128| identity_of(k);
    assert forall|a: u128, b: u128| #[trigger] f(a) == #[trigger] f(b) implies a == b by {
        assert(key_of(identity_of(a)) == a);
        assert(key_of(identity_of(b)) == b);
    }
    assert forall|id: FsIdentity| ids.contains(id) <==> #[trigger] seen.map(f).contains(id) by {
        lemma_key_roundtrip(id);
        if ids.contains(id) {
            assert(seen.contains(key_of(id)) && f(key_of(id)) == id);
        }
        if seen.map(f).contains(id) {
            let k = choose|k: u128| seen.contains(k) && f(k) == id;
            assert(key_of(identity_of(k)) == k);
        }
    }
    assert(ids =~= seen.map(f));
    seen.lemma_map_finite(f);
    vstd::set_lib::lemma_map_size(seen, ids, f);
}

impl VisitedSet {
    /// Only known identities are recorded.
    pub closed spec fn wf(&self) -> bool {
        &&& self.seen@.finite()
        &&& forall|id: FsIdentity| #[trigger] self@.contains(id) ==> id.known()
    }

    pub fn new() -> (s: VisitedSet)
        ensures
            s.wf(),
            s@ == Set::<FsIdentity>::empty(),
    {
        let s = VisitedSet { seen: HashSet::with_capacity(1024) };
        assert(s@ =~= Set::<FsIdentity>::empty());
        s
    }

    /// Record something as visited. Returns `true` if this is the first visit,
    /// and `true` for unknown identities, which are never recorded.
    pub fn visit(&mut self, id: FsIdentity) -> (first: bool)
        requires
            old(self).wf(),
        ensures
            final(self).wf(),
            first == (!id.known() || !old(self)@.contains(id)),
            final(self)@ == (if id.known() {
                old(self)@.insert(id)
            } else {
                old(self)@
            }),
    {
        if !id.is_known() {
            return true;
        }
        let ghost before = *self;
        let first = self.seen.insert(id.key());
        proof {
            assert forall|other: FsIdentity| self@.contains(other) <==> before@.insert(id).contains(other) by {
                lemma_key_roundtrip(other);
                lemma_key_roundtrip(id);
            }
            assert(self@ =~= before@.insert(id));
        }
        first
    }

    /// Number of unique identities visited.
    pub fn len(&self) -> (n: usize)
        requires
            self.wf(),
        ensures
            n == self@.len(),
    {
        proof {
            lemma_view_len(self.seen@, self@);
        }
        self.seen.len()
    }

    pub fn is_empty(&self) -> (r: bool)
        requires
            self.wf(),
        ensures
            r == (self@ == Set::<FsIdentity>::empty()),
    {
        proof {
            if self.seen@.is_empty() {
                assert(self@ =~= Set::<FsIdentity>::empty());
            } else {
                let k = self.seen@.choose();
                assert(key_of(identity_of(k)) == k);
                assert(self@.contains(identity_of(k)));
            }
        }
        self.seen.is_empty()
    }
}

impl Default for VisitedSet {
    fn default() -> (s: VisitedSet)
        ensures
            s.wf(),
            s@ == Set::<FsIdentity>::empty(),
    {
        VisitedSet::new()
    }
}

} // verus!
