//! Events of the file system, and the directories that they make stale.

use crate::lookup::ByteTable;
use crate::order::{before, is_stable_order, lemma_order_distinct, lists_range, stable_order};
use crate::text::utf8_str;
use vstd::prelude::*;
use vstd::utf8::{decode_utf8, valid_utf8};

verus! {

/// What happened.
#[derive(Debug, Clone, Copy, PartialEq, Eq, Structural)]
pub enum FsEventKind {
    Create,
    Delete,
    Modify,
    Rename,
    Overflow,
    Other,
}

impl FsEventKind {
    /// The number under which a kind is stored.
    pub open spec fn number(self) -> u8 {
        match self {
            FsEventKind::Create => 0,
            FsEventKind::Delete => 1,
            FsEventKind::Modify => 2,
            FsEventKind::Rename => 3,
            FsEventKind::Overflow => 4,
            FsEventKind::Other => 5,
        }
    }

    pub fn as_u8(self) -> (n: u8)
        ensures
            n == self.number(),
    {
        match self {
            FsEventKind::Create => 0,
            FsEventKind::Delete => 1,
            FsEventKind::Modify => 2,
            FsEventKind::Rename => 3,
            FsEventKind::Overflow => 4,
            FsEventKind::Other => 5,
        }
    }

    /// The kind of a number; any number that is not known stands for another kind.
    pub fn from_u8(v: u8) -> (k: FsEventKind)
        ensures
            v <= 4 ==> k.number() == v,
            v > 4 ==> k == FsEventKind::Other,
    {
        match v {
            0 => FsEventKind::Create,
            1 => FsEventKind::Delete,
            2 => FsEventKind::Modify,
            3 => FsEventKind::Rename,
            4 => FsEventKind::Overflow,
            _ => FsEventKind::Other,
        }
    }

    pub fn as_str(self) -> (s: &'static str)
        ensures
            s@ == (match self {
                FsEventKind::Create => "create"@,
                FsEventKind::Delete => "delete"@,
                FsEventKind::Modify => "modify"@,
                FsEventKind::Rename => "rename"@,
                FsEventKind::Overflow => "overflow"@,
                FsEventKind::Other => "other"@,
            }),
    {
        match self {
            FsEventKind::Create => "create",
            FsEventKind::Delete => "delete",
            FsEventKind::Modify => "modify",
            FsEventKind::Rename => "rename",
            FsEventKind::Overflow => "overflow",
            FsEventKind::Other => "other",
        }
    }
}

/// A kind is stored under its number and read back as itself.
pub proof fn law_kind_roundtrip(k: FsEventKind, read: FsEventKind)
    requires
        k.number() <= 4 ==> read.number() == k.number(),
        k.number() > 4 ==> read == FsEventKind::Other,
    ensures
        read == k,
{
}

/// An event of the file system.
#[derive(Debug, Clone)]
pub struct FsEvent {
    pub timestamp: i64,
    pub kind: FsEventKind,
    /// The bytes of the path.
    pub path: Vec<u8>,
    pub is_dir: bool,
}

impl FsEvent {
    /// The path as text, if it is one.
    pub fn path_utf8(&self) -> (r: Option<&str>)
        ensures
            match r {
                Some(s) => valid_utf8(self.path@) && s@ == decode_utf8(self.path@),
                None => !valid_utf8(self.path@),
            },
    {
        utf8_str(self.path.as_slice())
    }
}

/// A slash or a backslash.
pub open spec fn is_sep(b: u8) -> bool {
    b == 47 || b == 92
}

/// A scan of directory `a` covers `b`: it is the same directory or lies below. The path
/// of a root ends in a separator itself.
pub open spec fn covers(a: Seq<u8>, b: Seq<u8>) -> bool {
    a.is_prefix_of(b) && (a.len() == b.len() || (a.len() > 0 && is_sep(a.last())) || is_sep(
        b[a.len() as int],
    ))
}

/// The strings of a list of byte strings.
pub open spec fn byte_views(paths: Seq<Vec<u8>>) -> Seq<Seq<u8>> {
    paths.map_values(|p: Vec<u8>| p@)
}

/// No other directory of the list covers this one.
pub open spec fn is_outermost(paths: Seq<Seq<u8>>, p: Seq<u8>) -> bool {
    paths.contains(p) && forall|q: Seq<u8>| #[trigger] paths.contains(q) && covers(q, p) ==> q == p
}

/// The directories that no other one covers, each once and the shortest path first.
pub open spec fn is_outermost_list(paths: Seq<Seq<u8>>, r: Seq<Seq<u8>>) -> bool {
    &&& r.no_duplicates()
    &&& forall|i: int, j: int| 0 <= i < j < r.len() ==> (#[trigger] r[i]).len() <= (#[trigger] r[j]).len()
    &&& forall|p: Seq<u8>| #[trigger] r.contains(p) <==> is_outermost(paths, p)
}

/// The directories that are to be scanned again.
pub struct DirtyQueue {
    pub pending: ByteTable,
    /// Events were lost: all is to be scanned again.
    pub overflow: bool,
}

proof fn lemma_covers_transitive(a: Seq<u8>, b: Seq<u8>, c: Seq<u8>)
    requires
        covers(a, b),
        covers(b, c),
    ensures
        covers(a, c),
{
    assert(a =~= c.subrange(0, a.len() as int)) by {
        assert forall|i: int| 0 <= i < a.len() implies a[i] == c[i] by {
            assert(a[i] == b.subrange(0, a.len() as int)[i]);
            assert(b[i] == c.subrange(0, b.len() as int)[i]);
        }
    }
    if a.len() < b.len() {
        assert(b[a.len() as int] == c.subrange(0, b.len() as int)[a.len() as int]);
    }
}

proof fn lemma_covers_self(a: Seq<u8>)
    ensures
        covers(a, a),
{
    assert(a =~= a.subrange(0, a.len() as int));
}

fn separates(b: u8) -> (r: bool)
    ensures
        r == is_sep(b),
{
    b == 47 || b == 92
}

fn is_covered(a: &Vec<u8>, b: &Vec<u8>) -> (r: bool)
    ensures
        r == covers(a@, b@),
{
    let n = a.len();
    if n > b.len() {
        return false;
    }
    let mut i: usize = 0;
    while i < n
        invariant
            n == a@.len(),
            n <= b@.len(),
            i <= n,
            forall|k: int| 0 <= k < i ==> a@[k] == b@[k],
        decreases n - i,
    {
        if a[i] != b[i] {
            assert(a@[i as int] != b@.subrange(0, n as int)[i as int]);
            return false;
        }
        i = i + 1;
    }
    assert(a@ =~= b@.subrange(0, n as int));
    n == b.len() || (n > 0 && separates(a[n - 1])) || separates(b[n])
}

fn covered_by_any(kept: &Vec<Vec<u8>>, path: &Vec<u8>) -> (r: bool)
    ensures
        r == exists|q: Seq<u8>| #[trigger] byte_views(kept@).contains(q) && covers(q, path@),
{
    let ghost texts = byte_views(kept@);
    let mut i: usize = 0;
    while i < kept.len()
        invariant
            texts == byte_views(kept@),
            i <= kept@.len(),
            forall|k: int| 0 <= k < i ==> !covers(#[trigger] texts[k], path@),
        decreases kept@.len() - i,
    {
        if is_covered(&kept[i], path) {
            assert(texts[i as int] == kept@[i as int]@);
            assert(texts.contains(texts[i as int]));
            return true;
        }
        i = i + 1;
    }
    false
}

impl DirtyQueue {
    pub open spec fn wf(&self) -> bool {
        self.pending.wf()
    }

    pub fn new() -> (q: DirtyQueue)
        ensures
            q.wf(),
            q.pending@.len() == 0,
            !q.overflow,
    {
        DirtyQueue { pending: ByteTable::new(), overflow: false }
    }

    /// Notes a directory that is to be scanned again.
    pub fn mark_dirty(&mut self, path: Vec<u8>)
        requires
            old(self).wf(),
        ensures
            final(self).wf(),
            final(self).overflow == old(self).overflow,
            final(self).pending@ == (if path@.len() == 0 || old(self).pending@.contains(path@) {
                old(self).pending@
            } else {
                old(self).pending@.push(path@)
            }),
    {
        if path.len() == 0 {
            return;
        }
        let _ = self.pending.insert(path.as_slice());
    }

    /// Notes that events were lost. What was noted before is covered by the scan of all.
    pub fn mark_overflow(&mut self)
        ensures
            final(self).wf(),
            final(self).overflow,
            final(self).pending@.len() == 0,
    {
        self.overflow = true;
        self.pending = ByteTable::new();
    }

    pub fn is_empty(&self) -> (r: bool)
        ensures
            r == (self.pending@.len() == 0 && !self.overflow),
    {
        self.pending.len() == 0 && !self.overflow
    }

    /// Hands out what is to be scanned again, and forgets it. A directory that lies in
    /// another one is left out, and the shortest path comes first.
    pub fn drain(&mut self) -> (r: (Vec<Vec<u8>>, bool))
        requires
            old(self).wf(),
        ensures
            final(self).wf(),
            final(self).pending@.len() == 0,
            !final(self).overflow,
            r.1 == old(self).overflow,
            is_outermost_list(old(self).pending@, byte_views(r.0@)),
    {
        let overflow = self.overflow;
        let paths = outermost_paths(&self.pending);
        self.overflow = false;
        self.pending = ByteTable::new();
        (paths, overflow)
    }
}

fn path_lengths(table: &ByteTable) -> (lengths: Vec<i128>)
    ensures
        lengths@.len() == table@.len(),
        forall|i: int| 0 <= i < lengths@.len() ==> #[trigger] lengths@[i] == table@[i].len(),
{
    let n = table.len();
    let mut lengths: Vec<i128> = Vec::new();
    let mut i: usize = 0;
    while i < n
        invariant
            n == table@.len(),
            i <= n,
            lengths@.len() == i,
            forall|k: int| 0 <= k < i ==> #[trigger] lengths@[k] == table@[k].len(),
        decreases n - i,
    {
        lengths.push(table.key(i).len() as i128);
        i = i + 1;
    }
    lengths
}

fn outermost_paths(table: &ByteTable) -> (r: Vec<Vec<u8>>)
    requires
        table.wf(),
    ensures
        is_outermost_list(table@, byte_views(r@)),
{
    let ghost all = table@;
    let lengths = path_lengths(table);
    let order = stable_order(&lengths);
    let n = order.len();
    let mut kept: Vec<Vec<u8>> = Vec::new();
    let ghost mut at: Seq<int> = Seq::empty();
    let mut i: usize = 0;
    proof {
        table.lemma_distinct();
        lemma_order_distinct(lengths@, order@);
    }
    while i < n
        invariant
            table.wf(),
            all == table@,
            all.no_duplicates(),
            lengths@.len() == all.len(),
            forall|k: int| 0 <= k < lengths@.len() ==> #[trigger] lengths@[k] == all[k].len(),
            is_stable_order(lengths@, order@),
            order@.no_duplicates(),
            n == order@.len(),
            i <= n,
            at.len() == kept@.len(),
            // Kept paths stand at ascending places of the order.
            forall|k: int| 0 <= k < at.len() ==> 0 <= #[trigger] at[k] < i && kept@[k]@ == all[order@[at[k]] as int],
            forall|j: int, k: int| 0 <= j < k < at.len() ==> #[trigger] at[j] < #[trigger] at[k],
            // What was seen is covered.
            forall|k: int|
                0 <= k < i ==> exists|q: Seq<u8>|
                    #[trigger] byte_views(kept@).contains(q) && covers(q, all[#[trigger] order@[k] as int]),
            // No kept path is covered by another one.
            forall|j: int, k: int|
                0 <= j < kept@.len() && 0 <= k < kept@.len() && j != k ==> !covers(
                    (#[trigger] kept@[j])@,
                    (#[trigger] kept@[k])@,
                ),
        decreases n - i,
    {
        let ghost place = order@[i as int] as int;
        assert(0 <= place < all.len());
        let path = table.key(order[i]);
        let ghost before_kept = byte_views(kept@);
        let covered = covered_by_any(&kept, path);
        if !covered {
            let copy = path.clone();
            assert(copy@ == path@);
            let ghost was = kept@;
            kept.push(copy);
            proof {
                at = at.push(i as int);
                assert(byte_views(kept@) =~= before_kept.push(path@));
                assert forall|k: int| 0 <= k < i + 1 implies exists|q: Seq<u8>|
                    #[trigger] byte_views(kept@).contains(q) && covers(q, all[#[trigger] order@[k] as int]) by {
                    if k < i {
                        let q = choose|q: Seq<u8>|
                            #[trigger] before_kept.contains(q) && covers(q, all[order@[k] as int]);
                        let x = choose|x: int| 0 <= x < before_kept.len() && before_kept[x] == q;
                        assert(byte_views(kept@)[x] == q);
                        assert(byte_views(kept@).contains(q));
                    } else {
                        lemma_covers_self(path@);
                        assert(byte_views(kept@)[before_kept.len() as int] == path@);
                        assert(byte_views(kept@).contains(path@));
                    }
                }
                assert forall|j: int, k: int|
                    0 <= j < kept@.len() && 0 <= k < kept@.len() && j != k implies !covers(
                    (#[trigger] kept@[j])@,
                    (#[trigger] kept@[k])@,
                ) by {
                    if k == was.len() {
                        assert(before_kept[j] == kept@[j]@);
                        assert(before_kept.contains(kept@[j]@));
                    } else if j == was.len() {
                        if covers(kept@[j]@, kept@[k]@) {
                            // The order is by length, so both have the same length.
                            assert(before(lengths@, order@[at[k]] as int, order@[i as int] as int));
                            assert(kept@[j]@ =~= kept@[k]@);
                            assert(order@[at[k]] != order@[i as int]);
                        }
                    }
                }
            }
        } else {
            proof {
                assert forall|k: int| 0 <= k < i + 1 implies exists|q: Seq<u8>|
                    #[trigger] byte_views(kept@).contains(q) && covers(q, all[#[trigger] order@[k] as int]) by {}
            }
        }
        i = i + 1;
    }
    proof {
        let r = byte_views(kept@);
        assert forall|j: int, k: int| 0 <= j < r.len() && 0 <= k < r.len() && j != k implies r[j] != r[k] by {
            if r[j] == r[k] {
                lemma_covers_self(r[j]);
                assert(covers(kept@[j]@, kept@[k]@));
            }
        }
        assert forall|j: int, k: int| 0 <= j < k < r.len() implies (#[trigger] r[j]).len() <= (#[trigger] r[k]).len() by {
            assert(at[j] < at[k]);
            assert(before(lengths@, order@[at[j]] as int, order@[at[k]] as int));
            assert(r[j] == all[order@[at[j]] as int]);
            assert(r[k] == all[order@[at[k]] as int]);
        }
        assert forall|p: Seq<u8>| #[trigger] r.contains(p) <==> is_outermost(all, p) by {
            if r.contains(p) {
                let k = choose|k: int| 0 <= k < r.len() && r[k] == p;
                assert(kept@[k]@ == p);
                assert(all[order@[at[k]] as int] == p);
                assert(all.contains(p));
                assert forall|q: Seq<u8>| #[trigger] all.contains(q) && covers(q, p) implies q == p by {
                    lemma_some_kept(all, lengths@, order@, r, q);
                    let e = choose|e: Seq<u8>| #[trigger] r.contains(e) && covers(e, q);
                    lemma_covers_transitive(e, q, p);
                    let j = choose|j: int| 0 <= j < r.len() && r[j] == e;
                    assert(kept@[j]@ == e);
                    if j != k {
                        assert(!covers(kept@[j]@, kept@[k]@));
                    }
                    assert(e == p);
                    assert(p.len() <= q.len() <= p.len());
                    assert(q =~= p);
                }
            }
            if is_outermost(all, p) {
                lemma_some_kept(all, lengths@, order@, r, p);
                let e = choose|e: Seq<u8>| #[trigger] r.contains(e) && covers(e, p);
                let j = choose|j: int| 0 <= j < r.len() && r[j] == e;
                assert(kept@[j]@ == all[order@[at[j]] as int]);
                assert(all.contains(e));
                assert(e == p);
            }
        }
    }
    kept
}

proof fn lemma_some_kept(all: Seq<Seq<u8>>, lengths: Seq<i128>, order: Seq<usize>, kept: Seq<Seq<u8>>, p: Seq<u8>)
    requires
        all.contains(p),
        lengths.len() == all.len(),
        is_stable_order(lengths, order),
        order.len() <= usize::MAX,
        forall|k: int|
            0 <= k < order.len() ==> exists|q: Seq<u8>|
                #[trigger] kept.contains(q) && covers(q, all[#[trigger] order[k] as int]),
    ensures
        exists|e: Seq<u8>| #[trigger] kept.contains(e) && covers(e, p),
{
    let x = choose|x: int| 0 <= x < all.len() && all[x] == p;
    assert(lists_range(order, 0, lengths.len() as int));
    assert(0 <= x < lengths.len());
    assert(order.len() == lengths.len());
    assert(order.contains(x as usize));
    let k = choose|k: int| 0 <= k < order.len() && order[k] == x as usize;
    assert(order[k] as int == x);
}

/// Every directory that was noted is covered by one that is handed out, and none that
/// is handed out is covered by another one.
pub proof fn law_drained_cover(paths: Seq<Seq<u8>>, r: Seq<Seq<u8>>, p: Seq<u8>)
    requires
        is_outermost_list(paths, r),
        paths.contains(p),
    ensures
        exists|e: Seq<u8>| #[trigger] r.contains(e) && covers(e, p),
        forall|a: Seq<u8>, b: Seq<u8>| #[trigger] r.contains(a) && #[trigger] r.contains(b) && covers(a, b) ==> a == b,
    decreases p.len(),
{
    assert forall|a: Seq<u8>, b: Seq<u8>| #[trigger] r.contains(a) && #[trigger] r.contains(b) && covers(a, b) implies a
        == b by {
        assert(is_outermost(paths, a));
        assert(is_outermost(paths, b));
    }
    lemma_covers_self(p);
    if is_outermost(paths, p) {
        assert(r.contains(p));
    } else {
        let q = choose|q: Seq<u8>| #[trigger] paths.contains(q) && covers(q, p) && q != p;
        if q.len() == p.len() {
            assert(q =~= p);
        }
        law_drained_cover(paths, r, q);
        let e = choose|e: Seq<u8>| #[trigger] r.contains(e) && covers(e, q);
        lemma_covers_transitive(e, q, p);
    }
}

impl Default for DirtyQueue {
    fn default() -> (q: DirtyQueue)
        ensures
            q.wf(),
            q.pending@.len() == 0,
            !q.overflow,
    {
        DirtyQueue::new()
    }
}

/// A scan of a directory covers the directory itself and what lies behind its path and a
/// separator, and not a path that only begins with the same letters.
pub proof fn law_covers(a: Seq<u8>, b: Seq<u8>, c: u8, rest: Seq<u8>)
    ensures
        covers(a, a),
        c == 47 || c == 92 ==> covers(a, a.push(c) + rest),
        a.len() > 0 && a.last() != 47 && a.last() != 92 && c != 47 && c != 92 ==> !covers(a, a.push(c) + rest),
        a.len() > 0 && (a.last() == 47 || a.last() == 92) ==> covers(a, a.push(c) + rest),
        covers(a, b) ==> a.len() <= b.len() && forall|i: int| 0 <= i < a.len() ==> a[i] == b[i],
{
    lemma_covers_self(a);
    let p = a.push(c) + rest;
    assert(a =~= p.subrange(0, a.len() as int));
    assert(p[a.len() as int] == c);
    if covers(a, b) {
        assert forall|i: int| 0 <= i < a.len() implies a[i] == b[i] by {
            assert(a[i] == b.subrange(0, a.len() as int)[i]);
        }
    }
}

} // verus!
