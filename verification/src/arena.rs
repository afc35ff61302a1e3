//! The directory arena: nodes as parallel arrays, names interned in one byte pool.

use crate::identity::FsIdentity;
use crate::lookup::ByteTable;
use vstd::prelude::*;

verus! {

/// Interned byte symbol: the number of a raw filename (not a full path).
/// OS bytes, not UTF-8.
#[derive(Debug, Clone, Copy, PartialEq, Eq, Hash, Structural)]
pub struct ByteSymbol(pub u32);

/// Hot traversal data. The array index is the node id.
#[derive(Debug, Clone, Copy)]
pub struct NodeHot {
    /// Parent index (0-based). `NO_PARENT` for a root.
    pub parent: u32,
    /// Interned raw filename bytes (not full path).
    pub name: ByteSymbol,
    /// Recursive size in bytes (sum of all descendant file sizes).
    pub total_bytes: u64,
    /// Number of direct children files (not subdirs).
    pub file_count: u32,
    /// Depth from scan root (0 = root itself).
    pub depth: u16,
    /// Padding for alignment.
    pub _pad: u16,
}

/// Cold metadata, at the same index as its `NodeHot`.
#[derive(Debug, Clone, Copy)]
pub struct NodeCold {
    /// Filesystem identity, unknown if not populated.
    pub identity: FsIdentity,
    /// Last modified time as Unix timestamp seconds.
    pub mtime: i64,
}

/// The metadata of a node before anything was read about it.
pub open spec fn blank_cold() -> NodeCold {
    NodeCold { identity: FsIdentity::spec_unknown(), mtime: 0 }
}

impl Default for NodeCold {
    fn default() -> (c: NodeCold)
        ensures
            c == blank_cold(),
    {
        NodeCold { identity: FsIdentity::unknown(), mtime: 0 }
    }
}

/// Sentinel value for "no parent" (root node).
pub const NO_PARENT: u32 = 0xffff_ffff;

/// The path separator.
pub const SEP: u8 = 47;

/// A backslash.
pub const BACKSLASH: u8 = 92;

/// The arena: parallel arrays of `NodeHot` and `NodeCold` and a byte pool for names.
pub struct PathlessArena {
    pub hot: Vec<NodeHot>,
    pub cold: Vec<NodeCold>,
    /// Flat pool of raw filename bytes.
    pub byte_pool: Vec<u8>,
    /// (offset, length) pairs into `byte_pool`, indexed by `ByteSymbol`.
    pub symbols: Vec<(u32, u32)>,
    /// The interned names, for deduplication.
    pub interned: ByteTable,
    /// What stands between the names of a path.
    pub sep: u8,
}

/// A path with one more segment: a separator stands between unless the path ends in one.
pub open spec fn join_segment(path: Seq<u8>, segment: Seq<u8>, sep: u8) -> Seq<u8> {
    if path.len() > 0 && path.last() == sep {
        path + segment
    } else {
        path.push(sep) + segment
    }
}

fn push_segment(path: &mut Vec<u8>, segment: &[u8], sep: u8)
    ensures
        final(path)@ == join_segment(old(path)@, segment@, sep),
{
    if path.len() == 0 || path[path.len() - 1] != sep {
        path.push(sep);
    }
    let ghost stem = path@;
    let mut m: usize = 0;
    while m < segment.len()
        invariant
            m <= segment@.len(),
            path@ =~= stem + segment@.take(m as int),
        decreases segment@.len() - m,
    {
        path.push(segment[m]);
        m = m + 1;
        assert(segment@.take(m as int) =~= segment@.take(m - 1).push(segment@[m - 1]));
    }
    assert(segment@.take(m as int) =~= segment@);
}

/// The names after more were interned, each where it was new.
pub open spec fn with_names(names: Seq<Seq<u8>>, more: Seq<Seq<u8>>) -> Seq<Seq<u8>>
    decreases more.len(),
{
    if more.len() == 0 {
        names
    } else {
        let rest = with_names(names, more.drop_last());
        if rest.contains(more.last()) {
            rest
        } else {
            rest.push(more.last())
        }
    }
}

/// The bytes that interning more names appends to the pool.
pub open spec fn new_bytes(names: Seq<Seq<u8>>, more: Seq<Seq<u8>>) -> int
    decreases more.len(),
{
    if more.len() == 0 {
        0
    } else {
        new_bytes(names, more.drop_last()) + (if with_names(names, more.drop_last()).contains(more.last()) {
            0
        } else {
            more.last().len() as int
        })
    }
}

/// Names and bytes only grow.
pub proof fn lemma_names_grow(names: Seq<Seq<u8>>, more: Seq<Seq<u8>>, n: int)
    requires
        0 <= n <= more.len(),
    ensures
        with_names(names, more.take(n)).len() <= with_names(names, more).len(),
        new_bytes(names, more.take(n)) <= new_bytes(names, more),
    decreases more.len(),
{
    if n == more.len() {
        assert(more.take(n) =~= more);
    } else {
        lemma_names_grow(names, more.drop_last(), n);
        assert(more.drop_last().take(n) =~= more.take(n));
    }
}

impl PathlessArena {
    /// The names interned so far, by symbol.
    pub open spec fn names(&self) -> Seq<Seq<u8>> {
        self.interned@
    }

    /// The arrays run in parallel, each symbol gives the place of its name in the
    /// pool, and no name is interned twice.
    pub open spec fn wf(&self) -> bool {
        &&& self.hot@.len() == self.cold@.len()
        &&& self.interned.wf()
        &&& self.interned@.no_duplicates()
        &&& self.interned@.len() <= u32::MAX
        &&& self.symbols@.len() == self.interned@.len()
        &&& forall|i: int|
            0 <= i < self.symbols@.len() ==> {
                let (off, len) = #[trigger] self.symbols@[i];
                &&& off + len <= self.byte_pool@.len()
                &&& off + len <= u32::MAX
                &&& self.byte_pool@.subrange(off as int, off + len) == self.interned@[i]
            }
    }

    /// The chain of parents from node `idx` ends at a root within `steps` steps.
    pub open spec fn reaches_root(&self, idx: u32, steps: nat) -> bool
        decreases steps,
    {
        &&& idx < self.hot@.len()
        &&& self.hot@[idx as int].name.0 < self.names().len()
        &&& (self.hot@[idx as int].parent == NO_PARENT || (steps > 0 && self.reaches_root(
            self.hot@[idx as int].parent,
            (steps - 1) as nat,
        )))
    }

    /// The path of node `idx`, whose chain of parents has at most `steps` links.
    pub open spec fn path_within(&self, idx: u32, steps: nat) -> Seq<u8>
        decreases steps,
    {
        let node = self.hot@[idx as int];
        let name = self.names()[node.name.0 as int];
        if node.parent == NO_PARENT || steps == 0 {
            name
        } else {
            join_segment(self.path_within(node.parent, (steps - 1) as nat), name, self.sep)
        }
    }

    /// Node `idx` hangs from a root. A chain without a cycle has at most as many
    /// links as there are nodes.
    pub open spec fn rooted(&self, idx: u32) -> bool {
        self.reaches_root(idx, self.hot@.len())
    }

    /// The full path of node `idx`.
    pub open spec fn path(&self, idx: u32) -> Seq<u8> {
        self.path_within(idx, self.hot@.len())
    }

    /// Every name is interned and every parent stands before its children, as in
    /// an arena that is filled from the root down.
    pub open spec fn linked(&self) -> bool {
        forall|i: int|
            #![trigger self.hot@[i]]
            0 <= i < self.hot@.len() ==> {
                &&& self.hot@[i].name.0 < self.names().len()
                &&& self.hot@[i].parent == NO_PARENT || self.hot@[i].parent < i
            }
    }

    /// An empty arena whose paths have slashes.
    pub fn with_capacity(node_cap: usize, byte_cap: usize) -> (arena: PathlessArena)
        ensures
            arena.wf(),
            arena.sep == SEP,
            arena.hot@.len() == 0,
            arena.cold@.len() == 0,
            arena.names() == Seq::<Seq<u8>>::empty(),
            arena.byte_pool@.len() == 0,
            arena.symbols@.len() == 0,
    {
        PathlessArena::with_separator(node_cap, byte_cap, SEP)
    }

    /// An empty arena.
    pub fn with_separator(node_cap: usize, byte_cap: usize, sep: u8) -> (arena: PathlessArena)
        ensures
            arena.wf(),
            arena.sep == sep,
            arena.hot@.len() == 0,
            arena.cold@.len() == 0,
            arena.names() == Seq::<Seq<u8>>::empty(),
            arena.byte_pool@.len() == 0,
            arena.symbols@.len() == 0,
    {
        PathlessArena {
            hot: Vec::with_capacity(node_cap),
            cold: Vec::with_capacity(node_cap),
            byte_pool: Vec::with_capacity(byte_cap),
            symbols: Vec::new(),
            interned: ByteTable::new(),
            sep,
        }
    }

    /// The name `bytes` was interned as `sym`. A name that was there already changes
    /// nothing; a new one is appended.
    pub open spec fn after_intern(&self, before: &PathlessArena, bytes: Seq<u8>, sym: ByteSymbol) -> bool {
        &&& self.hot == before.hot
        &&& self.cold == before.cold
        &&& self.sep == before.sep
        &&& sym.0 < self.names().len()
        &&& self.names()[sym.0 as int] == bytes
        &&& before.names().contains(bytes) ==> {
            &&& self.names() == before.names()
            &&& self.byte_pool == before.byte_pool
            &&& self.symbols == before.symbols
        }
        &&& !before.names().contains(bytes) ==> {
            &&& sym.0 == before.names().len()
            &&& self.names() == before.names().push(bytes)
            &&& self.byte_pool@ == before.byte_pool@ + bytes
            &&& self.symbols@ == before.symbols@.push((before.byte_pool@.len() as u32, bytes.len() as u32))
        }
    }

    /// A node was added as number `idx`.
    pub open spec fn after_push(&self, before: &PathlessArena, hot: NodeHot, cold: NodeCold, idx: u32) -> bool {
        &&& idx == before.hot@.len()
        &&& self.hot@ == before.hot@.push(hot)
        &&& self.cold@ == before.cold@.push(cold)
        &&& self.names() == before.names()
        &&& self.byte_pool == before.byte_pool
        &&& self.symbols == before.symbols
        &&& self.sep == before.sep
    }

    /// The name is there already, or there is room for it.
    pub open spec fn room_for_name(&self, bytes: Seq<u8>) -> bool {
        self.names().contains(bytes) || (self.names().len() < u32::MAX && self.byte_pool@.len() + bytes.len()
            <= u32::MAX)
    }

    /// Intern raw OS bytes. Returns the existing symbol if already stored.
    pub fn intern(&mut self, bytes: &[u8]) -> (sym: ByteSymbol)
        requires
            old(self).wf(),
            old(self).room_for_name(bytes@),
        ensures
            final(self).wf(),
            final(self).after_intern(old(self), bytes@, sym),
    {
        if let Some(i) = self.interned.find(bytes) {
            return ByteSymbol(i as u32);
        }
        let ghost before = *self;
        let offset = self.byte_pool.len() as u32;
        let len = bytes.len() as u32;
        let mut k: usize = 0;
        while k < bytes.len()
            invariant
                k <= bytes@.len(),
                self.byte_pool@ == before.byte_pool@ + bytes@.take(k as int),
                self.hot == before.hot,
                self.cold == before.cold,
                self.symbols == before.symbols,
                self.interned == before.interned,
                self.sep == before.sep,
            decreases bytes@.len() - k,
        {
            self.byte_pool.push(bytes[k]);
            k = k + 1;
            assert(bytes@.take(k as int) =~= bytes@.take(k - 1).push(bytes@[k - 1]));
            assert(self.byte_pool@ =~= before.byte_pool@ + bytes@.take(k as int));
        }
        assert(bytes@.take(k as int) =~= bytes@);
        let sym = ByteSymbol(self.symbols.len() as u32);
        self.symbols.push((offset, len));
        let _ = self.interned.insert(bytes);
        proof {
            assert forall|i: int| 0 <= i < self.symbols@.len() implies ({
                let (off, len) = #[trigger] self.symbols@[i];
                &&& off + len <= self.byte_pool@.len()
                &&& off + len <= u32::MAX
                &&& self.byte_pool@.subrange(off as int, off + len) == self.interned@[i]
            }) by {
                let (off, len) = self.symbols@[i];
                if i < before.symbols@.len() {
                    let (o, l) = before.symbols@[i];
                    assert(self.byte_pool@.subrange(off as int, off + len) =~= before.byte_pool@.subrange(o as int, o + l));
                } else {
                    assert(self.byte_pool@.subrange(off as int, off + len) =~= bytes@);
                }
            }
        }
        sym
    }

    /// Reconstruct the full path of a node by walking its parent chain.
    pub fn materialize_path(&self, node_idx: u32) -> (path: Vec<u8>)
        requires
            self.wf(),
            self.rooted(node_idx),
        ensures
            path@ == self.path(node_idx),
    {
        let ghost total = self.hot@.len();
        let mut chain: Vec<u32> = Vec::new();
        let mut idx: u32 = node_idx;
        chain.push(idx);
        while self.hot[idx as usize].parent != NO_PARENT
            invariant
                self.wf(),
                total == self.hot@.len(),
                chain@.len() > 0,
                chain@.len() <= total + 1,
                chain@[0] == node_idx,
                chain@.last() == idx,
                self.reaches_root(idx, (total - (chain@.len() - 1)) as nat),
                forall|k: int|
                    0 <= k < chain@.len() - 1 ==> self.hot@[(#[trigger] chain@[k]) as int].parent == chain@[k + 1]
                        && self.hot@[chain@[k] as int].parent != NO_PARENT,
                forall|k: int|
                    0 <= k < chain@.len() ==> self.reaches_root(#[trigger] chain@[k], (total - k) as nat),
            decreases total + 1 - chain@.len(),
        {
            idx = self.hot[idx as usize].parent;
            chain.push(idx);
        }
        let mut k: usize = chain.len() - 1;
        let mut path: Vec<u8> = vstd::slice::slice_to_vec(self.resolve_name(self.hot[chain[k] as usize].name));
        while k > 0
            invariant
                self.wf(),
                total == self.hot@.len(),
                k < chain@.len(),
                chain@.len() <= total + 1,
                chain@[0] == node_idx,
                forall|j: int|
                    0 <= j < chain@.len() - 1 ==> self.hot@[(#[trigger] chain@[j]) as int].parent == chain@[j + 1]
                        && self.hot@[chain@[j] as int].parent != NO_PARENT,
                forall|j: int|
                    0 <= j < chain@.len() ==> self.reaches_root(#[trigger] chain@[j], (total - j) as nat),
                path@ == self.path_within(chain@[k as int], (total - k) as nat),
            decreases k,
        {
            k = k - 1;
            let ghost above = path@;
            let name = self.resolve_name(self.hot[chain[k] as usize].name);
            push_segment(&mut path, name, self.sep);
            assert(path@ == join_segment(above, name@, self.sep));
            assert(self.hot@[chain@[k as int] as int].parent == chain@[k + 1]);
        }
        path
    }

    /// Add a directory node. Returns its 0-based index.
    pub fn push_node(&mut self, parent: u32, name: ByteSymbol, depth: u16) -> (idx: u32)
        requires
            old(self).wf(),
            old(self).hot@.len() < u32::MAX,
        ensures
            final(self).wf(),
            final(self).after_push(
                old(self),
                (NodeHot { parent, name, total_bytes: 0, file_count: 0, depth, _pad: 0 }),
                blank_cold(),
                idx,
            ),
    {
        let idx = self.hot.len() as u32;
        self.hot.push(NodeHot { parent, name, total_bytes: 0, file_count: 0, depth, _pad: 0 });
        self.cold.push(NodeCold { identity: FsIdentity::unknown(), mtime: 0 });
        idx
    }

    /// Number of nodes in the arena.
    pub fn node_count(&self) -> (n: usize)
        ensures
            n == self.hot@.len(),
    {
        self.hot.len()
    }

    /// Resolve a name symbol to its raw bytes.
    pub fn resolve_name(&self, sym: ByteSymbol) -> (name: &[u8])
        requires
            self.wf(),
            sym.0 < self.names().len(),
        ensures
            name@ == self.names()[sym.0 as int],
    {
        let (off, len) = self.symbols[sym.0 as usize];
        vstd::slice::slice_subrange(self.byte_pool.as_slice(), off as usize, (off + len) as usize)
    }

    /// Replaces the totals of one node.
    pub fn set_totals(&mut self, idx: u32, total_bytes: u64, file_count: u32)
        requires
            old(self).wf(),
            idx < old(self).hot@.len(),
        ensures
            final(self).wf(),
            final(self).hot@ == old(self).hot@.update(
                idx as int,
                (NodeHot { total_bytes, file_count, ..old(self).hot@[idx as int] }),
            ),
            final(self).cold == old(self).cold,
            final(self).names() == old(self).names(),
            final(self).byte_pool == old(self).byte_pool,
            final(self).symbols == old(self).symbols,
            final(self).sep == old(self).sep,
    {
        let mut node = self.hot[idx as usize];
        node.total_bytes = total_bytes;
        node.file_count = file_count;
        self.hot.set(idx as usize, node);
    }

    /// Replaces the metadata of one node.
    pub fn set_meta(&mut self, idx: u32, identity: FsIdentity, mtime: i64)
        requires
            old(self).wf(),
            idx < old(self).hot@.len(),
        ensures
            final(self).wf(),
            final(self).hot == old(self).hot,
            final(self).cold@ == old(self).cold@.update(idx as int, (NodeCold { identity, mtime })),
            final(self).names() == old(self).names(),
            final(self).byte_pool == old(self).byte_pool,
            final(self).symbols == old(self).symbols,
            final(self).sep == old(self).sep,
    {
        self.cold.set(idx as usize, NodeCold { identity, mtime });
    }
}

/// A directory with its hot and cold data in one value.
#[derive(Debug, Clone)]
pub struct DirNode {
    pub parent: u32,
    pub name: ByteSymbol,
    pub total_bytes: u64,
    pub file_count: u32,
    pub mtime: i64,
    pub depth: u16,
    pub identity: FsIdentity,
}

impl DirNode {
    /// Push this node into the arena, splitting it into hot and cold data.
    pub fn push_into(self, arena: &mut PathlessArena) -> (idx: u32)
        requires
            old(arena).wf(),
            old(arena).hot@.len() < u32::MAX,
        ensures
            final(arena).wf(),
            final(arena).after_push(
                old(arena),
                (NodeHot {
                    parent: self.parent,
                    name: self.name,
                    total_bytes: self.total_bytes,
                    file_count: self.file_count,
                    depth: self.depth,
                    _pad: 0,
                }),
                (NodeCold { identity: self.identity, mtime: self.mtime }),
                idx,
            ),
    {
        let idx = arena.hot.len() as u32;
        arena.hot.push(
            NodeHot {
                parent: self.parent,
                name: self.name,
                total_bytes: self.total_bytes,
                file_count: self.file_count,
                depth: self.depth,
                _pad: 0,
            },
        );
        arena.cold.push(NodeCold { identity: self.identity, mtime: self.mtime });
        idx
    }
}

/// More steps than the chain needs change neither that it ends at a root nor the path.
pub proof fn lemma_path_steps(arena: &PathlessArena, idx: u32, fewer: nat, more: nat)
    requires
        arena.reaches_root(idx, fewer),
        fewer <= more,
    ensures
        arena.reaches_root(idx, more),
        arena.path_within(idx, more) == arena.path_within(idx, fewer),
    decreases fewer,
{
    if arena.hot@[idx as int].parent != NO_PARENT {
        lemma_path_steps(arena, arena.hot@[idx as int].parent, (fewer - 1) as nat, (more - 1) as nat);
    }
}

/// In an arena filled from the root down every node hangs from a root.
pub proof fn lemma_linked_rooted(arena: &PathlessArena, idx: u32)
    requires
        arena.linked(),
        idx < arena.hot@.len(),
    ensures
        arena.reaches_root(idx, idx as nat),
        arena.rooted(idx),
    decreases idx,
{
    let node = arena.hot@[idx as int];
    if node.parent != NO_PARENT {
        lemma_linked_rooted(arena, node.parent);
        lemma_path_steps(arena, node.parent, node.parent as nat, (idx - 1) as nat);
    }
    lemma_path_steps(arena, idx, idx as nat, arena.hot@.len());
}

/// A node's path is its parent's path with the node's name behind it; the path of
/// a root is its name.
pub proof fn law_child_path(arena: &PathlessArena, idx: u32)
    requires
        arena.rooted(idx),
        arena.hot@[idx as int].parent != NO_PARENT ==> arena.rooted(arena.hot@[idx as int].parent),
    ensures
        arena.hot@[idx as int].parent == NO_PARENT ==> arena.path(idx) == arena.names()[arena.hot@[idx as int].name.0 as int],
        arena.hot@[idx as int].parent != NO_PARENT ==> arena.path(idx) == join_segment(
            arena.path(arena.hot@[idx as int].parent),
            arena.names()[arena.hot@[idx as int].name.0 as int],
            arena.sep,
        ),
{
    let node = arena.hot@[idx as int];
    if node.parent != NO_PARENT {
        lemma_path_steps(arena, node.parent, (arena.hot@.len() - 1) as nat, arena.hot@.len());
    }
}

/// Two interned names are equal exactly if their symbols are.
pub proof fn law_symbols_distinct(arena: &PathlessArena, a: ByteSymbol, b: ByteSymbol)
    requires
        arena.wf(),
        a.0 < arena.names().len(),
        b.0 < arena.names().len(),
    ensures
        (arena.names()[a.0 as int] == arena.names()[b.0 as int]) <==> a == b,
{
}

/// A call that adds to an arena.
pub enum ArenaCall {
    /// A name was interned as a symbol.
    Intern { bytes: Seq<u8>, sym: ByteSymbol },
    /// A node was added as a number, by `push_node` or `push_into`.
    Push { hot: NodeHot, cold: NodeCold, idx: u32 },
}

/// The call led from one arena to the other.
pub open spec fn is_call(before: &PathlessArena, after: &PathlessArena, call: ArenaCall) -> bool {
    match call {
        ArenaCall::Intern { bytes, sym } => after.after_intern(before, bytes, sym),
        ArenaCall::Push { hot, cold, idx } => after.after_push(before, hot, cold, idx),
    }
}

/// One call after the other.
pub open spec fn is_chain(arenas: Seq<PathlessArena>, calls: Seq<ArenaCall>) -> bool {
    &&& arenas.len() == calls.len() + 1
    &&& forall|i: int| 0 <= i < calls.len() ==> is_call(&arenas[i], &arenas[i + 1], #[trigger] calls[i])
}

/// However many names are interned and nodes are added, every symbol keeps its name and
/// every node stays.
pub proof fn law_symbols_kept(arenas: Seq<PathlessArena>, calls: Seq<ArenaCall>)
    requires
        is_chain(arenas, calls),
    ensures
        arenas[0].names().is_prefix_of(arenas.last().names()),
        arenas[0].hot@.is_prefix_of(arenas.last().hot@),
        forall|s: int|
            0 <= s < arenas[0].names().len() ==> arenas.last().names()[s] == #[trigger] arenas[0].names()[s],
    decreases calls.len(),
{
    let first = arenas[0];
    let last = arenas.last();
    let n = calls.len() as int;
    if n == 0 {
        assert(first.names() =~= first.names().take(first.names().len() as int));
        assert(first.hot@ =~= first.hot@.take(first.hot@.len() as int));
    } else {
        let part = arenas.drop_last();
        let some = calls.drop_last();
        assert forall|i: int| 0 <= i < some.len() implies is_call(&part[i], &part[i + 1], #[trigger] some[i]) by {
            assert(some[i] == calls[i]);
        }
        law_symbols_kept(part, some);
        let mid = arenas[n - 1];
        assert(part.last() == mid);
        assert(is_call(&mid, &last, calls[n - 1]));
        assert forall|s: int| 0 <= s < first.names().len() implies last.names()[s] == #[trigger] first.names()[s] by {
            assert(mid.names()[s] == first.names()[s]);
        }
        assert(first.names() =~= last.names().take(first.names().len() as int));
        assert forall|k: int| 0 <= k < first.hot@.len() implies last.hot@[k] == #[trigger] first.hot@[k] by {
            assert(first.hot@[k] == mid.hot@.take(first.hot@.len() as int)[k]);
        }
        assert(first.hot@ =~= last.hot@.take(first.hot@.len() as int));
    }
}

/// The symbol of a name resolves to that name after any number of further calls.
pub proof fn law_resolves_later(arenas: Seq<PathlessArena>, calls: Seq<ArenaCall>, bytes: Seq<u8>, sym: ByteSymbol)
    requires
        is_chain(arenas, calls),
        calls.len() > 0,
        calls[0] == (ArenaCall::Intern { bytes, sym }),
    ensures
        sym.0 < arenas.last().names().len(),
        arenas.last().names()[sym.0 as int] == bytes,
{
    let rest = arenas.skip(1);
    let later = calls.skip(1);
    assert(is_call(&arenas[0], &arenas[1], calls[0]));
    assert forall|i: int| 0 <= i < later.len() implies is_call(&rest[i], &rest[i + 1], #[trigger] later[i]) by {
        assert(later[i] == calls[i + 1]);
    }
    law_symbols_kept(rest, later);
    assert(rest[0] == arenas[1]);
    assert(rest.last() == arenas.last());
    assert(rest[0].names()[sym.0 as int] == bytes);
}

} // verus!
