//! What a warm scan takes over from an earlier snapshot.

use crate::arena::BACKSLASH;
use crate::identity::FsIdentity;
use crate::store::{indexes, is_cached, is_identity, last_row, DirRow};
use crate::warm::{dir_of, is_last_sep, parent_of, skip_decision, without_last_sep, SnapshotIndex};
use vstd::prelude::*;

verus! {

/// A directory that the snapshot holds once, by path and by identity, is taken over with its
/// totals exactly if it was not modified since and no directory of the snapshot lies in it.
pub proof fn law_unchanged_is_taken_over(index: &SnapshotIndex, rows: Seq<DirRow>, i: int, mtime: i64, id: FsIdentity)
    requires
        indexes(*index, rows),
        0 <= i < rows.len(),
        rows[i].path@.len() > 0,
        is_identity(rows[i], id),
        id.known(),
        0 <= rows[i].total_bytes,
        0 <= rows[i].file_count <= u32::MAX,
        forall|j: int|
            0 <= j < rows.len() && j != i ==> (#[trigger] rows[j]).path@ != rows[i].path@ && !is_identity(rows[j], id),
    ensures
        ({
            let r = skip_decision(index, rows[i].path@, mtime, id);
            &&& r is Some <==> mtime <= rows[i].mtime && forall|j: int|
                0 <= j < rows.len() ==> dir_of((#[trigger] rows[j]).path@, index.separator()) != rows[i].path@
            &&& r is Some ==> (r->0).total_bytes == rows[i].total_bytes && (r->0).file_count == rows[i].file_count
        }),
{
    let p = rows[i].path@;
    let by_path = |r: DirRow| r.path@ == p;
    let by_id = |r: DirRow| is_identity(r, id);
    assert(last_row(rows, by_path, i)) by {
        assert forall|j: int| i < j < rows.len() implies !by_path(#[trigger] rows[j]) by {
            assert(rows[j].path@ != p);
        }
    }
    assert(last_row(rows, by_id, i)) by {
        assert forall|j: int| i < j < rows.len() implies !by_id(#[trigger] rows[j]) by {
            assert(!is_identity(rows[j], id));
        }
    }
    assert(last_row(rows, |r: DirRow| r.path@ == p, i));
    assert(last_row(rows, |r: DirRow| is_identity(r, id), i));
    assert(index.paths().contains_key(p)) by {
        assert(rows[i].path@ == p);
    }
    assert(index.identities().contains_key(id)) by {
        assert(is_identity(rows[i], id));
    }
    assert(is_cached(rows[i], index.paths()[p]));
    assert(is_cached(rows[i], index.identities()[id]));
    assert(index.parents().contains(p) <==> exists|j: int|
        0 <= j < rows.len() && dir_of((#[trigger] rows[j]).path@, index.separator()) == p);
}

/// The directory of a path with slashes is what stands before the last of them; that of an
/// entry of the root is the root.
pub proof fn law_dir_of(dir: Seq<u8>, name: Seq<u8>, sep: u8)
    requires
        sep != BACKSLASH,
        name.len() > 0,
        forall|i: int| 0 <= i < name.len() ==> #[trigger] name[i] != sep,
    ensures
        dir.len() > 0 ==> dir_of(dir.push(sep) + name, sep) == dir,
        dir_of(seq![sep] + name, sep) == seq![sep],
{
    if dir.len() > 0 {
        lemma_parent(dir, name, sep);
    }
    lemma_parent(Seq::empty(), name, sep);
    assert(Seq::<u8>::empty().push(sep) + name =~= seq![sep] + name);
}

pub(crate) proof fn lemma_parent(dir: Seq<u8>, name: Seq<u8>, sep: u8)
    requires
        name.len() > 0,
        forall|i: int| 0 <= i < name.len() ==> #[trigger] name[i] != sep,
    ensures
        parent_of(dir.push(sep) + name, sep) == (if dir.len() == 0 {
            seq![sep]
        } else {
            dir
        }),
{
    let p = dir.push(sep) + name;
    let n = dir.len() as int;
    assert(p.last() == name.last());
    assert(name[name.len() - 1] != sep);
    assert(without_last_sep(p, sep) == p);
    assert(p[n] == sep);
    assert forall|j: int| n < j < p.len() implies #[trigger] p[j] != sep by {
        assert(p[j] == name[j - n - 1]);
    }
    assert(is_last_sep(p, n, sep));
    let pos = choose|pos: int| is_last_sep(p, pos, sep);
    assert(is_last_sep(p, pos, sep));
    assert(p[pos] == sep && p[n] == sep);
    assert(pos == n);
    assert(p.take(n) =~= dir);
}

} // verus!
