//! What paths are taken apart into, and where they lead.

use crate::history::{forward, has_drive, is_form, nonempty, walked, PathForm};
use crate::search_laws::lemma_leading;
use crate::text::{joined, split_text};
use vstd::prelude::*;

verus! {

/// The pieces of a text hold no separator, and joined by it they are the text again.
pub proof fn law_split(s: Seq<char>, sep: char)
    ensures
        split_text(s, sep).len() > 0,
        forall|i: int, j: int|
            0 <= i < split_text(s, sep).len() && 0 <= j < split_text(s, sep)[i].len() ==> #[trigger] split_text(s, sep)[i][j]
                != sep,
        joined(split_text(s, sep), seq![sep]) == s,
    decreases s.len(),
{
    let all = split_text(s, sep);
    if s.len() == 0 {
        assert(joined(all, seq![sep]) =~= s);
    } else {
        let part = s.drop_last();
        let rest = split_text(part, sep);
        law_split(part, sep);
        let n = rest.len() as int;
        if s.last() == sep {
            assert(all.drop_last() =~= rest);
            assert(joined(all, seq![sep]) =~= part.push(sep));
            assert(part.push(s.last()) =~= s);
        } else {
            let c = s.last();
            assert(all.drop_last() =~= rest.drop_last());
            assert(all.last() == rest.last().push(c));
            assert(all.len() == n);
            assert(joined(all, seq![sep]) =~= joined(rest, seq![sep]).push(c));
            assert(part.push(c) =~= s);
            assert forall|i: int, j: int| 0 <= i < all.len() && 0 <= j < all[i].len() implies #[trigger] all[i][j] != sep by {
                if i < n - 1 {
                    assert(all[i] == rest[i]);
                    assert(rest[i][j] != sep);
                } else if j < rest[n - 1].len() {
                    assert(rest[n - 1][j] != sep);
                }
            }
        }
    }
}

/// The names along a path are not empty and hold no slash, and together they are all of the
/// path but its slashes.
pub proof fn law_path_parts(s: Seq<char>)
    ensures
        forall|i: int| 0 <= i < nonempty(split_text(s, '/')).len() ==> (#[trigger] nonempty(split_text(s, '/'))[i]).len() > 0,
        forall|i: int, j: int|
            0 <= i < nonempty(split_text(s, '/')).len() && 0 <= j < nonempty(split_text(s, '/'))[i].len()
                ==> #[trigger] nonempty(split_text(s, '/'))[i][j] != '/',
        nonempty(split_text(s, '/')).flatten() == s.filter(|c: char| c != '/'),
{
    let all = split_text(s, '/');
    let pred = |p: Seq<char>| p.len() > 0;
    let kept = all.filter(pred);
    law_split(s, '/');
    assert forall|i: int| 0 <= i < kept.len() implies (#[trigger] kept[i]).len() > 0 && all.contains(kept[i]) by {
        all.lemma_filter_pred(pred, i);
        all.lemma_filter_contains_rev(pred, kept[i]);
    }
    assert forall|i: int, j: int| 0 <= i < kept.len() && 0 <= j < kept[i].len() implies #[trigger] kept[i][j] != '/' by {
        assert(all.contains(kept[i]));
        let k = choose|k: int| 0 <= k < all.len() && all[k] == kept[i];
        assert(all[k][j] != '/');
    }
    lemma_flat_split(s);
    lemma_flat_nonempty(all);
    kept.lemma_flatten_and_flatten_alt_are_equivalent();
    all.lemma_flatten_and_flatten_alt_are_equivalent();
}

proof fn lemma_flat_nonempty(parts: Seq<Seq<char>>)
    ensures
        nonempty(parts).flatten_alt() == parts.flatten_alt(),
    decreases parts.len(),
{
    reveal(Seq::filter);
    if parts.len() > 0 {
        lemma_flat_nonempty(parts.drop_last());
        let rest = nonempty(parts.drop_last());
        if parts.last().len() > 0 {
            assert(nonempty(parts).drop_last() =~= rest);
        } else {
            assert(parts.flatten_alt() =~= parts.drop_last().flatten_alt());
        }
    } else {
        assert(nonempty(parts) =~= parts);
    }
}

proof fn lemma_flat_split(s: Seq<char>)
    ensures
        split_text(s, '/').flatten_alt() == s.filter(|c: char| c != '/'),
    decreases s.len(),
{
    reveal(Seq::filter);
    let pred = |c: char| c != '/';
    let all = split_text(s, '/');
    if s.len() == 0 {
        assert(all.drop_last() =~= Seq::<Seq<char>>::empty());
        assert(all.drop_last().flatten_alt() =~= Seq::<char>::empty());
        assert(all.flatten_alt() =~= s.filter(pred));
    } else {
        let part = s.drop_last();
        let rest = split_text(part, '/');
        lemma_flat_split(part);
        law_split(part, '/');
        if s.last() == '/' {
            assert(all.drop_last() =~= rest);
            assert(all.flatten_alt() =~= rest.flatten_alt());
        } else {
            assert(all.drop_last() =~= rest.drop_last());
            assert(all.last() == rest.last().push(s.last()));
            assert(all.flatten_alt() =~= rest.flatten_alt().push(s.last()));
        }
    }
}

/// A path leads where its second half leads from where its first half leads.
pub proof fn law_walk_on(children: Map<(u64, Seq<char>), u64>, from: u64, a: Seq<Seq<char>>, b: Seq<Seq<char>>, name: Seq<char>)
    ensures
        walked(children, from, Seq::empty()) == Some(from),
        children.contains_key((from, name)) ==> walked(children, from, seq![name]) == Some(children[(from, name)]),
        !children.contains_key((from, name)) ==> walked(children, from, seq![name]) is None,
        walked(children, from, a + b) == (match walked(children, from, a) {
            Some(at) => walked(children, at, b),
            None => None,
        }),
    decreases a.len(),
{
    assert(seq![name].skip(1) =~= Seq::<Seq<char>>::empty());
    if children.contains_key((from, name)) {
        assert(walked(children, children[(from, name)], Seq::<Seq<char>>::empty()) == Some(children[(from, name)]));
    }
    if a.len() == 0 {
        assert(a + b =~= b);
    } else {
        assert((a + b)[0] == a[0]);
        assert((a + b).skip(1) =~= a.skip(1) + b);
        if children.contains_key((from, a[0])) {
            law_walk_on(children, children[(from, a[0])], a.skip(1), b, name);
        }
    }
}

/// A path with a drive is one on the volume of that drive, in upper case; what follows the
/// separators behind it is the rest, with slashes for backslashes.
pub proof fn law_drive_path(c: char, gap: Seq<char>, s: Seq<char>, form: PathForm)
    requires
        'a' <= c <= 'z' || 'A' <= c <= 'Z',
        forall|i: int| 0 <= i < gap.len() ==> (#[trigger] gap[i]) == '/' || gap[i] == '\\',
        s.len() > 0 ==> s[0] != '/' && s[0] != '\\',
        is_form(seq![c, ':'] + gap + s, form),
    ensures
        form is Drive,
        form->volume@.len() == 2,
        'A' <= c <= 'Z' ==> form->volume@[0] == c,
        'a' <= c <= 'z' ==> form->volume@[0] as int == c as int - 32,
        form->volume@[1] == ':',
        form->Drive_rest@.len() == s.len(),
        forall|i: int|
            0 <= i < s.len() ==> #[trigger] form->Drive_rest@[i] == (if s[i] == '\\' {
                '/'
            } else {
                s[i]
            }),
{
    let path = seq![c, ':'] + gap + s;
    let p = forward(path);
    assert(path[0] == c && path[1] == ':');
    assert(p[0] == c && p[1] == ':');
    assert(has_drive(p));
    let tail = p.skip(2);
    let k = lemma_leading(tail, '/');
    let n = gap.len() as int;
    assert forall|i: int| 0 <= i < n implies tail[i] == '/' by {
        assert(tail[i] == p[i + 2]);
        assert(path[i + 2] == gap[i]);
    }
    assert forall|i: int| 0 <= i < s.len() implies #[trigger] tail[n + i] == (if s[i] == '\\' {
        '/'
    } else {
        s[i]
    }) by {
        assert(path[n + i + 2] == s[i]);
        assert(tail[n + i] == p[n + i + 2]);
    }
    assert(k == n) by {
        if k < n {
            assert(tail[k] == '/');
        } else if k > n {
            assert(tail[n] == '/');
            assert(tail[n + 0] == '/');
        }
    }
    assert forall|i: int| 0 <= i < s.len() implies #[trigger] form->Drive_rest@[i] == (if s[i] == '\\' {
        '/'
    } else {
        s[i]
    }) by {
        assert(form->Drive_rest@[i] == tail[n + i]);
    }
}

} // verus!
