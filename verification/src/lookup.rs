//! A table that numbers distinct byte strings in the order of their first appearance.

use crate::text::bytes_eq;
use std::collections::HashMap;
use vstd::prelude::*;

verus! {

/// One round of the fingerprint: mixes `b` into `h`.
pub open spec fn mix(h: u64, b: u8) -> u64 {
    (h ^ (b as u64)).wrapping_mul(0x100000001b3u64)
}

/// The fingerprint of a byte string.
pub open spec fn fingerprint_of(bytes: Seq<u8>) -> u64
    decreases bytes.len(),
{
    if bytes.len() == 0 {
        0xcbf29ce484222325u64
    } else {
        mix(fingerprint_of(bytes.drop_last()), bytes.last())
    }
}

fn fingerprint(bytes: &[u8]) -> (h: u64)
    ensures
        h == fingerprint_of(bytes@),
{
    let mut h: u64 = 0xcbf29ce484222325u64;
    let mut i: usize = 0;
    while i < bytes.len()
        invariant
            i <= bytes@.len(),
            h == fingerprint_of(bytes@.take(i as int)),
        decreases bytes@.len() - i,
    {
        h = (h ^ (bytes[i] as u64)).wrapping_mul(0x100000001b3u64);
        i = i + 1;
        assert(bytes@.take(i as int).drop_last() =~= bytes@.take(i - 1));
    }
    assert(bytes@.take(i as int) =~= bytes@);
    h
}

/// Distinct byte strings, each under the number of strings stored before it.
///
/// Strings with the same fingerprint form a chain: `heads` gives the newest of
/// them and `older` leads from each to the one stored before it.
pub struct ByteTable {
    keys: Vec<Vec<u8>>,
    older: Vec<Option<usize>>,
    heads: HashMap<u64, usize>,
}

impl View for ByteTable {
    type V = Seq<Seq<u8>>;

    closed spec fn view(&self) -> Seq<Seq<u8>> {
        Seq::new(self.keys@.len(), |i: int| self.keys@[i]@)
    }
}

/// `p` is the last place before `end` at which a key with fingerprint `f` stands.
pub open spec fn last_with(keys: Seq<Seq<u8>>, f: u64, end: int, p: Option<usize>) -> bool {
    match p {
        Some(i) => {
            &&& i < end
            &&& fingerprint_of(keys[i as int]) == f
            &&& forall|j: int| i < j < end ==> fingerprint_of(#[trigger] keys[j]) != f
        },
        None => forall|j: int| 0 <= j < end ==> fingerprint_of(#[trigger] keys[j]) != f,
    }
}

impl ByteTable {
    /// No string is stored twice, and every chain leads through all of its strings.
    pub closed spec fn wf(&self) -> bool {
        &&& self.older@.len() == self@.len()
        &&& self@.no_duplicates()
        &&& forall|i: int|
            0 <= i < self@.len() ==> last_with(
                self@,
                fingerprint_of(#[trigger] self@[i]),
                i,
                self.older@[i],
            )
        &&& forall|f: u64|
            #![trigger self.heads@.contains_key(f)]
            last_with(
                self@,
                f,
                self@.len() as int,
                if self.heads@.contains_key(f) {
                    Some(self.heads@[f])
                } else {
                    None
                },
            )
    }

    pub fn new() -> (t: ByteTable)
        ensures
            t.wf(),
            t@ == Seq::<Seq<u8>>::empty(),
    {
        let t = ByteTable { keys: Vec::new(), older: Vec::new(), heads: HashMap::new() };
        assert(t@ =~= Seq::<Seq<u8>>::empty());
        t
    }

    /// Number of strings stored.
    pub fn len(&self) -> (n: usize)
        ensures
            n == self@.len(),
    {
        self.keys.len()
    }

    pub proof fn lemma_distinct(&self)
        requires
            self.wf(),
        ensures
            self@.no_duplicates(),
    {
    }

    /// The string stored under a number.
    pub fn key(&self, i: usize) -> (k: &Vec<u8>)
        requires
            i < self@.len(),
        ensures
            k@ == self@[i as int],
    {
        &self.keys[i]
    }

    /// The number under which a string is stored.
    pub fn find(&self, bytes: &[u8]) -> (r: Option<usize>)
        requires
            self.wf(),
        ensures
            match r {
                Some(i) => i < self@.len() && self@[i as int] == bytes@,
                None => !self@.contains(bytes@),
            },
    {
        let f = fingerprint(bytes);
        let mut cur: Option<usize> = match self.heads.get(&f) {
            Some(i) => Some(*i),
            None => None,
        };
        let ghost mut end: int = self@.len() as int;
        loop
            invariant
                self.wf(),
                f == fingerprint_of(bytes@),
                0 <= end <= self@.len(),
                last_with(self@, f, end, cur),
                forall|j: int| end <= j < self@.len() ==> #[trigger] self@[j] != bytes@,
            decreases end,
        {
            match cur {
                None => {
                    assert(!self@.contains(bytes@));
                    return None;
                },
                Some(i) => {
                    if bytes_eq(self.keys[i].as_slice(), bytes) {
                        return Some(i);
                    }
                    assert(self@[i as int] != bytes@);
                    cur = self.older[i];
                    proof {
                        assert(last_with(self@, fingerprint_of(self@[i as int]), i as int, self.older@[i as int]));
                        end = i as int;
                    }
                },
            }
        }
    }

    /// The number of a string, which is stored first if it is new.
    pub fn insert(&mut self, bytes: &[u8]) -> (i: usize)
        requires
            old(self).wf(),
        ensures
            final(self).wf(),
            i < final(self)@.len(),
            final(self)@[i as int] == bytes@,
            old(self)@.contains(bytes@) ==> final(self)@ == old(self)@,
            !old(self)@.contains(bytes@) ==> final(self)@ == old(self)@.push(bytes@) && i == old(self)@.len(),
    {
        match self.find(bytes) {
            Some(i) => i,
            None => {
                let f = fingerprint(bytes);
                let n = self.keys.len();
                let prev: Option<usize> = match self.heads.get(&f) {
                    Some(i) => Some(*i),
                    None => None,
                };
                let ghost before = *self;
                self.keys.push(vstd::slice::slice_to_vec(bytes));
                self.older.push(prev);
                self.heads.insert(f, n);
                proof {
                    assert(self@ =~= before@.push(bytes@));
                    assert forall|g: u64| #![trigger self.heads@.contains_key(g)] last_with(
                        self@,
                        g,
                        self@.len() as int,
                        if self.heads@.contains_key(g) {
                            Some(self.heads@[g])
                        } else {
                            None
                        },
                    ) by {
                        assert(before.heads@.contains_key(g) || !before.heads@.contains_key(g));
                    }
                    assert forall|i: int| 0 <= i < self@.len() implies last_with(
                        self@,
                        fingerprint_of(#[trigger] self@[i]),
                        i,
                        self.older@[i],
                    ) by {
                        if i < n {
                            assert(last_with(before@, fingerprint_of(before@[i]), i, before.older@[i]));
                        } else {
                            assert(before.heads@.contains_key(f) || !before.heads@.contains_key(f));
                        }
                    }
                }
                n
            },
        }
    }

    /// Forgets every string.
    pub fn clear(&mut self)
        ensures
            final(self).wf(),
            final(self)@ == Seq::<Seq<u8>>::empty(),
    {
        self.keys.clear();
        self.older.clear();
        self.heads.clear();
        assert(self@ =~= Seq::<Seq<u8>>::empty());
    }
}

/// A map from byte strings to values, in the order in which the keys first came.
pub struct ByteMap<V> {
    table: ByteTable,
    values: Vec<V>,
}

impl<V> ByteMap<V> {
    /// Every key has its value.
    pub closed spec fn wf(&self) -> bool {
        self.table.wf() && self.values@.len() == self.table@.len()
    }

    /// The keys, in the order in which they first came.
    pub closed spec fn keys(&self) -> Seq<Seq<u8>> {
        self.table@
    }

    /// The values, in the order of their keys.
    pub closed spec fn vals(&self) -> Seq<V> {
        self.values@
    }

    /// Each key has exactly one value.
    pub proof fn lemma_wf(&self)
        requires
            self.wf(),
        ensures
            self.keys().len() == self.vals().len(),
            self.keys().no_duplicates(),
    {
    }

    pub fn new() -> (m: ByteMap<V>)
        ensures
            m.wf(),
            m.keys() == Seq::<Seq<u8>>::empty(),
            m.vals() == Seq::<V>::empty(),
    {
        ByteMap { table: ByteTable::new(), values: Vec::new() }
    }

    pub fn len(&self) -> (n: usize)
        ensures
            n == self.keys().len(),
    {
        self.table.len()
    }

    /// The number of a key.
    pub fn find(&self, key: &[u8]) -> (r: Option<usize>)
        requires
            self.wf(),
        ensures
            match r {
                Some(i) => i < self.keys().len() && self.keys()[i as int] == key@,
                None => !self.keys().contains(key@),
            },
    {
        self.table.find(key)
    }

    pub fn key_at(&self, i: usize) -> (k: &Vec<u8>)
        requires
            self.wf(),
            i < self.keys().len(),
        ensures
            k@ == self.keys()[i as int],
    {
        self.table.key(i)
    }

    pub fn value_at(&self, i: usize) -> (v: &V)
        requires
            self.wf(),
            i < self.keys().len(),
        ensures
            *v == self.vals()[i as int],
    {
        &self.values[i]
    }

    /// Gives a key its value; a value that it had before is replaced.
    pub fn put(&mut self, key: &[u8], value: V)
        requires
            old(self).wf(),
        ensures
            final(self).wf(),
            !old(self).keys().contains(key@) ==> final(self).keys() == old(self).keys().push(key@)
                && final(self).vals() == old(self).vals().push(value),
            forall|i: int|
                0 <= i < old(self).keys().len() && #[trigger] old(self).keys()[i] == key@
                    ==> final(self).keys() == old(self).keys() && final(self).vals() == old(self).vals().update(i, value),
    {
        match self.table.find(key) {
            Some(i) => {
                self.values.set(i, value);
            },
            None => {
                let _ = self.table.insert(key);
                self.values.push(value);
            },
        }
    }
}

} // verus!
