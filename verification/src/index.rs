//! The in-memory index: a mapping from each live key to the location of its
//! most recent record, paired with the running count of reclaimable
//! ("uncompacted") bytes.

use crate::codec::bytes_equal;
use crate::log::CommandPos;
use vstd::prelude::*;

verus! {

/// The model of an entry list: keys as byte sequences.
pub open spec fn entries_view(v: Seq<(Vec<u8>, CommandPos)>) -> Seq<(Seq<u8>, CommandPos)> {
    v.map_values(|e: (Vec<u8>, CommandPos)| (e.0@, e.1))
}

/// The mapping an entry list stands for: later entries win, though the index
/// keeps its keys unique so order never matters.
pub open spec fn amap(s: Seq<(Seq<u8>, CommandPos)>) -> Map<Seq<u8>, CommandPos>
    decreases s.len(),
{
    if s.len() == 0 {
        Map::empty()
    } else {
        amap(s.drop_last()).insert(s.last().0, s.last().1)
    }
}

/// No key occurs twice.
pub open spec fn keys_unique(s: Seq<(Seq<u8>, CommandPos)>) -> bool {
    forall|i: int, j: int| 0 <= i < j < s.len() ==> s[i].0 != s[j].0
}

/// The total length in bytes of the records the entries point at: the size
/// of the live set.
pub open spec fn live_bytes(s: Seq<(Seq<u8>, CommandPos)>) -> int
    decreases s.len(),
{
    if s.len() == 0 {
        0
    } else {
        live_bytes(s.drop_last()) + s.last().1.len
    }
}

/// A key is in the mapping exactly when some entry holds it.
pub proof fn lemma_amap_contains(s: Seq<(Seq<u8>, CommandPos)>, k: Seq<u8>)
    ensures
        amap(s).contains_key(k) <==> exists|i: int| 0 <= i < s.len() && (#[trigger] s[i]).0 == k,
    decreases s.len(),
{
    if s.len() > 0 {
        lemma_amap_contains(s.drop_last(), k);
        if s.last().0 == k {
            assert(s[s.len() - 1].0 == k);
        } else if amap(s).contains_key(k) {
            let i = choose|i: int| 0 <= i < s.drop_last().len() && (#[trigger] s.drop_last()[i]).0
                == k;
            assert(s[i].0 == k);
        } else {
            if exists|i: int| 0 <= i < s.len() && (#[trigger] s[i]).0 == k {
                let i = choose|i: int| 0 <= i < s.len() && (#[trigger] s[i]).0 == k;
                assert(s.drop_last()[i].0 == k);
            }
        }
    }
}

/// With unique keys, the mapping sends each entry's key to that entry's
/// location.
pub proof fn lemma_amap_index(s: Seq<(Seq<u8>, CommandPos)>, i: int)
    requires
        keys_unique(s),
        0 <= i < s.len(),
    ensures
        amap(s).contains_key(s[i].0),
        amap(s)[s[i].0] == s[i].1,
    decreases s.len(),
{
    if i == s.len() - 1 {
    } else {
        assert(s.drop_last()[i] == s[i]);
        lemma_amap_index(s.drop_last(), i);
        assert(s[i].0 != s.last().0);
    }
}

/// A witness entry for a key the mapping contains.
pub proof fn lemma_amap_witness(s: Seq<(Seq<u8>, CommandPos)>, k: Seq<u8>) -> (i: int)
    requires
        keys_unique(s),
        amap(s).contains_key(k),
    ensures
        0 <= i < s.len(),
        s[i].0 == k,
        s[i].1 == amap(s)[k],
{
    lemma_amap_contains(s, k);
    let i = choose|i: int| 0 <= i < s.len() && (#[trigger] s[i]).0 == k;
    lemma_amap_index(s, i);
    i
}

/// Pushing a fresh key inserts it into the mapping.
pub proof fn lemma_amap_push(s: Seq<(Seq<u8>, CommandPos)>, e: (Seq<u8>, CommandPos))
    requires
        keys_unique(s),
        !amap(s).contains_key(e.0),
    ensures
        amap(s.push(e)) == amap(s).insert(e.0, e.1),
        keys_unique(s.push(e)),
        live_bytes(s.push(e)) == live_bytes(s) + e.1.len,
{
    assert(s.push(e).drop_last() =~= s);
    lemma_amap_contains(s, e.0);
    assert forall|i: int, j: int| 0 <= i < j < s.push(e).len() implies s.push(e)[i].0 != s.push(
        e,
    )[j].0 by {
        if j < s.len() {
            assert(s[i].0 != s[j].0);
        } else {
            assert(s.push(e)[i] == s[i]);
        }
    }
}

/// Replacing the location in the entry of an existing key updates the
/// mapping at that key alone.
pub proof fn lemma_amap_update(s: Seq<(Seq<u8>, CommandPos)>, i: int, p: CommandPos)
    requires
        keys_unique(s),
        0 <= i < s.len(),
    ensures
        ({
            let s2 = s.update(i, (s[i].0, p));
            &&& amap(s2) == amap(s).insert(s[i].0, p)
            &&& keys_unique(s2)
            &&& live_bytes(s2) == live_bytes(s) - s[i].1.len + p.len
        }),
    decreases s.len(),
{
    let s2 = s.update(i, (s[i].0, p));
    assert forall|x: int, y: int| 0 <= x < y < s2.len() implies s2[x].0 != s2[y].0 by {
        assert(s[x].0 != s[y].0);
    }
    if i == s.len() - 1 {
        assert(s2.drop_last() =~= s.drop_last());
        assert(amap(s2) =~= amap(s).insert(s[i].0, p));
    } else {
        assert(s2.drop_last() =~= s.drop_last().update(i, (s[i].0, p)));
        assert(s.drop_last()[i] == s[i]);
        lemma_amap_update(s.drop_last(), i, p);
        assert(s[i].0 != s.last().0);
        assert(amap(s2) =~= amap(s).insert(s[i].0, p));
    }
}

/// Removing the entry of a key removes that key from the mapping.
pub proof fn lemma_amap_remove(s: Seq<(Seq<u8>, CommandPos)>, i: int)
    requires
        keys_unique(s),
        0 <= i < s.len(),
    ensures
        amap(s.remove(i)) == amap(s).remove(s[i].0),
        keys_unique(s.remove(i)),
        live_bytes(s.remove(i)) == live_bytes(s) - s[i].1.len,
    decreases s.len(),
{
    let s2 = s.remove(i);
    assert forall|x: int, y: int| 0 <= x < y < s2.len() implies s2[x].0 != s2[y].0 by {
        let x0 = if x < i {
            x
        } else {
            x + 1
        };
        let y0 = if y < i {
            y
        } else {
            y + 1
        };
        assert(s2[x] == s[x0]);
        assert(s2[y] == s[y0]);
        assert(s[x0].0 != s[y0].0);
    }
    if i == s.len() - 1 {
        assert(s2 =~= s.drop_last());
        lemma_amap_contains(s.drop_last(), s[i].0);
        assert(!amap(s.drop_last()).contains_key(s[i].0)) by {
            if amap(s.drop_last()).contains_key(s[i].0) {
                let j = choose|j: int|
                    0 <= j < s.drop_last().len() && (#[trigger] s.drop_last()[j]).0 == s[i].0;
                assert(s[j].0 == s[i].0);
            }
        }
        assert(amap(s2) =~= amap(s).remove(s[i].0));
    } else {
        assert(s2.drop_last() =~= s.drop_last().remove(i));
        assert(s.drop_last()[i] == s[i]);
        lemma_amap_remove(s.drop_last(), i);
        assert(s[i].0 != s.last().0);
        assert(amap(s2) =~= amap(s).remove(s[i].0));
    }
}

/// Each entry's record length is at most the size of the live set.
pub proof fn lemma_live_entry_bound(s: Seq<(Seq<u8>, CommandPos)>, i: int)
    requires
        0 <= i < s.len(),
    ensures
        s[i].1.len <= live_bytes(s),
        live_bytes(s) >= 0,
    decreases s.len(),
{
    lemma_live_nonneg(s);
    if i == s.len() - 1 {
        lemma_live_nonneg(s.drop_last());
    } else {
        assert(s.drop_last()[i] == s[i]);
        lemma_live_entry_bound(s.drop_last(), i);
    }
}

/// The live set never has negative size.
pub proof fn lemma_live_nonneg(s: Seq<(Seq<u8>, CommandPos)>)
    ensures
        live_bytes(s) >= 0,
    decreases s.len(),
{
    if s.len() > 0 {
        lemma_live_nonneg(s.drop_last());
    }
}

/// The index: entries are kept sorted by key (see [`keys_sorted`]), so
/// iteration order is insertion-independent.
pub struct Index {
    pub entries: Vec<(Vec<u8>, CommandPos)>,
    pub uncompacted: u64,
}

impl View for Index {
    type V = Seq<(Seq<u8>, CommandPos)>;

    open spec fn view(&self) -> Seq<(Seq<u8>, CommandPos)> {
        entries_view(self.entries@)
    }
}

impl Index {
    /// Well-formed: keys are unique.
    pub open spec fn wf(&self) -> bool {
        keys_unique(self@) && keys_sorted(self@)
    }

    /// The key-to-location mapping the index holds.
    pub open spec fn mapping(&self) -> Map<Seq<u8>, CommandPos> {
        amap(self@)
    }

    /// The size of the live set the index points at.
    pub open spec fn live(&self) -> int {
        live_bytes(self@)
    }

    /// An empty index.
    pub fn new() -> (r: Index)
        ensures
            r@ == Seq::<(Seq<u8>, CommandPos)>::empty(),
            r.uncompacted == 0,
            r.wf(),
            r.mapping() == Map::<Seq<u8>, CommandPos>::empty(),
            r.live() == 0,
    {
        let r = Index { entries: Vec::new(), uncompacted: 0 };
        proof {
            assert(r@ =~= Seq::<(Seq<u8>, CommandPos)>::empty());
        }
        r
    }

    /// The position of the entry holding `key`, if any.
    fn find(&self, key: &Vec<u8>) -> (r: Option<usize>)
        ensures
            match r {
                Some(i) => i < self@.len() && self@[i as int].0 == key@,
                None => forall|i: int| 0 <= i < self@.len() ==> (#[trigger] self@[i]).0 != key@,
            },
    {
        let mut i: usize = 0;
        while i < self.entries.len()
            invariant
                i <= self@.len(),
                self@.len() == self.entries@.len(),
                forall|j: int| 0 <= j < i ==> (#[trigger] self@[j]).0 != key@,
            decreases self@.len() - i,
        {
            if bytes_equal(&self.entries[i].0, key) {
                proof {
                    assert(self@[i as int].0 == self.entries@[i as int].0@);
                }
                return Some(i);
            }
            i += 1;
        }
        None
    }

    /// Fetch the location of `key`.
    pub fn lookup(&self, key: &Vec<u8>) -> (r: Option<CommandPos>)
        requires
            self.wf(),
        ensures
            match r {
                Some(p) => self.mapping().contains_key(key@) && p == self.mapping()[key@],
                None => !self.mapping().contains_key(key@),
            },
    {
        proof {
            lemma_amap_contains(self@, key@);
        }
        match self.find(key) {
            Some(i) => {
                proof {
                    lemma_amap_index(self@, i as int);
                }
                Some(self.entries[i].1)
            },
            None => None,
        }
    }

    /// Set `key`'s location.  If a previous mapping existed, its record
    /// length is added to the uncompacted counter and the old location is
    /// returned.
    pub fn insert(&mut self, key: Vec<u8>, loc: CommandPos) -> (prev: Option<CommandPos>)
        requires
            old(self).wf(),
            old(self).uncompacted + old(self).live() <= u64::MAX,
        ensures
            final(self).wf(),
            final(self).mapping() == old(self).mapping().insert(key@, loc),
            match prev {
                Some(p) => {
                    &&& old(self).mapping().contains_key(key@)
                    &&& p == old(self).mapping()[key@]
                    &&& final(self).uncompacted == old(self).uncompacted + p.len
                    &&& final(self).live() == old(self).live() - p.len + loc.len
                },
                None => {
                    &&& !old(self).mapping().contains_key(key@)
                    &&& final(self).uncompacted == old(self).uncompacted
                    &&& final(self).live() == old(self).live() + loc.len
                },
            },
    {
        proof {
            lemma_amap_contains(self@, key@);
        }
        match self.find(&key) {
            Some(i) => {
                let p = self.entries[i].1;
                proof {
                    lemma_amap_index(self@, i as int);
                    lemma_amap_update(self@, i as int, loc);
                    lemma_live_entry_bound(self@, i as int);
                    assert(entries_view(self.entries@.update(i as int, (key, loc)))
                        =~= self@.update(i as int, (self@[i as int].0, loc)));
                }
                let ghost before = self@;
                self.entries[i] = (key, loc);
                self.uncompacted = self.uncompacted + p.len as u64;
                proof {
                    assert(keys_sorted(self@)) by {
                        assert forall|x: int, y: int|
                            0 <= x < y < self@.len() implies bytes_lt(self@[x].0, self@[y].0) by {
                            assert(self@[x].0 == before[x].0);
                            assert(self@[y].0 == before[y].0);
                        }
                    }
                }
                Some(p)
            },
            None => {
                let p = self.position_for(&key);
                let ghost before = self@;
                proof {
                    lemma_amap_insert_at(self@, p as int, (key@, loc));
                    assert(entries_view(self.entries@.insert(p as int, (key, loc)))
                        =~= self@.insert(p as int, (key@, loc)));
                }
                self.entries.insert(p, (key, loc));
                proof {
                    assert(keys_sorted(self@)) by {
                        assert forall|x: int, y: int|
                            0 <= x < y < self@.len() implies bytes_lt(self@[x].0, self@[y].0) by {
                            let x0 = if x < p {
                                x
                            } else {
                                x - 1
                            };
                            let y0 = if y < p {
                                y
                            } else {
                                y - 1
                            };
                            if x == p {
                                assert(self@[x].0 == key@);
                                assert(self@[y].0 == before[y0].0);
                                assert(bytes_lt(key@, before[y0].0));
                            } else if y == p {
                                assert(self@[x].0 == before[x0].0);
                            } else {
                                assert(self@[x].0 == before[x0].0);
                                assert(self@[y].0 == before[y0].0);
                                assert(bytes_lt(before[x0].0, before[y0].0));
                            }
                        }
                    }
                }
                None
            },
        }
    }

    /// The position a fresh `key` belongs at to keep the entries ordered:
    /// everything before it is below the key, everything from it on is above.
    fn position_for(&self, key: &Vec<u8>) -> (p: usize)
        requires
            self.wf(),
            forall|i: int| 0 <= i < self@.len() ==> (#[trigger] self@[i]).0 != key@,
        ensures
            p <= self@.len(),
            forall|i: int| 0 <= i < p ==> bytes_lt((#[trigger] self@[i]).0, key@),
            forall|i: int| p <= i < self@.len() ==> bytes_lt(key@, (#[trigger] self@[i]).0),
    {
        let mut p: usize = 0;
        while p < self.entries.len()
            invariant
                p <= self@.len(),
                self@.len() == self.entries@.len(),
                keys_sorted(self@),
                forall|i: int| 0 <= i < self@.len() ==> (#[trigger] self@[i]).0 != key@,
                forall|i: int| 0 <= i < p ==> bytes_lt((#[trigger] self@[i]).0, key@),
            decreases self@.len() - p,
        {
            proof {
                assert(self@[p as int].0 == self.entries@[p as int].0@);
            }
            if !bytes_less(&self.entries[p].0, key) {
                proof {
                    lemma_bytes_lt_connected(self@[p as int].0, key@);
                    assert forall|i: int|
                        p <= i < self@.len() implies bytes_lt(key@, (#[trigger] self@[i]).0) by {
                        if i > p {
                            lemma_bytes_lt_trans(key@, self@[p as int].0, self@[i].0);
                        }
                    }
                }
                return p;
            }
            p += 1;
        }
        p
    }

    /// Delete `key`'s mapping and return its prior location, if any.  The
    /// uncompacted counter is not touched; the engine accounts for the
    /// reclaimed bytes itself.
    pub fn remove(&mut self, key: &Vec<u8>) -> (prev: Option<CommandPos>)
        requires
            old(self).wf(),
        ensures
            final(self).wf(),
            final(self).uncompacted == old(self).uncompacted,
            match prev {
                Some(p) => {
                    &&& old(self).mapping().contains_key(key@)
                    &&& p == old(self).mapping()[key@]
                    &&& final(self).mapping() == old(self).mapping().remove(key@)
                    &&& final(self).live() == old(self).live() - p.len
                },
                None => {
                    &&& !old(self).mapping().contains_key(key@)
                    &&& *final(self) == *old(self)
                },
            },
    {
        proof {
            lemma_amap_contains(self@, key@);
        }
        match self.find(key) {
            Some(i) => {
                let p = self.entries[i].1;
                proof {
                    lemma_amap_index(self@, i as int);
                    lemma_amap_remove(self@, i as int);
                    assert(entries_view(self.entries@.remove(i as int)) =~= self@.remove(
                        i as int,
                    ));
                }
                let ghost before = self@;
                self.entries.remove(i);
                proof {
                    assert(keys_sorted(self@)) by {
                        assert forall|x: int, y: int|
                            0 <= x < y < self@.len() implies bytes_lt(self@[x].0, self@[y].0) by {
                            let x0 = if x < i {
                                x
                            } else {
                                x + 1
                            };
                            let y0 = if y < i {
                                y
                            } else {
                                y + 1
                            };
                            assert(self@[x] == before[x0]);
                            assert(self@[y] == before[y0]);
                            assert(bytes_lt(before[x0].0, before[y0].0));
                        }
                    }
                }
                Some(p)
            },
            None => None,
        }
    }

    /// Add reclaimable bytes the engine has discovered to the counter.
    pub fn add_uncompacted(&mut self, n: u64)
        requires
            old(self).uncompacted + n <= u64::MAX,
        ensures
            final(self)@ == old(self)@,
            final(self).uncompacted == old(self).uncompacted + n,
    {
        self.uncompacted = self.uncompacted + n;
    }

    /// Reset the counter after a compaction pass.
    pub fn reset_uncompacted(&mut self)
        ensures
            final(self)@ == old(self)@,
            final(self).uncompacted == 0,
    {
        self.uncompacted = 0;
    }

    /// Re-point the entry at position `i` (compaction moves records).
    pub fn set_location(&mut self, i: usize, loc: CommandPos)
        requires
            old(self).wf(),
            i < old(self)@.len(),
        ensures
            final(self).wf(),
            final(self)@ == old(self)@.update(i as int, (old(self)@[i as int].0, loc)),
            final(self).uncompacted == old(self).uncompacted,
            final(self).mapping() == old(self).mapping().insert(old(self)@[i as int].0, loc),
            final(self).live() == old(self).live() - old(self)@[i as int].1.len + loc.len,
    {
        let k = crate::codec::copy_bytes(&self.entries[i].0);
        proof {
            lemma_amap_update(self@, i as int, loc);
            assert(entries_view(self.entries@.update(i as int, (k, loc))) =~= self@.update(
                i as int,
                (self@[i as int].0, loc),
            ));
        }
        let ghost before = self@;
        self.entries[i] = (k, loc);
        proof {
            assert(keys_sorted(self@)) by {
                assert forall|x: int, y: int|
                    0 <= x < y < self@.len() implies bytes_lt(self@[x].0, self@[y].0) by {
                    assert(self@[x].0 == before[x].0);
                    assert(self@[y].0 == before[y].0);
                }
            }
        }
    }

    /// The live entries, in ascending key order.
    pub fn live_entries(&self) -> (r: &Vec<(Vec<u8>, CommandPos)>)
        ensures
            r@ == self.entries@,
    {
        &self.entries
    }

    /// The number of live keys.
    pub fn len(&self) -> (r: usize)
        ensures
            r == self@.len(),
    {
        self.entries.len()
    }
}

} // verus!

verus! {

/// Byte-string order: shorter-prefix-first lexicographic order, the order a
/// BTree over byte keys would use.
pub open spec fn bytes_lt(a: Seq<u8>, b: Seq<u8>) -> bool
    decreases a.len(),
{
    if b.len() == 0 {
        false
    } else if a.len() == 0 {
        true
    } else if a[0] < b[0] {
        true
    } else if a[0] > b[0] {
        false
    } else {
        bytes_lt(a.drop_first(), b.drop_first())
    }
}

/// The order is connected: distinct byte strings compare one way or the
/// other.
pub proof fn lemma_bytes_lt_connected(a: Seq<u8>, b: Seq<u8>)
    requires
        a != b,
    ensures
        bytes_lt(a, b) || bytes_lt(b, a),
    decreases a.len(),
{
    if a.len() == 0 {
        if b.len() == 0 {
            assert(a =~= b);
        }
        assert(bytes_lt(a, b));
    } else if b.len() == 0 {
        assert(bytes_lt(b, a));
    } else if a[0] < b[0] {
        assert(bytes_lt(a, b));
    } else if a[0] > b[0] {
        assert(bytes_lt(b, a));
    } else if a[0] == b[0] {
        assert(a.drop_first() != b.drop_first()) by {
            if a.drop_first() == b.drop_first() {
                assert(a.drop_first().len() == b.drop_first().len());
                assert(a.len() == b.len());
                assert(a =~= b) by {
                    assert forall|i: int| 0 <= i < a.len() implies a[i] == b[i] by {
                        if i > 0 {
                            assert(a.drop_first()[i - 1] == b.drop_first()[i - 1]);
                            assert(a.drop_first()[i - 1] == a[i]);
                            assert(b.drop_first()[i - 1] == b[i]);
                        }
                    }
                }
            }
        }
        lemma_bytes_lt_connected(a.drop_first(), b.drop_first());
        assert(bytes_lt(a, b) == bytes_lt(a.drop_first(), b.drop_first()));
        assert(bytes_lt(b, a) == bytes_lt(b.drop_first(), a.drop_first()));
    }
}

/// The order is transitive.
pub proof fn lemma_bytes_lt_trans(a: Seq<u8>, b: Seq<u8>, c: Seq<u8>)
    requires
        bytes_lt(a, b),
        bytes_lt(b, c),
    ensures
        bytes_lt(a, c),
    decreases a.len(),
{
    if a.len() == 0 {
    } else if a[0] == b[0] && b[0] == c[0] {
        lemma_bytes_lt_trans(a.drop_first(), b.drop_first(), c.drop_first());
    }
}

/// The order is irreflexive, so sorted keys are unique.
pub proof fn lemma_bytes_lt_irrefl(a: Seq<u8>)
    ensures
        !bytes_lt(a, a),
    decreases a.len(),
{
    if a.len() > 0 {
        lemma_bytes_lt_irrefl(a.drop_first());
    }
}

/// Compare two byte vectors in the order of [`bytes_lt`].
pub fn bytes_less(a: &Vec<u8>, b: &Vec<u8>) -> (r: bool)
    ensures
        r == bytes_lt(a@, b@),
{
    let n = if a.len() < b.len() {
        a.len()
    } else {
        b.len()
    };
    let mut i: usize = 0;
    proof {
        assert(a@.skip(0) =~= a@);
        assert(b@.skip(0) =~= b@);
    }
    while i < n
        invariant
            i <= n,
            n <= a@.len(),
            n <= b@.len(),
            bytes_lt(a@, b@) == bytes_lt(a@.skip(i as int), b@.skip(i as int)),
        decreases n - i,
    {
        proof {
            assert(a@.skip(i as int)[0] == a@[i as int]);
            assert(b@.skip(i as int)[0] == b@[i as int]);
        }
        if a[i] < b[i] {
            return true;
        }
        if a[i] > b[i] {
            return false;
        }
        proof {
            assert(a@.skip(i as int).drop_first() =~= a@.skip(i + 1));
            assert(b@.skip(i as int).drop_first() =~= b@.skip(i + 1));
        }
        i += 1;
    }
    proof {
        if a@.len() <= b@.len() {
            assert(a@.skip(n as int) =~= Seq::<u8>::empty());
        } else {
            assert(b@.skip(n as int) =~= Seq::<u8>::empty());
        }
    }
    a.len() < b.len()
}

/// Keys ascend along the entry list: the index is ordered by key, so
/// iteration, and with it compaction, is insertion-independent.
pub open spec fn keys_sorted(s: Seq<(Seq<u8>, CommandPos)>) -> bool {
    forall|i: int, j: int| 0 <= i < j < s.len() ==> bytes_lt(s[i].0, s[j].0)
}

/// Inserting an entry with a fresh key at position `p` inserts it into the
/// mapping.
pub proof fn lemma_amap_insert_at(s: Seq<(Seq<u8>, CommandPos)>, p: int, e: (Seq<u8>, CommandPos))
    requires
        keys_unique(s),
        !amap(s).contains_key(e.0),
        0 <= p <= s.len(),
    ensures
        amap(s.insert(p, e)) == amap(s).insert(e.0, e.1),
        keys_unique(s.insert(p, e)),
        live_bytes(s.insert(p, e)) == live_bytes(s) + e.1.len,
    decreases s.len(),
{
    lemma_amap_contains(s, e.0);
    let s2 = s.insert(p, e);
    assert forall|x: int, y: int| 0 <= x < y < s2.len() implies s2[x].0 != s2[y].0 by {
        let x0 = if x < p {
            x
        } else {
            x - 1
        };
        let y0 = if y < p {
            y
        } else {
            y - 1
        };
        if x == p {
            assert(s2[y] == s[y0]);
        } else if y == p {
            assert(s2[x] == s[x0]);
        } else {
            assert(s2[x] == s[x0]);
            assert(s2[y] == s[y0]);
            assert(s[x0].0 != s[y0].0);
        }
    }
    if p == s.len() {
        assert(s2 =~= s.push(e));
        lemma_amap_push(s, e);
    } else {
        assert(s2.drop_last() =~= s.drop_last().insert(p, e));
        assert(s2.last() == s.last());
        assert(!amap(s.drop_last()).contains_key(e.0)) by {
            lemma_amap_contains(s.drop_last(), e.0);
            if amap(s.drop_last()).contains_key(e.0) {
                let i = choose|i: int|
                    0 <= i < s.drop_last().len() && (#[trigger] s.drop_last()[i]).0 == e.0;
                assert(s[i].0 == e.0);
            }
        }
        lemma_amap_insert_at(s.drop_last(), p, e);
        assert(s.last().0 != e.0) by {
            assert(s[s.len() - 1].0 == s.last().0);
        }
        assert(amap(s2) =~= amap(s).insert(e.0, e.1));
    }
}

} // verus!
