//! The segmented log: an ordered collection of numbered log files
//! ("generations"), held as in-memory images of their byte contents.
//!
//! The last segment is the current generation, the only one that receives
//! appends.  Earlier segments are frozen; compaction eventually drops them.

use crate::codec::{copy_bytes, decode_command_at, spec_decode_rec_at, Command, Decoded,
    SpecRecDecode};
use crate::error::KvError;
use vstd::prelude::*;
use vstd::slice::*;

verus! {

/// The location of one encoded record: the generation (log file) it sits in,
/// its byte offset there, and its encoded length in bytes.
#[derive(Clone, Copy, Debug, PartialEq, Eq, Structural)]
pub struct CommandPos {
    pub gen: u64,
    pub pos: usize,
    pub len: usize,
}

/// One log file image: its generation number and its byte contents.
pub struct Segment {
    pub gen: u64,
    pub data: Vec<u8>,
}

/// The mathematical model of a segment.
#[verifier::ext_equal]
pub struct SegView {
    pub gen: u64,
    pub data: Seq<u8>,
}

impl View for Segment {
    type V = SegView;

    open spec fn view(&self) -> SegView {
        SegView { gen: self.gen, data: self.data@ }
    }
}

/// The model of a sequence of segments.
pub open spec fn segs_view(v: Seq<Segment>) -> Seq<SegView> {
    v.map_values(|s: Segment| s@)
}

/// Generation numbers strictly ascend along the sequence.
pub open spec fn gens_sorted(s: Seq<SegView>) -> bool {
    forall|i: int, j: int| 0 <= i < j < s.len() ==> s[i].gen < s[j].gen
}

/// Whether some segment has generation `gen`.
pub open spec fn has_gen(s: Seq<SegView>, gen: u64) -> bool {
    exists|i: int| 0 <= i < s.len() && (#[trigger] s[i]).gen == gen
}

/// The contents of the segment with generation `gen` (empty if there is
/// none; unambiguous when generations are unique).
pub open spec fn seg_data(s: Seq<SegView>, gen: u64) -> Seq<u8>
    decreases s.len(),
{
    if s.len() == 0 {
        seq![]
    } else if s.last().gen == gen {
        s.last().data
    } else {
        seg_data(s.drop_last(), gen)
    }
}

/// The total byte size of all segments.
pub open spec fn total_bytes(s: Seq<SegView>) -> int
    decreases s.len(),
{
    if s.len() == 0 {
        0
    } else {
        total_bytes(s.drop_last()) + s.last().data.len()
    }
}

/// The on-disk image the segments stand for: generation number to file
/// contents.
pub open spec fn disk_of(s: Seq<SegView>) -> Map<u64, Seq<u8>>
    decreases s.len(),
{
    if s.len() == 0 {
        Map::empty()
    } else {
        disk_of(s.drop_last()).insert(s.last().gen, s.last().data)
    }
}

/// How pushing a segment with a fresh generation changes the derived views.
pub proof fn lemma_segs_push(s: Seq<SegView>, x: SegView)
    requires
        !has_gen(s, x.gen),
    ensures
        forall|g: u64|
            #[trigger] seg_data(s.push(x), g) == if x.gen == g {
                x.data
            } else {
                seg_data(s, g)
            },
        forall|g: u64| #[trigger] has_gen(s.push(x), g) <==> (g == x.gen || has_gen(s, g)),
        total_bytes(s.push(x)) == total_bytes(s) + x.data.len(),
        disk_of(s.push(x)) == disk_of(s).insert(x.gen, x.data),
{
    assert(s.push(x).drop_last() =~= s);
    assert forall|g: u64| #[trigger] has_gen(s.push(x), g) <==> (g == x.gen || has_gen(s, g)) by {
        if has_gen(s.push(x), g) {
            let i = choose|i: int| 0 <= i < s.push(x).len() && (#[trigger] s.push(x)[i]).gen == g;
            if i < s.len() {
                assert(s[i].gen == g);
            }
        }
        if has_gen(s, g) {
            let i = choose|i: int| 0 <= i < s.len() && (#[trigger] s[i]).gen == g;
            assert(s.push(x)[i].gen == g);
        }
        if g == x.gen {
            assert(s.push(x)[s.len() as int].gen == g);
        }
    }
}

/// Extending the last segment's data leaves every other segment's contents,
/// and the set of generations, unchanged.
pub proof fn lemma_segs_extend_last(s: Seq<SegView>, add: Seq<u8>)
    requires
        s.len() > 0,
        gens_sorted(s),
    ensures
        ({
            let g0 = s.last().gen;
            let s2 = s.update(s.len() - 1, SegView { gen: g0, data: s.last().data + add });
            &&& gens_sorted(s2)
            &&& forall|g: u64| #[trigger] has_gen(s2, g) <==> has_gen(s, g)
            &&& forall|g: u64|
                g != g0 ==> #[trigger] seg_data(s2, g) == seg_data(s, g)
            &&& seg_data(s2, g0) == s.last().data + add
            &&& total_bytes(s2) == total_bytes(s) + add.len()
            &&& disk_of(s2) == disk_of(s).insert(g0, s.last().data + add)
        }),
{
    let g0 = s.last().gen;
    let s2 = s.update(s.len() - 1, SegView { gen: g0, data: s.last().data + add });
    assert(s2.drop_last() =~= s.drop_last());
    assert forall|g: u64| #[trigger] has_gen(s2, g) <==> has_gen(s, g) by {
        if has_gen(s2, g) {
            let i = choose|i: int| 0 <= i < s2.len() && (#[trigger] s2[i]).gen == g;
            assert(s[i].gen == g);
        }
        if has_gen(s, g) {
            let i = choose|i: int| 0 <= i < s.len() && (#[trigger] s[i]).gen == g;
            assert(s2[i].gen == g);
        }
    }
    assert(disk_of(s2) =~= disk_of(s).insert(g0, s.last().data + add));
}

/// Replacing the last segment's data leaves every other segment's contents,
/// and the set of generations, unchanged.
pub proof fn lemma_segs_set_last(s: Seq<SegView>, d: Seq<u8>)
    requires
        s.len() > 0,
        gens_sorted(s),
    ensures
        ({
            let g0 = s.last().gen;
            let s2 = s.update(s.len() - 1, SegView { gen: g0, data: d });
            &&& gens_sorted(s2)
            &&& forall|g: u64| #[trigger] has_gen(s2, g) <==> has_gen(s, g)
            &&& forall|g: u64|
                g != g0 ==> #[trigger] seg_data(s2, g) == seg_data(s, g)
            &&& seg_data(s2, g0) == d
            &&& total_bytes(s2) == total_bytes(s) - s.last().data.len() + d.len()
            &&& disk_of(s2) == disk_of(s).insert(g0, d)
        }),
{
    let g0 = s.last().gen;
    let s2 = s.update(s.len() - 1, SegView { gen: g0, data: d });
    assert(s2.drop_last() =~= s.drop_last());
    assert forall|g: u64| #[trigger] has_gen(s2, g) <==> has_gen(s, g) by {
        if has_gen(s2, g) {
            let i = choose|i: int| 0 <= i < s2.len() && (#[trigger] s2[i]).gen == g;
            assert(s[i].gen == g);
        }
        if has_gen(s, g) {
            let i = choose|i: int| 0 <= i < s.len() && (#[trigger] s[i]).gen == g;
            assert(s2[i].gen == g);
        }
    }
    assert(disk_of(s2) =~= disk_of(s).insert(g0, d));
}

/// In a sorted sequence, the segment at index `j` is the one `seg_data`
/// finds for its generation.
pub proof fn lemma_seg_data_index(s: Seq<SegView>, j: int)
    requires
        gens_sorted(s),
        0 <= j < s.len(),
    ensures
        seg_data(s, s[j].gen) == s[j].data,
        has_gen(s, s[j].gen),
    decreases s.len(),
{
    if j == s.len() - 1 {
    } else {
        assert(s.drop_last()[j] == s[j]);
        lemma_seg_data_index(s.drop_last(), j);
    }
}

/// A generation no segment has maps to empty contents.
pub proof fn lemma_seg_data_absent(s: Seq<SegView>, g: u64)
    requires
        !has_gen(s, g),
    ensures
        seg_data(s, g) == Seq::<u8>::empty(),
    decreases s.len(),
{
    if s.len() > 0 {
        assert(s[s.len() - 1].gen != g);
        assert(!has_gen(s.drop_last(), g)) by {
            if has_gen(s.drop_last(), g) {
                let i = choose|i: int|
                    0 <= i < s.drop_last().len() && (#[trigger] s.drop_last()[i]).gen == g;
                assert(s[i].gen == g);
            }
        }
        lemma_seg_data_absent(s.drop_last(), g);
    }
}

/// Removing the first segment removes exactly its generation from the disk
/// image and shrinks the total by its size.
pub proof fn lemma_disk_drop_first(s: Seq<SegView>)
    requires
        s.len() > 0,
        gens_sorted(s),
    ensures
        disk_of(s.drop_first()) == disk_of(s).remove(s[0].gen),
        total_bytes(s.drop_first()) == total_bytes(s) - s[0].data.len(),
    decreases s.len(),
{
    if s.len() == 1 {
        assert(s.drop_first() =~= Seq::<SegView>::empty());
        assert(s.drop_last() =~= Seq::<SegView>::empty());
        assert(disk_of(s.drop_last()) =~= Map::<u64, Seq<u8>>::empty());
        assert(s.last() == s[0]);
        assert(disk_of(s.drop_first()) =~= disk_of(s).remove(s[0].gen));
    } else {
        let t = s.drop_last();
        lemma_disk_drop_first(t);
        assert(t[0] == s[0]);
        assert(s.drop_first().drop_last() =~= t.drop_first());
        assert(s.drop_first().last() == s.last());
        assert(s[0].gen != s.last().gen);
        assert(disk_of(s.drop_first()) == disk_of(t.drop_first()).insert(
            s.last().gen,
            s.last().data,
        ));
        assert(disk_of(t).remove(s[0].gen).insert(s.last().gen, s.last().data) =~= disk_of(
            t,
        ).insert(s.last().gen, s.last().data).remove(s[0].gen));
    }
}

/// Removing the first segment leaves every other generation's contents, and
/// its presence, unchanged.
pub proof fn lemma_segs_drop_first(s: Seq<SegView>)
    requires
        s.len() > 0,
        gens_sorted(s),
    ensures
        gens_sorted(s.drop_first()),
        disk_of(s.drop_first()) == disk_of(s).remove(s[0].gen),
        total_bytes(s.drop_first()) == total_bytes(s) - s[0].data.len(),
        forall|g: u64|
            g != s[0].gen ==> (#[trigger] seg_data(s.drop_first(), g) == seg_data(s, g) && (
            has_gen(s.drop_first(), g) <==> has_gen(s, g))),
        !has_gen(s.drop_first(), s[0].gen),
{
    lemma_disk_drop_first(s);
    let t = s.drop_first();
    assert(gens_sorted(t)) by {
        assert forall|i: int, j: int| 0 <= i < j < t.len() implies t[i].gen < t[j].gen by {
            assert(t[i] == s[i + 1]);
            assert(t[j] == s[j + 1]);
        }
    }
    assert forall|g: u64|
        g != s[0].gen implies (#[trigger] seg_data(t, g) == seg_data(s, g) && (has_gen(t, g)
        <==> has_gen(s, g))) by {
        if has_gen(s, g) {
            let i = choose|i: int| 0 <= i < s.len() && (#[trigger] s[i]).gen == g;
            assert(i >= 1);
            assert(t[i - 1] == s[i]);
            assert(has_gen(t, g));
            lemma_seg_data_index(s, i);
            lemma_seg_data_index(t, i - 1);
        } else {
            assert(!has_gen(t, g)) by {
                if has_gen(t, g) {
                    let i = choose|i: int| 0 <= i < t.len() && (#[trigger] t[i]).gen == g;
                    assert(s[i + 1].gen == g);
                }
            }
            lemma_seg_data_absent(s, g);
            lemma_seg_data_absent(t, g);
        }
    }
    assert(!has_gen(t, s[0].gen)) by {
        if has_gen(t, s[0].gen) {
            let i = choose|i: int| 0 <= i < t.len() && (#[trigger] t[i]).gen == s[0].gen;
            assert(s[i + 1].gen == s[0].gen);
        }
    }
}

/// The segmented log.
pub struct SegLog {
    pub segments: Vec<Segment>,
}

impl View for SegLog {
    type V = Seq<SegView>;

    open spec fn view(&self) -> Seq<SegView> {
        segs_view(self.segments@)
    }
}

impl SegLog {
    /// Well-formed: at least one segment, generations strictly ascending.
    pub open spec fn wf(&self) -> bool {
        self@.len() > 0 && gens_sorted(self@)
    }

    /// The generation currently open for append.
    pub open spec fn spec_current_gen(&self) -> u64 {
        self@.last().gen
    }

    /// The generation currently open for append.
    pub fn current_gen(&self) -> (r: u64)
        requires
            self@.len() > 0,
        ensures
            r == self.spec_current_gen(),
    {
        self.segments[self.segments.len() - 1].gen
    }

    /// Append encoded bytes to the current generation; the returned location
    /// records where they landed.  The offset is the writer position before
    /// the append and the post-append position is `pos + len`.
    pub fn append(&mut self, bytes: &Vec<u8>) -> (r: CommandPos)
        requires
            old(self)@.len() > 0,
        ensures
            final(self)@ == old(self)@.update(
                old(self)@.len() - 1,
                SegView {
                    gen: old(self).spec_current_gen(),
                    data: old(self)@.last().data + bytes@,
                },
            ),
            r.gen == old(self).spec_current_gen(),
            r.pos == old(self)@.last().data.len(),
            r.len == bytes@.len(),
    {
        let mut seg = self.segments.pop().unwrap();
        let start = seg.data.len();
        let mut add = copy_bytes(bytes);
        seg.data.append(&mut add);
        let gen = seg.gen;
        let len = bytes.len();
        self.segments.push(seg);
        proof {
            assert(self@ =~= old(self)@.update(
                old(self)@.len() - 1,
                SegView {
                    gen: old(self).spec_current_gen(),
                    data: old(self)@.last().data + bytes@,
                },
            ));
        }
        CommandPos { gen, pos: start, len }
    }

    /// Open a fresh, empty segment for the next generation and make it the
    /// current one.
    pub fn rotate(&mut self) -> (r: u64)
        requires
            old(self).wf(),
            old(self).spec_current_gen() < u64::MAX,
        ensures
            r == old(self).spec_current_gen() + 1,
            final(self)@ == old(self)@.push(SegView { gen: r, data: seq![] }),
            final(self).wf(),
            final(self).spec_current_gen() == r,
    {
        let g = self.current_gen() + 1;
        self.segments.push(Segment { gen: g, data: Vec::new() });
        proof {
            assert(self@ =~= old(self)@.push(SegView { gen: g, data: seq![] }));
        }
        g
    }

    /// Close and delete the oldest generation; returns its number.
    pub fn drop_first(&mut self) -> (g: u64)
        requires
            old(self)@.len() > 1,
            gens_sorted(old(self)@),
        ensures
            g == old(self)@[0].gen,
            final(self)@ == old(self)@.drop_first(),
            final(self).wf(),
    {
        let seg = self.segments.remove(0);
        proof {
            assert(self@ =~= old(self)@.drop_first());
            lemma_segs_drop_first(old(self)@);
        }
        seg.gen
    }

    /// The raw bytes of the record at `loc`.
    pub fn copy_record_bytes(&self, loc: CommandPos) -> (r: Vec<u8>)
        requires
            gens_sorted(self@),
            has_gen(self@, loc.gen),
            loc.pos + loc.len <= seg_data(self@, loc.gen).len(),
        ensures
            r@ == seg_data(self@, loc.gen).subrange(loc.pos as int, loc.pos + loc.len),
    {
        let mut j: usize = 0;
        while j < self.segments.len()
            invariant
                j <= self@.len(),
                gens_sorted(self@),
                has_gen(self@, loc.gen),
                loc.pos + loc.len <= seg_data(self@, loc.gen).len(),
                forall|i: int| 0 <= i < j ==> (#[trigger] self@[i]).gen != loc.gen,
            decreases self@.len() - j,
        {
            if self.segments[j].gen == loc.gen {
                proof {
                    assert(self@[j as int] == self.segments@[j as int]@);
                    lemma_seg_data_index(self@, j as int);
                    assert(seg_data(self@, loc.gen) == self.segments@[j as int].data@);
                    assert(loc.pos + loc.len <= self.segments@[j as int].data@.len());
                }
                let seg = &self.segments[j];
                let dlen = seg.data.len();
                proof {
                    assert(loc.pos + loc.len <= dlen);
                }
                return slice_to_vec(
                    slice_subrange(seg.data.as_slice(), loc.pos, loc.pos + loc.len),
                );
            }
            j += 1;
        }
        proof {
            let i = choose|i: int| 0 <= i < self@.len() && (#[trigger] self@[i]).gen == loc.gen;
            assert(false);
        }
        vstd::pervasive::unreached()
    }

    /// Seek to `loc` and decode exactly one record there.
    pub fn read_at(&self, loc: CommandPos) -> (r: Result<Command, KvError>)
        requires
            gens_sorted(self@),
            has_gen(self@, loc.gen),
            loc.pos <= seg_data(self@, loc.gen).len(),
        ensures
            match r {
                Ok(cmd) => spec_decode_rec_at(seg_data(self@, loc.gen), loc.pos as int)
                    == (SpecRecDecode::Found { rec: cmd@, len: loc.len as int }),
                Err(e) => {
                    &&& !(spec_decode_rec_at(seg_data(self@, loc.gen), loc.pos as int) matches
                        SpecRecDecode::Found { rec, len } && len == loc.len)
                    &&& (e == KvError::CorruptRecord || e == KvError::EndOfStream)
                },
            },
    {
        let mut j: usize = 0;
        while j < self.segments.len()
            invariant
                j <= self@.len(),
                gens_sorted(self@),
                has_gen(self@, loc.gen),
                loc.pos <= seg_data(self@, loc.gen).len(),
                forall|i: int| 0 <= i < j ==> (#[trigger] self@[i]).gen != loc.gen,
            decreases self@.len() - j,
        {
            if self.segments[j].gen == loc.gen {
                proof {
                    assert(self@[j as int] == self.segments@[j as int]@);
                    lemma_seg_data_index(self@, j as int);
                }
                let seg = &self.segments[j];
                return match decode_command_at(&seg.data, loc.pos) {
                    Decoded::Found { cmd, len } => {
                        if len == loc.len {
                            Ok(cmd)
                        } else {
                            Err(KvError::CorruptRecord)
                        }
                    },
                    Decoded::Corrupt => Err(KvError::CorruptRecord),
                    Decoded::AtEnd => Err(KvError::EndOfStream),
                    Decoded::Truncated => Err(KvError::EndOfStream),
                };
            }
            j += 1;
        }
        proof {
            let i = choose|i: int| 0 <= i < self@.len() && (#[trigger] self@[i]).gen == loc.gen;
            assert(false);
        }
        vstd::pervasive::unreached()
    }
}

} // verus!

verus! {

/// Strict order follows from adjacent order.
proof fn lemma_gen_chain(s: Seq<SegView>, i: int, j: int)
    requires
        forall|x: int| 0 <= x < s.len() - 1 ==> (#[trigger] s[x]).gen < s[x + 1].gen,
        0 <= i < j < s.len(),
    ensures
        s[i].gen < s[j].gen,
    decreases j - i,
{
    if j == i + 1 {
        assert(s[i].gen < s[i + 1].gen);
    } else {
        lemma_gen_chain(s, i, j - 1);
        assert(s[j - 1].gen < s[j].gen);
    }
}

/// Whether the generations strictly ascend: true for every list built from a
/// real directory, whose file names are unique.
pub fn segments_strictly_sorted(segs: &Vec<Segment>) -> (r: bool)
    ensures
        r == gens_sorted(segs_view(segs@)),
{
    let ghost v = segs_view(segs@);
    if segs.len() == 0 {
        return true;
    }
    let mut i: usize = 0;
    while i < segs.len() - 1
        invariant
            v == segs_view(segs@),
            i < segs@.len(),
            forall|x: int| 0 <= x < i ==> (#[trigger] v[x]).gen < v[x + 1].gen,
        decreases segs@.len() - i,
    {
        if segs[i].gen >= segs[i + 1].gen {
            proof {
                assert(v[i as int].gen >= v[i + 1].gen);
            }
            return false;
        }
        i += 1;
    }
    proof {
        assert forall|x: int, y: int| 0 <= x < y < v.len() implies v[x].gen < v[y].gen by {
            lemma_gen_chain(v, x, y);
        }
    }
    true
}

/// Sort segment images into ascending generation order, as startup does
/// with the numbered files it finds: the result holds exactly the same
/// segments.
pub fn sort_segments(segs: Vec<Segment>) -> (r: Vec<Segment>)
    ensures
        segs_view(r@).to_multiset() == segs_view(segs@).to_multiset(),
        r@.len() == segs@.len(),
        forall|i: int, j: int|
            0 <= i < j < r@.len() ==> (#[trigger] segs_view(r@)[i]).gen <= (#[trigger] segs_view(
                r@,
            )[j]).gen,
{
    broadcast use vstd::seq_lib::group_to_multiset_ensures;

    let ghost whole = segs_view(segs@);
    let mut rest = segs;
    let mut out: Vec<Segment> = Vec::new();
    proof {
        assert(segs_view(out@) =~= Seq::<SegView>::empty());
        assert(segs_view(out@).to_multiset().add(segs_view(rest@).to_multiset())
            =~= whole.to_multiset());
    }
    while rest.len() > 0
        invariant
            whole == segs_view(segs@),
            segs_view(out@).to_multiset().add(segs_view(rest@).to_multiset())
                == whole.to_multiset(),
            out@.len() + rest@.len() == segs@.len(),
            forall|i: int, j: int|
                0 <= i < j < out@.len() ==> (#[trigger] segs_view(out@)[i]).gen <= (
                #[trigger] segs_view(out@)[j]).gen,
            forall|i: int, j: int|
                0 <= i < out@.len() && 0 <= j < rest@.len() ==> (#[trigger] segs_view(
                    out@,
                )[i]).gen <= (#[trigger] segs_view(rest@)[j]).gen,
        decreases rest@.len(),
    {
        broadcast use vstd::seq_lib::group_to_multiset_ensures;

        // the position of the smallest remaining generation
        let mut m: usize = 0;
        let mut i: usize = 1;
        while i < rest.len()
            invariant
                m < i <= rest@.len(),
                rest@.len() > 0,
                forall|j: int|
                    0 <= j < i ==> (#[trigger] segs_view(rest@)[m as int]).gen <= segs_view(
                        rest@,
                    )[j].gen,
            decreases rest@.len() - i,
        {
            if rest[i].gen < rest[m].gen {
                m = i;
            }
            i += 1;
        }
        let ghost outb = segs_view(out@);
        let ghost restb = segs_view(rest@);
        let picked = rest.remove(m);
        out.push(picked);
        proof {
            assert(segs_view(out@) =~= outb.push(restb[m as int]));
            assert(segs_view(rest@) =~= restb.remove(m as int));
            assert(segs_view(out@).to_multiset() =~= outb.to_multiset().insert(
                restb[m as int],
            ));
            assert(segs_view(rest@).to_multiset() =~= restb.to_multiset().remove(
                restb[m as int],
            ));
            assert(restb.to_multiset().count(restb[m as int]) >= 1) by {
                assert(restb.contains(restb[m as int]));
            }
            assert(segs_view(out@).to_multiset().add(segs_view(rest@).to_multiset())
                =~= outb.to_multiset().add(restb.to_multiset()));
            assert forall|i2: int, j2: int|
                0 <= i2 < out@.len() && 0 <= j2 < rest@.len() implies (#[trigger] segs_view(
                out@,
            )[i2]).gen <= (#[trigger] segs_view(rest@)[j2]).gen by {
                let j0 = if j2 < m {
                    j2
                } else {
                    j2 + 1
                };
                assert(segs_view(rest@)[j2] == restb[j0]);
                if i2 < out@.len() - 1 {
                    assert(segs_view(out@)[i2] == outb[i2]);
                } else {
                    assert(segs_view(out@)[i2] == restb[m as int]);
                }
            }
        }
    }
    out
}

} // verus!

verus! {

/// The value of a decimal digit string, most significant digit first.
pub open spec fn dec_value(s: Seq<u8>) -> int
    decreases s.len(),
{
    if s.len() == 0 {
        0
    } else {
        dec_value(s.drop_last()) * 10 + (s.last() - 48)
    }
}

/// Every byte is an ASCII decimal digit.
pub open spec fn all_digits(s: Seq<u8>) -> bool {
    forall|i: int| 0 <= i < s.len() ==> 48 <= #[trigger] s[i] <= 57
}

/// The ASCII bytes of `.log`.
pub open spec fn log_suffix() -> Seq<u8> {
    seq![46u8, 108u8, 111u8, 103u8]
}

/// Whether `s` is a log file's name for generation `g`: one or more decimal
/// digits spelling `g`, then `.log`.
pub open spec fn is_log_name(s: Seq<u8>, g: u64) -> bool {
    &&& s.len() > 4
    &&& s.subrange(s.len() - 4, s.len() as int) == log_suffix()
    &&& all_digits(s.subrange(0, s.len() - 4))
    &&& dec_value(s.subrange(0, s.len() - 4)) == g
}

/// A digit string's value is never negative.
pub proof fn lemma_dec_value_nonneg(s: Seq<u8>)
    requires
        all_digits(s),
    ensures
        dec_value(s) >= 0,
    decreases s.len(),
{
    if s.len() > 0 {
        assert(all_digits(s.drop_last())) by {
            assert forall|i: int| 0 <= i < s.drop_last().len() implies 48 <= #[trigger] s.drop_last()[i] <= 57 by {
                assert(s.drop_last()[i] == s[i]);
            }
        }
        lemma_dec_value_nonneg(s.drop_last());
        assert(48 <= s[s.len() - 1] <= 57);
    }
}

/// Reading more digits never shrinks the value.
pub proof fn lemma_dec_value_monotone(s: Seq<u8>, j: int)
    requires
        all_digits(s),
        0 <= j <= s.len(),
    ensures
        dec_value(s) >= dec_value(s.take(j)),
    decreases s.len() - j,
{
    if j == s.len() {
        assert(s.take(j) =~= s);
    } else {
        assert(all_digits(s.take(j))) by {
            assert forall|i: int| 0 <= i < s.take(j).len() implies 48 <= #[trigger] s.take(j)[i]
                <= 57 by {
                assert(s.take(j)[i] == s[i]);
            }
        }
        lemma_dec_value_nonneg(s.take(j));
        assert(s.take(j + 1).drop_last() =~= s.take(j));
        assert(s.take(j + 1).last() == s[j]);
        assert(48 <= s[j] <= 57);
        assert(dec_value(s.take(j + 1)) == dec_value(s.take(j)) * 10 + (s[j] - 48));
        lemma_dec_value_monotone(s, j + 1);
    }
}

/// The canonical digit string of `g`: no leading zeros.
pub open spec fn dec_digits(g: int) -> Seq<u8>
    decreases g,
{
    if g < 10 {
        seq![(g + 48) as u8]
    } else {
        dec_digits(g / 10).push((g % 10 + 48) as u8)
    }
}

/// The canonical digit string spells its number.
pub proof fn lemma_dec_digits(g: int)
    requires
        0 <= g,
    ensures
        all_digits(dec_digits(g)),
        dec_value(dec_digits(g)) == g,
        dec_digits(g).len() >= 1,
    decreases g,
{
    if g < 10 {
        assert(dec_value(dec_digits(g)) == g) by {
            assert(dec_digits(g).drop_last() =~= Seq::<u8>::empty());
            assert(dec_value(Seq::<u8>::empty()) == 0);
            assert(dec_digits(g).last() == (g + 48) as u8);
        }
    } else {
        lemma_dec_digits(g / 10);
        let d = dec_digits(g);
        assert(d.drop_last() =~= dec_digits(g / 10));
        assert(dec_value(d) == (g / 10) * 10 + (g % 10));
        assert forall|i: int| 0 <= i < d.len() implies 48 <= #[trigger] d[i] <= 57 by {
            if i < d.len() - 1 {
                assert(d[i] == dec_digits(g / 10)[i]);
            }
        }
    }
}

/// Append the decimal digits of `g`, most significant first.
fn push_decimal(g: u64, out: &mut Vec<u8>)
    ensures
        final(out)@ == old(out)@ + dec_digits(g as int),
    decreases g,
{
    if g >= 10 {
        push_decimal(g / 10, out);
    }
    out.push((g % 10) as u8 + 48);
    proof {
        assert(out@ =~= old(out)@ + dec_digits(g as int));
    }
}

/// The file name of a generation: `<gen>.log`, in canonical decimal.  The
/// embedding application joins it to the data directory.
pub fn log_path(gen: u64) -> (r: Vec<u8>)
    ensures
        is_log_name(r@, gen),
        r@ == dec_digits(gen as int) + log_suffix(),
{
    let mut out: Vec<u8> = Vec::new();
    push_decimal(gen, &mut out);
    out.push(46);
    out.push(108);
    out.push(111);
    out.push(103);
    proof {
        lemma_dec_digits(gen as int);
        assert(out@ =~= dec_digits(gen as int) + log_suffix());
        assert(out@.subrange(out@.len() - 4, out@.len() as int) =~= log_suffix());
        assert(out@.subrange(0, out@.len() - 4) =~= dec_digits(gen as int));
    }
    out
}

/// Parse a directory entry's name: `Some(g)` exactly when the name is
/// `<g>.log` for a generation that fits in 64 bits.
pub fn parse_log_path(name: &Vec<u8>) -> (r: Option<u64>)
    ensures
        match r {
            Some(g) => is_log_name(name@, g),
            None => forall|g: u64| !is_log_name(name@, g),
        },
{
    let len = name.len();
    if len <= 4 {
        return None;
    }
    let dl = len - 4;
    if name[dl] != 46 || name[dl + 1] != 108 || name[dl + 2] != 111 || name[dl + 3] != 103 {
        proof {
            assert forall|g: u64| !is_log_name(name@, g) by {
                if is_log_name(name@, g) {
                    assert(name@.subrange(name@.len() - 4, name@.len() as int)[0] == 46u8);
                    assert(name@.subrange(name@.len() - 4, name@.len() as int)[1] == 108u8);
                    assert(name@.subrange(name@.len() - 4, name@.len() as int)[2] == 111u8);
                    assert(name@.subrange(name@.len() - 4, name@.len() as int)[3] == 103u8);
                }
            }
        }
        return None;
    }
    let ghost digits = name@.subrange(0, dl as int);
    let mut g: u64 = 0;
    let mut i: usize = 0;
    while i < dl
        invariant
            i <= dl,
            dl == name@.len() - 4,
            name@.len() > 4,
            digits == name@.subrange(0, dl as int),
            forall|j: int| 0 <= j < i ==> 48 <= #[trigger] digits[j] <= 57,
            g as int == dec_value(digits.take(i as int)),
        decreases dl - i,
    {
        let c = name[i];
        if c < 48 || c > 57 {
            proof {
                assert(digits[i as int] == c);
                assert forall|g2: u64| !is_log_name(name@, g2) by {
                    if is_log_name(name@, g2) {
                        assert(48 <= digits[i as int] <= 57);
                    }
                }
            }
            return None;
        }
        let d = (c - 48) as u64;
        if g > 1844674407370955161u64 || (g == 1844674407370955161u64 && d > 5) {
            proof {
                assert(g as int * 10 + d > u64::MAX);
                assert forall|g2: u64| !is_log_name(name@, g2) by {
                    if is_log_name(name@, g2) {
                        assert(all_digits(digits));
                        assert(digits.take(i + 1).drop_last() =~= digits.take(i as int));
                        assert(digits.take(i + 1).last() == digits[i as int]);
                        assert(dec_value(digits.take(i + 1)) == g as int * 10 + d);
                        lemma_dec_value_monotone(digits, i + 1);
                        assert(dec_value(digits) > u64::MAX);
                    }
                }
            }
            return None;
        }
        proof {
            assert(digits.take(i + 1).drop_last() =~= digits.take(i as int));
            assert(digits.take(i + 1).last() == digits[i as int]);
        }
        g = g * 10 + d;
        i += 1;
    }
    proof {
        assert(digits.take(dl as int) =~= digits);
        assert(all_digits(digits));
        assert(name@.subrange(name@.len() - 4, name@.len() as int) =~= log_suffix());
    }
    Some(g)
}

} // verus!
