//! The log-structured storage engine.
//!
//! The engine owns an in-memory image of its data directory (the segmented
//! log), the in-memory index, and the uncompacted-byte counter.  Every
//! mutation returns a list of [`Action`] values; the embedding application
//! applies them to the real directory, in order, before acknowledging the
//! operation, which keeps the directory equal to [`KvStore::disk`].  On
//! startup the application reads the directory back in and hands it to
//! [`KvStore::open`].

use crate::codec::{decode_command_at, encode_command, lemma_encode_rec_len,
    lemma_rec_decode_encode, lemma_rec_decode_prefix, lemma_rec_decode_props, lemma_scan_append,
    lemma_scan_empty, spec_decode_rec_at, spec_encode_rec, spec_scan, spec_scan_from, Command,
    Decoded, Rec, ScanEnd, SpecRecDecode, SpecScan, FRAME_OVERHEAD};
use crate::error::KvError;
use crate::index::{amap, entries_view, keys_unique, lemma_amap_contains, lemma_amap_index,
    lemma_amap_witness, lemma_live_nonneg, live_bytes, Index};
use crate::log::{disk_of, gens_sorted, has_gen, lemma_seg_data_index, lemma_segs_drop_first,
    lemma_segs_extend_last, lemma_segs_push, lemma_segs_set_last, seg_data, segs_view, total_bytes,
    CommandPos, SegLog, SegView, Segment};
use vstd::prelude::*;
use vstd::slice::{slice_subrange, slice_to_vec};

verus! {

/// When at least this many stale bytes have accumulated, `set` triggers a
/// compaction pass.
pub const COMPACTION_THRESHOLD: u64 = 1048576;

/// Cap on the total size of the log image, far below any integer limit, so
/// that byte accounting never overflows.
pub const MAX_LOG_BYTES: u64 = 0x2000_0000_0000_0000;

/// One disk instruction for the embedding application.  Applying the actions
/// an engine operation returns, in order, turns the directory that matched
/// the engine's previous [`KvStore::disk`] into one matching the new one.
#[derive(Debug)]
pub enum Action {
    /// Create the file `<gen>.log`, empty.
    Create { gen: u64 },
    /// Append `bytes` to the end of `<gen>.log` and flush it.
    Append { gen: u64, bytes: Vec<u8> },
    /// Delete the file `<gen>.log`.
    Delete { gen: u64 },
}

/// The effect of one action on a disk image.
pub open spec fn apply_action(d: Map<u64, Seq<u8>>, a: Action) -> Map<u64, Seq<u8>> {
    match a {
        Action::Create { gen } => d.insert(gen, seq![]),
        Action::Append { gen, bytes } => d.insert(
            gen,
            if d.contains_key(gen) {
                d[gen] + bytes@
            } else {
                bytes@
            },
        ),
        Action::Delete { gen } => d.remove(gen),
    }
}

/// The effect of a sequence of actions, applied in order.
pub open spec fn apply_actions(d: Map<u64, Seq<u8>>, acts: Seq<Action>) -> Map<u64, Seq<u8>>
    decreases acts.len(),
{
    if acts.len() == 0 {
        d
    } else {
        apply_actions(apply_action(d, acts[0]), acts.drop_first())
    }
}

/// Applying one more action applies it after the others.
pub proof fn lemma_apply_actions_push(d: Map<u64, Seq<u8>>, acts: Seq<Action>, a: Action)
    ensures
        apply_actions(d, acts.push(a)) == apply_action(apply_actions(d, acts), a),
    decreases acts.len(),
{
    if acts.len() == 0 {
        assert(acts.push(a).drop_first() =~= Seq::<Action>::empty());
        assert(acts.push(a)[0] == a);
        assert(apply_actions(apply_action(d, a), Seq::<Action>::empty()) == apply_action(d, a));
        assert(apply_actions(d, acts) == d);
    } else {
        assert(acts.push(a).drop_first() =~= acts.drop_first().push(a));
        assert(acts.push(a)[0] == acts[0]);
        lemma_apply_actions_push(apply_action(d, acts[0]), acts.drop_first(), a);
    }
}

/// One record's effect on the key/value state.
pub open spec fn apply_rec(m: Map<Seq<u8>, Seq<u8>>, r: Rec) -> Map<Seq<u8>, Seq<u8>> {
    match r {
        Rec::Put { key, value } => m.insert(key, value),
        Rec::Del { key } => m.remove(key),
    }
}

/// The key/value state after replaying records in order, starting from `m`.
pub open spec fn replay(m: Map<Seq<u8>, Seq<u8>>, recs: Seq<Rec>) -> Map<Seq<u8>, Seq<u8>>
    decreases recs.len(),
{
    if recs.len() == 0 {
        m
    } else {
        replay(apply_rec(m, recs[0]), recs.drop_first())
    }
}

/// Replaying one more record applies it after the others.
pub proof fn lemma_replay_push(m: Map<Seq<u8>, Seq<u8>>, recs: Seq<Rec>, r: Rec)
    ensures
        replay(m, recs.push(r)) == apply_rec(replay(m, recs), r),
    decreases recs.len(),
{
    if recs.len() == 0 {
        assert(recs.push(r).drop_first() =~= Seq::<Rec>::empty());
        assert(recs.push(r)[0] == r);
        assert(replay(apply_rec(m, r), Seq::<Rec>::empty()) == apply_rec(m, r));
        assert(replay(m, recs) == m);
    } else {
        assert(recs.push(r).drop_first() =~= recs.drop_first().push(r));
        assert(recs.push(r)[0] == recs[0]);
        lemma_replay_push(apply_rec(m, recs[0]), recs.drop_first(), r);
    }
}

/// Replaying a concatenation replays its parts in order.
pub proof fn lemma_replay_concat(m: Map<Seq<u8>, Seq<u8>>, a: Seq<Rec>, b: Seq<Rec>)
    ensures
        replay(m, a + b) == replay(replay(m, a), b),
    decreases a.len(),
{
    if a.len() == 0 {
        assert(a + b =~= b);
    } else {
        assert((a + b).drop_first() =~= a.drop_first() + b);
        assert((a + b)[0] == a[0]);
        lemma_replay_concat(apply_rec(m, a[0]), a.drop_first(), b);
    }
}

/// All records of the segments, in generation order, oldest first.
pub open spec fn all_recs(s: Seq<SegView>) -> Seq<Rec>
    decreases s.len(),
{
    if s.len() == 0 {
        seq![]
    } else {
        all_recs(s.drop_last()) + spec_scan(s.last().data).recs
    }
}

/// The key/value state startup recovery derives from a directory image.
pub open spec fn spec_recover(s: Seq<SegView>) -> Map<Seq<u8>, Seq<u8>> {
    replay(Map::empty(), all_recs(s))
}

/// Whether startup recovery accepts these segments: a malformed record is
/// tolerated only in the last segment, where everything from it on is
/// discarded as a torn tail; in any earlier segment it aborts recovery.  A
/// truncated final record is discarded in any segment.
pub open spec fn recoverable(s: Seq<SegView>) -> bool {
    forall|i: int| 0 <= i < s.len() - 1 ==> !((#[trigger] spec_scan(s[i].data).end) is Corrupt)
}

/// The value stored by the record at `loc`.
pub open spec fn entry_value(segs: Seq<SegView>, loc: CommandPos) -> Seq<u8> {
    match spec_decode_rec_at(seg_data(segs, loc.gen), loc.pos as int) {
        SpecRecDecode::Found { rec: Rec::Put { value, .. }, .. } => value,
        _ => seq![],
    }
}

/// Whether the index entry binding key `k` to location `loc` points at a
/// well-formed `Put` record for `k` within the segments.
pub open spec fn entry_valid(segs: Seq<SegView>, k: Seq<u8>, loc: CommandPos) -> bool {
    &&& has_gen(segs, loc.gen)
    &&& loc.pos + loc.len <= seg_data(segs, loc.gen).len()
    &&& spec_decode_rec_at(seg_data(segs, loc.gen), loc.pos as int) == (SpecRecDecode::Found {
        rec: Rec::Put { key: k, value: entry_value(segs, loc) },
        len: loc.len as int,
    })
}

/// The key/value state an index and a set of segments stand for.
pub open spec fn kv_of(segs: Seq<SegView>, ix: Seq<(Seq<u8>, CommandPos)>) -> Map<
    Seq<u8>,
    Seq<u8>,
> {
    Map::new(
        |k: Seq<u8>| amap(ix).contains_key(k),
        |k: Seq<u8>| entry_value(segs, amap(ix)[k]),
    )
}

/// The log-structured storage engine.
pub struct KvStore {
    log: SegLog,
    index: Index,
}

impl KvStore {
    /// The ordered segment images the engine holds: its view of the data
    /// directory, one entry per generation.
    pub closed spec fn segs(&self) -> Seq<SegView> {
        self.log@
    }

    /// The disk image the engine expects: generation number to the contents
    /// of `<generation>.log`.
    pub open spec fn disk(&self) -> Map<u64, Seq<u8>> {
        disk_of(self.segs())
    }

    /// The key-to-record-location mapping of the in-memory index.
    pub closed spec fn locations(&self) -> Map<Seq<u8>, CommandPos> {
        amap(self.index@)
    }

    /// The key/value state: what `get` observes.
    pub closed spec fn kv(&self) -> Map<Seq<u8>, Seq<u8>> {
        kv_of(self.segs(), self.index@)
    }

    /// The uncompacted-byte counter: an upper bound on the stale bytes a
    /// compaction pass can reclaim.
    pub closed spec fn spec_uncompacted(&self) -> u64 {
        self.index.uncompacted
    }

    /// The generation currently open for appends.
    pub closed spec fn spec_current_gen(&self) -> u64 {
        self.log.spec_current_gen()
    }

    /// The total byte size of the log image.
    pub closed spec fn spec_total_bytes(&self) -> int {
        total_bytes(self.segs())
    }

    /// The byte size of the live set.
    pub closed spec fn spec_live_bytes(&self) -> int {
        live_bytes(self.index@)
    }

    /// The engine invariant: the log is ordered, the current generation
    /// parses cleanly, every index entry points at a valid record asserting
    /// its own key, replaying the whole log yields exactly the indexed
    /// state, and the uncompacted counter never exceeds the stale bytes.
    pub closed spec fn wf(&self) -> bool {
        &&& self.log.wf()
        &&& self.index.wf()
        &&& spec_scan(self.segs().last().data).end is Clean
        &&& forall|k: Seq<u8>| #[trigger]
            self.locations().contains_key(k) ==> entry_valid(
                self.segs(),
                k,
                self.locations()[k],
            )
        &&& spec_recover(self.segs()) == self.kv()
        &&& self.spec_uncompacted() + self.spec_live_bytes() <= self.spec_total_bytes()
        &&& self.spec_total_bytes() <= MAX_LOG_BYTES
    }

    /// The bytes a `set` of key `k` makes stale: the length of the record it
    /// overwrites, if any.
    pub open spec fn stale_on_set(&self, k: Seq<u8>) -> int {
        if self.locations().contains_key(k) {
            self.locations()[k].len as int
        } else {
            0
        }
    }

    /// Whether a `set` of a key and value of these byte lengths can be
    /// accepted in the current state (machine limits only).
    pub open spec fn can_set(&self, klen: int, vlen: int) -> bool {
        &&& FRAME_OVERHEAD + klen + vlen <= u32::MAX
        &&& self.spec_total_bytes() + FRAME_OVERHEAD + klen + vlen <= MAX_LOG_BYTES
        &&& self.spec_current_gen() <= u64::MAX - 2
    }

    /// Whether a `remove` of a key of this byte length can be accepted in
    /// the current state (machine limits only).
    pub open spec fn can_remove(&self, klen: int) -> bool {
        self.can_set(klen, 0)
    }

    /// The generation currently open for appends.
    pub fn current_gen(&self) -> (r: u64)
        requires
            self.wf(),
        ensures
            r == self.spec_current_gen(),
    {
        self.log.current_gen()
    }

    /// The uncompacted-byte counter.
    pub fn uncompacted(&self) -> (r: u64)
        ensures
            r == self.spec_uncompacted(),
    {
        self.index.uncompacted
    }
}

/// The invariant ties recovery to the observable state: recovering from the
/// disk image of any well-formed store yields exactly that store's key/value
/// state.  Together with the contract of `open`, this is durability: every
/// acknowledged write is reflected after a restart.
pub proof fn lemma_recovery_preserves_state(s: &KvStore)
    requires
        s.wf(),
    ensures
        spec_recover(s.segs()) == s.kv(),
        gens_sorted(s.segs()),
        disk_of(s.segs()) == s.disk(),
{
}

} // verus!

verus! {

/// Taking one more segment appends exactly that segment's records.
pub proof fn lemma_all_recs_take(s: Seq<SegView>, i: int)
    requires
        0 <= i < s.len(),
    ensures
        all_recs(s.take(i + 1)) == all_recs(s.take(i)) + spec_scan(s[i].data).recs,
{
    assert(s.take(i + 1).drop_last() =~= s.take(i));
    assert(s.take(i + 1).last() == s[i]);
}

/// Taking one more segment grows the total by that segment's size.
pub proof fn lemma_total_take(s: Seq<SegView>, i: int)
    requires
        0 <= i < s.len(),
    ensures
        total_bytes(s.take(i + 1)) == total_bytes(s.take(i)) + s[i].data.len(),
{
    assert(s.take(i + 1).drop_last() =~= s.take(i));
    assert(s.take(i + 1).last() == s[i]);
}

/// A prefix of the segments never holds more bytes than all of them.
pub proof fn lemma_total_take_bound(s: Seq<SegView>, i: int)
    requires
        0 <= i <= s.len(),
    ensures
        total_bytes(s.take(i)) <= total_bytes(s),
    decreases s.len() - i,
{
    if i == s.len() {
        assert(s.take(i) =~= s);
    } else {
        lemma_total_take(s, i);
        lemma_total_take_bound(s, i + 1);
    }
}

impl KvStore {
    /// Fold one recovered segment's records into the index, stopping at the
    /// end of the segment, at a truncated tail, or at a malformed record.
    /// Returns whether the segment was free of malformed records, and the
    /// offset its clean prefix ends at.
    fn load_segment(Ghost(segs): Ghost<Seq<SegView>>, si: usize, seg: &Segment, index: &mut Index)
        -> (r: (bool, usize))
        requires
            old(index).wf(),
            gens_sorted(segs),
            si < segs.len(),
            segs[si as int] == seg@,
            total_bytes(segs) <= MAX_LOG_BYTES,
            forall|k: Seq<u8>| #[trigger]
                amap(old(index)@).contains_key(k) ==> entry_valid(segs, k, amap(old(index)@)[k]),
            forall|k: Seq<u8>| #[trigger]
                amap(old(index)@).contains_key(k) ==> amap(old(index)@)[k].gen != seg@.gen,
            kv_of(segs, old(index)@) == replay(
                Map::<Seq<u8>, Seq<u8>>::empty(),
                all_recs(segs.take(si as int)),
            ),
            old(index).uncompacted + live_bytes(old(index)@) <= total_bytes(segs.take(si as int)),
        ensures
            final(index).wf(),
            forall|k: Seq<u8>| #[trigger]
                amap(final(index)@).contains_key(k) ==> entry_valid(
                    segs,
                    k,
                    amap(final(index)@)[k],
                ),
            forall|k: Seq<u8>| #[trigger]
                amap(final(index)@).contains_key(k) ==> ((amap(old(index)@).contains_key(k)
                    && amap(final(index)@)[k] == amap(old(index)@)[k]) || amap(final(index)@)[
                    k
                ].gen == seg@.gen),
            kv_of(segs, final(index)@) == replay(
                Map::<Seq<u8>, Seq<u8>>::empty(),
                all_recs(segs.take(si + 1)),
            ),
            r.0 == !(spec_scan(seg.data@).end is Corrupt),
            r.1 <= seg.data@.len(),
            spec_scan(seg.data@).end is Clean ==> r.1 == seg.data@.len(),
            spec_scan(seg.data@.take(r.1 as int)) == (SpecScan {
                recs: spec_scan(seg.data@).recs,
                end: ScanEnd::Clean,
            }),
            forall|k: Seq<u8>| #[trigger]
                amap(final(index)@).contains_key(k) && amap(final(index)@)[k].gen == seg@.gen
                    ==> amap(final(index)@)[k].pos + amap(final(index)@)[k].len <= r.1,
            final(index).uncompacted + live_bytes(final(index)@) <= total_bytes(
                segs.take(si as int),
            ) + r.1,
    {
        let ghost data = seg.data@;
        let ghost prefix = all_recs(segs.take(si as int));
        let gen = seg.gen;
        proof {
            lemma_seg_data_index(segs, si as int);
            lemma_total_take(segs, si as int);
            lemma_total_take_bound(segs, si as int + 1);
        }
        let mut pos: usize = 0;
        let ghost mut done: Seq<Rec> = seq![];
        let mut clean: bool = true;
        proof {
            assert(data.take(0) =~= Seq::<u8>::empty());
            lemma_scan_empty();
        }
        loop
            invariant_except_break
                clean,
            invariant
                index.wf(),
                gens_sorted(segs),
                si < segs.len(),
                segs[si as int] == seg@,
                gen == seg.gen,
                data == seg.data@,
                prefix == all_recs(segs.take(si as int)),
                total_bytes(segs) <= MAX_LOG_BYTES,
                pos <= data.len(),
                total_bytes(segs.take(si as int)) + data.len() <= total_bytes(segs),
                forall|k: Seq<u8>| #[trigger]
                    amap(index@).contains_key(k) ==> entry_valid(segs, k, amap(index@)[k]),
                spec_scan(data).recs == done + spec_scan_from(data, pos as int).recs,
                spec_scan(data).end == spec_scan_from(data, pos as int).end,
                spec_scan(data.take(pos as int)) == (SpecScan {
                    recs: done,
                    end: ScanEnd::Clean,
                }),
                forall|k: Seq<u8>| #[trigger]
                    amap(index@).contains_key(k) ==> ((amap(old(index)@).contains_key(k) && amap(
                        index@,
                    )[k] == amap(old(index)@)[k]) || amap(index@)[k].gen == seg@.gen),
                forall|k: Seq<u8>| #[trigger]
                    amap(index@).contains_key(k) && amap(index@)[k].gen == seg@.gen ==> amap(
                        index@,
                    )[k].pos + amap(index@)[k].len <= pos,
                forall|k: Seq<u8>| #[trigger]
                    amap(old(index)@).contains_key(k) ==> amap(old(index)@)[k].gen != seg@.gen,
                kv_of(segs, index@) == replay(Map::<Seq<u8>, Seq<u8>>::empty(), prefix + done),
                index.uncompacted + live_bytes(index@) <= total_bytes(segs.take(si as int))
                    + pos,
            ensures
                index.wf(),
                forall|k: Seq<u8>| #[trigger]
                    amap(index@).contains_key(k) ==> entry_valid(segs, k, amap(index@)[k]),
                kv_of(segs, index@) == replay(
                    Map::<Seq<u8>, Seq<u8>>::empty(),
                    prefix + spec_scan(data).recs,
                ),
                pos <= data.len(),
                spec_scan(data).end is Clean ==> pos == data.len(),
                spec_scan(data.take(pos as int)) == (SpecScan {
                    recs: spec_scan(data).recs,
                    end: ScanEnd::Clean,
                }),
                forall|k: Seq<u8>| #[trigger]
                    amap(index@).contains_key(k) ==> ((amap(old(index)@).contains_key(k) && amap(
                        index@,
                    )[k] == amap(old(index)@)[k]) || amap(index@)[k].gen == seg@.gen),
                forall|k: Seq<u8>| #[trigger]
                    amap(index@).contains_key(k) && amap(index@)[k].gen == seg@.gen ==> amap(
                        index@,
                    )[k].pos + amap(index@)[k].len <= pos,
                index.uncompacted + live_bytes(index@) <= total_bytes(segs.take(si as int))
                    + pos,
                clean == !(spec_scan(data).end is Corrupt),
            decreases data.len() - pos,
        {
            match decode_command_at(&seg.data, pos) {
                Decoded::AtEnd => {
                    proof {
                        assert(spec_scan_from(data, pos as int).recs =~= Seq::<Rec>::empty());
                        assert(spec_scan(data).recs =~= done);
                    }
                    break ;
                },
                Decoded::Truncated => {
                    proof {
                        assert(spec_scan_from(data, pos as int).recs =~= Seq::<Rec>::empty());
                        assert(spec_scan(data).recs =~= done);
                    }
                    break ;
                },
                Decoded::Corrupt => {
                    clean = false;
                    proof {
                        assert(spec_scan_from(data, pos as int).recs =~= Seq::<Rec>::empty());
                        assert(spec_scan(data).recs =~= done);
                    }
                    break ;
                },
                Decoded::Found { cmd, len } => {
                    proof {
                        lemma_rec_decode_props(data, pos as int);
                        lemma_seg_data_index(segs, si as int);
                    }
                    let ghost rec = cmd@;
                    let ghost old_kv = kv_of(segs, index@);
                    proof {
                        // one scan step
                        assert(spec_scan_from(data, pos as int).recs == seq![rec]
                            + spec_scan_from(data, pos + len).recs);
                        assert(spec_scan_from(data, pos as int).end == spec_scan_from(
                            data,
                            pos + len,
                        ).end);
                        assert(prefix + done.push(rec) =~= (prefix + done).push(rec));
                        lemma_replay_push(Map::<Seq<u8>, Seq<u8>>::empty(), prefix + done, rec);
                        assert(done.push(rec) + spec_scan_from(data, pos + len).recs =~= done
                            + spec_scan_from(data, pos as int).recs);
                        lemma_live_nonneg(index@);
                    }
                    match cmd {
                        Command::Put { key, value } => {
                            let ghost kk = key@;
                            let ghost vv = value@;
                            let loc = CommandPos { gen, pos, len };
                            proof {
                                assert(index.uncompacted + live_bytes(index@) <= total_bytes(
                                    segs,
                                ));
                            }
                            let prev = index.insert(key, loc);
                            proof {
                                assert(seg_data(segs, loc.gen) == data);
                                assert(entry_valid(segs, kk, loc));
                                assert(kv_of(segs, index@) =~= old_kv.insert(kk, vv));
                                assert(apply_rec(old_kv, rec) == old_kv.insert(kk, vv));
                            }
                        },
                        Command::Del { key } => {
                            let prev = index.remove(&key);
                            let mut stale: u64 = len as u64;
                            if let Some(p) = prev {
                                proof {
                                    lemma_live_nonneg(index@);
                                }
                                stale = stale + p.len as u64;
                            }
                            proof {
                                assert(index.uncompacted + stale <= total_bytes(
                                    segs.take(si as int),
                                ) + pos + len);
                            }
                            index.add_uncompacted(stale);
                            proof {
                                let kk = rec->Del_key;
                                assert(kv_of(segs, index@) =~= old_kv.remove(kk));
                                assert(apply_rec(old_kv, rec) == old_kv.remove(kk));
                            }
                        },
                    }
                    let dl = seg.data.len();
                    proof {
                        assert(pos + len <= dl);
                        // the clean prefix grows by exactly this record
                        crate::codec::lemma_rec_decode_canonical(data, pos as int);
                        assert(data.take(pos + len) =~= data.take(pos as int) + data.subrange(
                            pos as int,
                            pos + len,
                        ));
                        lemma_scan_append(data.take(pos as int), rec, 0);
                    }
                    pos = pos + len;
                    proof {
                        done = done.push(rec);
                    }
                },
            }
        }
        proof {
            lemma_all_recs_take(segs, si as int);
            assert(prefix + spec_scan(data).recs =~= all_recs(segs.take(si + 1)));
            lemma_total_take(segs, si as int);
        }
        (clean, pos)
    }
}

} // verus!

verus! {

impl KvStore {
    /// Open a store over the images of the `<N>.log` files found in the data
    /// directory, ordered by generation.  Recovery folds every record into
    /// the index, tolerating a truncated or torn tail (see [`recoverable`]),
    /// and opens a fresh generation for appends.  The returned actions
    /// create that generation's file on disk.
    pub fn open(segments: Vec<Segment>) -> (r: Result<(KvStore, Vec<Action>), KvError>)
        requires
            gens_sorted(segs_view(segments@)),
            total_bytes(segs_view(segments@)) <= MAX_LOG_BYTES,
            segs_view(segments@).len() > 0 ==> segs_view(segments@).last().gen < u64::MAX,
        ensures
            match r {
                Ok((s, acts)) => {
                    &&& s.wf()
                    &&& s.kv() == spec_recover(segs_view(segments@))
                    &&& recoverable(segs_view(segments@))
                    &&& forall|i: int|
                        0 <= i < segs_view(segments@).len() ==> (#[trigger] segs_view(
                            segments@,
                        )[i]).gen < s.spec_current_gen()
                    &&& s.spec_current_gen() == if segs_view(segments@).len() == 0 {
                        1u64
                    } else {
                        (segs_view(segments@).last().gen + 1) as u64
                    }
                    &&& s.spec_total_bytes() <= total_bytes(segs_view(segments@))
                    &&& recoverable(s.segs())
                    &&& spec_scan(s.segs().last().data).end is Clean
                    &&& (segs_view(segments@).len() == 0 || spec_scan(
                        segs_view(segments@).last().data,
                    ).end is Clean) ==> (s.spec_total_bytes() == total_bytes(segs_view(segments@))
                        && s.disk() == disk_of(segs_view(segments@)).insert(
                        s.spec_current_gen(),
                        Seq::<u8>::empty(),
                    ))
                    &&& s.disk() == apply_actions(disk_of(segs_view(segments@)), acts@)
                },
                Err(e) => {
                    &&& e == KvError::CorruptRecord
                    &&& !recoverable(segs_view(segments@))
                },
            },
    {
        let ghost input = segs_view(segments@);
        let mut log = SegLog { segments };
        let mut index = Index::new();
        let n = log.segments.len();
        proof {
            assert(log@ == input);
            assert(input.take(0) =~= Seq::<SegView>::empty());
            assert(all_recs(input.take(0)) =~= Seq::<Rec>::empty());
            assert(replay(Map::<Seq<u8>, Seq<u8>>::empty(), Seq::<Rec>::empty())
                == Map::<Seq<u8>, Seq<u8>>::empty());
            assert(amap(index@) =~= Map::<Seq<u8>, CommandPos>::empty());
            assert(kv_of(input, index@) =~= Map::<Seq<u8>, Seq<u8>>::empty());
            assert(total_bytes(input.take(0)) == 0);
        }
        let mut si: usize = 0;
        let mut last_clean: bool = true;
        let mut last_pos: usize = 0;
        while si < n
            invariant
                input == segs_view(segments@),
                si <= n,
                n == input.len(),
                log@ == input,
                gens_sorted(input),
                total_bytes(input) <= MAX_LOG_BYTES,
                index.wf(),
                forall|k: Seq<u8>| #[trigger]
                    amap(index@).contains_key(k) ==> entry_valid(input, k, amap(index@)[k]),
                forall|k: Seq<u8>| #[trigger]
                    amap(index@).contains_key(k) ==> has_gen(
                        input.take(si as int),
                        amap(index@)[k].gen,
                    ),
                kv_of(input, index@) == replay(
                    Map::<Seq<u8>, Seq<u8>>::empty(),
                    all_recs(input.take(si as int)),
                ),
                index.uncompacted + live_bytes(index@) <= total_bytes(input.take(si as int)),
                forall|i: int|
                    0 <= i < si && i < n - 1 ==> !((#[trigger] spec_scan(input[i].data).end)
                        is Corrupt),
                si > 0 ==> {
                    &&& last_pos <= input[si - 1].data.len()
                    &&& last_clean == !(spec_scan(input[si - 1].data).end is Corrupt)
                    &&& (spec_scan(input[si - 1].data).end is Clean ==> last_pos == input[si
                        - 1].data.len())
                    &&& spec_scan(input[si - 1].data.take(last_pos as int)) == (SpecScan {
                        recs: spec_scan(input[si - 1].data).recs,
                        end: ScanEnd::Clean,
                    })
                    &&& forall|k: Seq<u8>| #[trigger]
                        amap(index@).contains_key(k) && amap(index@)[k].gen == input[si - 1].gen
                            ==> amap(index@)[k].pos + amap(index@)[k].len <= last_pos
                    &&& index.uncompacted + live_bytes(index@) <= total_bytes(
                        input.take(si - 1),
                    ) + last_pos
                },
            decreases n - si,
        {
            let seg = &log.segments[si];
            proof {
                assert(input[si as int] == seg@);
                // no earlier entry lives in this generation
                assert forall|k: Seq<u8>| #[trigger] amap(index@).contains_key(k) implies amap(
                    index@,
                )[k].gen != seg@.gen by {
                    assert(has_gen(input.take(si as int), amap(index@)[k].gen));
                    let j = choose|j: int|
                        0 <= j < input.take(si as int).len() && (#[trigger] input.take(
                            si as int,
                        )[j]).gen == amap(index@)[k].gen;
                    assert(input[j].gen < input[si as int].gen);
                }
            }
            let ghost ix_before = index@;
            let (clean, cpos) = Self::load_segment(Ghost(input), si, seg, &mut index);
            if !clean && si + 1 < n {
                proof {
                    assert(spec_scan(input[si as int].data).end is Corrupt);
                    assert((si as int) < input.len() - 1);
                    assert(!recoverable(input));
                }
                return Err(KvError::CorruptRecord);
            }
            last_clean = clean;
            last_pos = cpos;
            proof {
                lemma_total_take(input, si as int);
                assert forall|k: Seq<u8>| #[trigger] amap(index@).contains_key(k) implies has_gen(
                    input.take(si + 1),
                    amap(index@)[k].gen,
                ) by {
                    if amap(ix_before).contains_key(k) && amap(index@)[k] == amap(ix_before)[k] {
                        assert(has_gen(input.take(si as int), amap(ix_before)[k].gen));
                        let j = choose|j: int|
                            0 <= j < input.take(si as int).len() && (#[trigger] input.take(
                                si as int,
                            )[j]).gen == amap(ix_before)[k].gen;
                        assert(input.take(si + 1)[j].gen == amap(index@)[k].gen);
                    } else {
                        assert(amap(index@)[k].gen == input[si as int].gen);
                        assert(input.take(si + 1)[si as int].gen == amap(index@)[k].gen);
                    }
                }
            }
            si += 1;
        }
        proof {
            assert(input.take(n as int) =~= input);
        }
        // if the last file ends in a malformed record, rewrite it to its
        // clean prefix: the torn bytes are discarded on disk as well, so the
        // next startup accepts the directory
        let ghost mut base: Seq<SegView> = input;
        let mut actions: Vec<Action> = Vec::new();
        if n > 0 && !last_clean {
            let seg = log.segments.pop().unwrap();
            let g = seg.gen;
            let ghost fulldata = seg.data@;
            let prefix = slice_to_vec(slice_subrange(seg.data.as_slice(), 0, last_pos));
            let prefix2 = slice_to_vec(prefix.as_slice());
            log.segments.push(Segment { gen: g, data: prefix });
            proof {
                base = input.update(n - 1, SegView { gen: g, data: fulldata.take(last_pos as int) });
                lemma_segs_set_last(input, fulldata.take(last_pos as int));
                lemma_total_take(input, n - 1);
                assert(log@ =~= base);
                assert(base[n - 1].gen == input[n - 1].gen);
                lemma_seg_data_index(input, n - 1);
                // every index entry survives the truncation: entries in this
                // generation sit inside the clean prefix, the rest elsewhere
                assert forall|k: Seq<u8>| #[trigger] amap(index@).contains_key(
                    k,
                ) implies entry_valid(base, k, amap(index@)[k]) && entry_value(
                    base,
                    amap(index@)[k],
                ) == entry_value(input, amap(index@)[k]) by {
                    let l = amap(index@)[k];
                    assert(entry_valid(input, k, l));
                    if l.gen == g {
                        assert(l.pos + l.len <= last_pos);
                        assert(seg_data(input, g) == fulldata);
                        crate::codec::lemma_rec_decode_take(
                            fulldata,
                            last_pos as int,
                            l.pos as int,
                        );
                        assert(seg_data(base, g) == fulldata.take(last_pos as int));
                    } else {
                        assert(seg_data(base, l.gen) == seg_data(input, l.gen));
                    }
                }
                assert(kv_of(base, index@) =~= kv_of(input, index@));
                // the truncated image replays to the same records
                assert(base.drop_last() =~= input.drop_last());
                assert(spec_scan(base.last().data).recs == spec_scan(fulldata).recs);
                assert(all_recs(base) =~= all_recs(input));
                // the counter bound tightens to the truncated size
                assert(total_bytes(base) == total_bytes(input.take(n - 1)) + last_pos);
            }
            let ghost d_in = disk_of(input);
            actions.push(Action::Delete { gen: g });
            proof {
                assert(actions@.drop_first() =~= Seq::<Action>::empty());
                assert(apply_actions(apply_action(d_in, actions@[0]), actions@.drop_first())
                    == apply_action(d_in, actions@[0]));
                assert(apply_actions(d_in, actions@) == d_in.remove(g));
            }
            let ghost a1 = actions@;
            actions.push(Action::Create { gen: g });
            proof {
                assert(actions@ == a1.push(actions@.last()));
                lemma_apply_actions_push(d_in, a1, actions@.last());
            }
            let ghost a2 = actions@;
            actions.push(Action::Append { gen: g, bytes: prefix2 });
            proof {
                assert(actions@ == a2.push(actions@.last()));
                lemma_apply_actions_push(d_in, a2, actions@.last());
                assert(apply_actions(d_in, actions@) =~= d_in.insert(
                    g,
                    fulldata.take(last_pos as int),
                )) by {
                    assert(Seq::<u8>::empty() + fulldata.take(last_pos as int) =~= fulldata.take(
                        last_pos as int,
                    ));
                }
                assert(disk_of(base) == apply_actions(disk_of(input), actions@));
            }
        } else {
            proof {
                assert(actions@ =~= Seq::<Action>::empty());
                assert(disk_of(base) == apply_actions(disk_of(input), actions@));
            }
        }
        proof {
            // the base image carries the input's generations, records and
            // indexed state, whether or not a tail was rewritten
            assert(base.len() == n);
            assert(gens_sorted(base));
            assert forall|i: int| 0 <= i < n implies (#[trigger] base[i]).gen == input[i].gen by {}
            assert(all_recs(base) =~= all_recs(input));
            assert(kv_of(base, index@) =~= kv_of(input, index@));
            assert(total_bytes(base) <= total_bytes(input)) by {
                if n > 0 && !last_clean {
                    lemma_total_take(input, n - 1);
                } else {
                    assert(base == input);
                }
            }
            assert(index.uncompacted + live_bytes(index@) <= total_bytes(base)) by {
                if n > 0 && !last_clean {
                } else {
                    assert(base == input);
                    assert(input.take(n as int) =~= input);
                }
            }
        }
        let new_gen: u64;
        if log.segments.len() == 0 {
            new_gen = 1;
            log.segments.push(Segment { gen: 1, data: Vec::new() });
            proof {
                assert(log@ =~= base.push(SegView { gen: 1u64, data: seq![] }));
            }
        } else {
            proof {
                assert(log.wf());
                assert(log@.last().gen == input.last().gen);
            }
            new_gen = log.rotate();
        }
        let ghost fresh = SegView { gen: new_gen, data: seq![] };
        let ghost segs2 = base.push(fresh);
        proof {
            assert(log@ == segs2);
            assert(!has_gen(base, new_gen)) by {
                if has_gen(base, new_gen) {
                    let i = choose|i: int|
                        0 <= i < base.len() && (#[trigger] base[i]).gen == new_gen;
                    if i < base.len() - 1 {
                        assert(base[i].gen < base[base.len() - 1].gen);
                    }
                }
            }
            lemma_segs_push(base, fresh);
            assert forall|i: int| 0 <= i < base.len() implies (#[trigger] base[i]).gen
                < new_gen by {
                if i < base.len() - 1 {
                    assert(base[i].gen < base[base.len() - 1].gen);
                }
            }
            assert(gens_sorted(segs2)) by {
                assert forall|i: int, j: int| 0 <= i < j < segs2.len() implies segs2[i].gen
                    < segs2[j].gen by {
                    if j < base.len() {
                        assert(base[i].gen < base[j].gen);
                    } else {
                        assert(segs2[j] == fresh);
                        assert(segs2[i] == base[i]);
                    }
                }
            }
            lemma_scan_empty();
            // records of the new log are the records of the input
            assert(segs2.drop_last() =~= base);
            assert(all_recs(segs2) =~= all_recs(base));
            // the indexed state carries over to the extended segment list
            assert forall|k: Seq<u8>| #[trigger] amap(index@).contains_key(k) implies entry_valid(
                segs2,
                k,
                amap(index@)[k],
            ) && entry_value(segs2, amap(index@)[k]) == entry_value(base, amap(index@)[k]) by {
                let loc = amap(index@)[k];
                assert(entry_valid(base, k, loc));
                assert(loc.gen != new_gen);
                assert(seg_data(segs2, loc.gen) == seg_data(base, loc.gen));
            }
            assert(kv_of(segs2, index@) =~= kv_of(base, index@));
        }
        let ghost acts_pre = actions@;
        actions.push(Action::Create { gen: new_gen });
        let store = KvStore { log, index };
        proof {
            assert(store.wf()) by {
                assert(spec_scan(segs2.last().data).end is Clean);
                assert(spec_recover(segs2) == store.kv());
            }
            assert(store.kv() == spec_recover(input));
            assert(store.spec_total_bytes() == total_bytes(base));
            // after open, every segment of the image is scannable: a later
            // startup accepts what this one leaves behind
            assert(recoverable(store.segs())) by {
                assert forall|i: int| 0 <= i < segs2.len() - 1 implies !((#[trigger] spec_scan(
                    segs2[i].data,
                ).end) is Corrupt) by {
                    if i < n - 1 {
                        assert(segs2[i] == input[i]);
                    } else {
                        assert(segs2[i] == base[n - 1]);
                        if !last_clean {
                            assert(spec_scan(base[n - 1].data).end is Clean);
                        } else {
                            assert(base[n - 1] == input[n - 1]);
                        }
                    }
                }
            }
            assert(spec_scan(store.segs().last().data).end is Clean);
            if n == 0 || spec_scan(input.last().data).end is Clean {
                assert(base == input);
                assert(store.spec_total_bytes() == total_bytes(input));
                assert(store.disk() == disk_of(input).insert(new_gen, Seq::<u8>::empty())) by {
                    assert(fresh.data =~= Seq::<u8>::empty());
                }
            }
            // the final create action extends the action chain
            assert(actions@ == acts_pre.push(actions@.last()));
            lemma_apply_actions_push(disk_of(input), acts_pre, actions@.last());
            assert(store.disk() == apply_actions(disk_of(input), actions@));
        }
        Ok((store, actions))
    }
}

} // verus!

verus! {

/// Applying a concatenation of actions applies its parts in order.
pub proof fn lemma_apply_actions_concat(d: Map<u64, Seq<u8>>, a: Seq<Action>, b: Seq<Action>)
    ensures
        apply_actions(d, a + b) == apply_actions(apply_actions(d, a), b),
    decreases a.len(),
{
    if a.len() == 0 {
        assert(a + b =~= b);
    } else {
        assert((a + b).drop_first() =~= a.drop_first() + b);
        assert((a + b)[0] == a[0]);
        lemma_apply_actions_concat(apply_action(d, a[0]), a.drop_first(), b);
    }
}

/// The disk image holds the current generation's file.
pub proof fn lemma_disk_of_last(s: Seq<SegView>)
    requires
        s.len() > 0,
    ensures
        disk_of(s).contains_key(s.last().gen),
        disk_of(s)[s.last().gen] == s.last().data,
{
}

impl KvStore {
    /// Get the value of `key`, or nothing if the key is absent.
    pub fn get(&self, key: &Vec<u8>) -> (r: Result<Option<Vec<u8>>, KvError>)
        requires
            self.wf(),
        ensures
            match r {
                Ok(Some(v)) => self.kv().contains_key(key@) && v@ == self.kv()[key@],
                Ok(None) => !self.kv().contains_key(key@),
                Err(_) => false,
            },
    {
        match self.index.lookup(key) {
            Some(loc) => {
                proof {
                    assert(self.locations().contains_key(key@));
                    assert(loc == self.locations()[key@]);
                    assert(entry_valid(self.segs(), key@, loc));
                }
                match self.log.read_at(loc) {
                    Ok(cmd) => match cmd {
                        Command::Put { value, .. } => Ok(Some(value)),
                        Command::Del { .. } => {
                            proof {
                                assert(false);
                            }
                            Err(KvError::UnexpectedCommandType)
                        },
                    },
                    Err(e) => {
                        proof {
                            assert(false);
                        }
                        Err(e)
                    },
                }
            },
            None => Ok(None),
        }
    }

    /// Remove `key`.  Fails with *key not found*, changing nothing, if the
    /// key is absent; otherwise a retraction record is appended to the log
    /// and the key leaves the index.
    pub fn remove(&mut self, key: &Vec<u8>) -> (r: Result<Vec<Action>, KvError>)
        requires
            old(self).wf(),
            old(self).kv().contains_key(key@) ==> old(self).can_remove(key@.len() as int),
        ensures
            final(self).wf(),
            final(self).spec_current_gen() == old(self).spec_current_gen(),
            match r {
                Ok(acts) => {
                    &&& old(self).kv().contains_key(key@)
                    &&& final(self).kv() == old(self).kv().remove(key@)
                    &&& final(self).spec_uncompacted() == old(self).spec_uncompacted() + old(
                        self,
                    ).stale_on_set(key@) + (FRAME_OVERHEAD + key@.len())
                    &&& final(self).spec_total_bytes() == old(self).spec_total_bytes()
                        + FRAME_OVERHEAD + key@.len()
                    &&& final(self).disk() == old(self).disk().insert(
                        old(self).spec_current_gen(),
                        old(self).disk()[old(self).spec_current_gen()] + spec_encode_rec(
                            Rec::Del { key: key@ },
                        ),
                    )
                    &&& final(self).disk() == apply_actions(old(self).disk(), acts@)
                },
                Err(e) => {
                    &&& e == KvError::NotFound
                    &&& !old(self).kv().contains_key(key@)
                    &&& *final(self) == *old(self)
                },
            },
    {
        let ghost segs0 = self.segs();
        let ghost ix0 = self.index@;
        let ghost kv0 = self.kv();
        let ghost d0 = self.disk();
        let ghost g0 = self.spec_current_gen();
        match self.index.lookup(key) {
            None => Err(KvError::NotFound),
            Some(_) => {
                let cmd = Command::remove(crate::codec::copy_bytes(key));
                let ghost rec = cmd@;
                let buf = encode_command(&cmd);
                let loc = self.log.append(&buf);
                let ghost segs1 = self.segs();
                proof {
                    lemma_encode_rec_len(rec);
                    lemma_segs_extend_last(segs0, buf@);
                    lemma_scan_append(segs0.last().data, rec, 0);
                    assert(segs1.drop_last() =~= segs0.drop_last());
                    assert(all_recs(segs1) =~= all_recs(segs0).push(rec));
                    lemma_replay_push(Map::<Seq<u8>, Seq<u8>>::empty(), all_recs(segs0), rec);
                    assert(spec_recover(segs1) == kv0.remove(key@));
                    // every entry stays valid: old generations are untouched and
                    // records already in the current generation are undisturbed
                    assert forall|k: Seq<u8>| #[trigger]
                        amap(ix0).contains_key(k) implies entry_valid(segs1, k, amap(ix0)[k])
                        && entry_value(segs1, amap(ix0)[k]) == entry_value(segs0, amap(ix0)[k]) by {
                        let l = amap(ix0)[k];
                        assert(old(self).locations().contains_key(k));
                        assert(entry_valid(segs0, k, l));
                        if l.gen == g0 {
                            lemma_rec_decode_prefix(segs0.last().data, buf@, l.pos as int);
                        } else {
                            assert(seg_data(segs1, l.gen) == seg_data(segs0, l.gen));
                        }
                    }
                }
                let prev = match self.index.remove(key) {
                    Some(p) => p,
                    None => {
                        proof {
                            assert(false);
                        }
                        vstd::pervasive::unreached()
                    },
                };
                proof {
                    lemma_live_nonneg(self.index@);
                }
                self.index.add_uncompacted(prev.len as u64 + loc.len as u64);
                let mut actions: Vec<Action> = Vec::new();
                actions.push(Action::Append { gen: loc.gen, bytes: buf });
                proof {
                    assert(self.kv() =~= kv0.remove(key@));
                    assert(self.wf()) by {
                        assert(spec_scan(self.segs().last().data).end is Clean);
                        assert(spec_recover(self.segs()) == self.kv());
                    }
                    lemma_disk_of_last(segs0);
                    assert(actions@ =~= seq![
                        Action::Append { gen: loc.gen, bytes: actions@[0]->Append_bytes },
                    ]);
                    assert(actions@.drop_first() =~= Seq::<Action>::empty());
                    assert(apply_actions(apply_action(d0, actions@[0]), actions@.drop_first())
                        == apply_action(d0, actions@[0]));
                    assert(self.disk() =~= apply_action(d0, actions@[0]));
                    assert(self.disk() == d0.insert(g0, d0[g0] + spec_encode_rec(rec)));
                    lemma_encode_rec_len(rec);
                }
                Ok(actions)
            },
        }
    }
}

} // verus!

verus! {

/// Taking one more entry grows the live set by that record's length.
pub proof fn lemma_live_take(s: Seq<(Seq<u8>, CommandPos)>, i: int)
    requires
        0 <= i < s.len(),
    ensures
        live_bytes(s.take(i + 1)) == live_bytes(s.take(i)) + s[i].1.len,
{
    assert(s.take(i + 1).drop_last() =~= s.take(i));
    assert(s.take(i + 1).last() == s[i]);
}

/// Replaying mapping assertions with pairwise distinct keys yields exactly
/// those mappings over the starting state.
pub proof fn lemma_replay_distinct_puts(m: Map<Seq<u8>, Seq<u8>>, recs: Seq<Rec>)
    requires
        forall|j: int| 0 <= j < recs.len() ==> (#[trigger] recs[j]) is Put,
        forall|i: int, j: int|
            0 <= i < j < recs.len() ==> (#[trigger] recs[i])->Put_key != (
            #[trigger] recs[j])->Put_key,
    ensures
        forall|k: Seq<u8>| #[trigger]
            replay(m, recs).contains_key(k) <==> (m.contains_key(k) || exists|j: int|
                0 <= j < recs.len() && (#[trigger] recs[j])->Put_key == k),
        forall|j: int|
            0 <= j < recs.len() ==> replay(m, recs)[(#[trigger] recs[j])->Put_key]
                == recs[j]->Put_value,
        forall|k: Seq<u8>|
            m.contains_key(k) && !(exists|j: int|
                0 <= j < recs.len() && (#[trigger] recs[j])->Put_key == k) ==> #[trigger] replay(
                m,
                recs,
            )[k] == m[k],
    decreases recs.len(),
{
    if recs.len() > 0 {
        let r0 = recs[0];
        let t = recs.drop_first();
        let m1 = apply_rec(m, r0);
        let k0 = r0->Put_key;
        let v0 = r0->Put_value;
        assert forall|j: int| 0 <= j < t.len() implies (#[trigger] t[j]) is Put by {
            assert(t[j] == recs[j + 1]);
        }
        assert forall|i: int, j: int| 0 <= i < j < t.len() implies (#[trigger] t[i])->Put_key != (
        #[trigger] t[j])->Put_key by {
            assert(t[i] == recs[i + 1]);
            assert(t[j] == recs[j + 1]);
        }
        lemma_replay_distinct_puts(m1, t);
        assert(replay(m, recs) == replay(m1, t));
        assert(!(exists|j: int| 0 <= j < t.len() && (#[trigger] t[j])->Put_key == k0)) by {
            if exists|j: int| 0 <= j < t.len() && (#[trigger] t[j])->Put_key == k0 {
                let j = choose|j: int| 0 <= j < t.len() && (#[trigger] t[j])->Put_key == k0;
                assert(t[j] == recs[j + 1]);
                assert(recs[0]->Put_key != recs[j + 1]->Put_key);
            }
        }
        assert(m1.contains_key(k0) && m1[k0] == v0);
        assert forall|j: int| 0 <= j < recs.len() implies replay(m, recs)[(
        #[trigger] recs[j])->Put_key] == recs[j]->Put_value by {
            if j == 0 {
                assert(replay(m1, t)[k0] == m1[k0]);
            } else {
                assert(t[j - 1] == recs[j]);
            }
        }
        assert forall|k: Seq<u8>| #[trigger]
            replay(m, recs).contains_key(k) <==> (m.contains_key(k) || exists|j: int|
                0 <= j < recs.len() && (#[trigger] recs[j])->Put_key == k) by {
            if replay(m, recs).contains_key(k) {
                if m1.contains_key(k) && !m.contains_key(k) && k != k0 {
                } else if !m1.contains_key(k) {
                    let j = choose|j: int| 0 <= j < t.len() && (#[trigger] t[j])->Put_key == k;
                    assert(t[j] == recs[j + 1]);
                    assert(recs[j + 1]->Put_key == k);
                } else if k == k0 {
                    assert(recs[0]->Put_key == k);
                }
            }
            if m.contains_key(k) {
                assert(m1.contains_key(k));
            }
            if exists|j: int| 0 <= j < recs.len() && (#[trigger] recs[j])->Put_key == k {
                let j = choose|j: int| 0 <= j < recs.len() && (#[trigger] recs[j])->Put_key == k;
                if j == 0 {
                    assert(m1.contains_key(k));
                } else {
                    assert(t[j - 1] == recs[j]);
                    assert(t[j - 1]->Put_key == k);
                }
            }
        }
        assert forall|k: Seq<u8>|
            m.contains_key(k) && !(exists|j: int|
                0 <= j < recs.len() && (#[trigger] recs[j])->Put_key == k) implies #[trigger] replay(
            m,
            recs,
        )[k] == m[k] by {
            assert(recs[0]->Put_key != k);
            assert(m1.contains_key(k) && m1[k] == m[k]);
            assert(!(exists|j: int| 0 <= j < t.len() && (#[trigger] t[j])->Put_key == k)) by {
                if exists|j: int| 0 <= j < t.len() && (#[trigger] t[j])->Put_key == k {
                    let j = choose|j: int| 0 <= j < t.len() && (#[trigger] t[j])->Put_key == k;
                    assert(t[j] == recs[j + 1]);
                    assert(recs[j + 1]->Put_key == k);
                }
            }
        }
    }
}

} // verus!

verus! {

impl KvStore {
    /// Rewrite the live set into a fresh generation and delete every prior
    /// one.  The current generation advances by two: by one for the
    /// compaction output and by one more for the new append generation, so
    /// writes racing no one (the engine is single-writer) never land in the
    /// compaction output.  The key/value state is unchanged, the uncompacted
    /// counter is reset, and afterwards the log holds exactly the live set.
    pub fn compact(&mut self) -> (acts: Vec<Action>)
        requires
            old(self).wf(),
            old(self).spec_current_gen() <= u64::MAX - 2,
        ensures
            final(self).wf(),
            final(self).kv() == old(self).kv(),
            final(self).spec_uncompacted() == 0,
            final(self).spec_total_bytes() == old(self).spec_live_bytes(),
            final(self).spec_live_bytes() == old(self).spec_live_bytes(),
            final(self).spec_current_gen() == old(self).spec_current_gen() + 2,
            final(self).disk().dom() == set![
                (old(self).spec_current_gen() + 1) as u64,
                (old(self).spec_current_gen() + 2) as u64,
            ],
            final(self).disk()[(old(self).spec_current_gen() + 2) as u64] == Seq::<u8>::empty(),
            forall|k: Seq<u8>| #[trigger]
                final(self).locations().contains_key(k) ==> final(self).locations()[k].gen
                    == old(self).spec_current_gen() + 1,
            final(self).disk() == apply_actions(old(self).disk(), acts@),
    {
        let ghost segs0 = self.segs();
        let ghost ix0 = self.index@;
        let ghost kv0 = self.kv();
        let ghost d0 = self.disk();
        let ghost g0 = self.spec_current_gen();
        let ghost live0 = live_bytes(ix0);
        let mut actions: Vec<Action> = Vec::new();

        // the compaction output becomes the new last segment for now
        let comp_gen = self.log.rotate();
        actions.push(Action::Create { gen: comp_gen });
        let ghost comp0 = SegView { gen: comp_gen, data: seq![] };
        proof {
            lemma_live_nonneg(ix0);
            assert(!has_gen(segs0, comp_gen)) by {
                if has_gen(segs0, comp_gen) {
                    let i = choose|i: int|
                        0 <= i < segs0.len() && (#[trigger] segs0[i]).gen == comp_gen;
                    if i < segs0.len() - 1 {
                        assert(segs0[i].gen < segs0[segs0.len() - 1].gen);
                    }
                }
            }
            lemma_segs_push(segs0, comp0);
            lemma_scan_empty();
            assert forall|k: Seq<u8>| #[trigger] amap(ix0).contains_key(k) implies entry_valid(
                self.segs(),
                k,
                amap(ix0)[k],
            ) && entry_value(self.segs(), amap(ix0)[k]) == entry_value(segs0, amap(ix0)[k]) by {
                assert(old(self).locations().contains_key(k));
                let l = amap(ix0)[k];
                assert(entry_valid(segs0, k, l));
                assert(l.gen != comp_gen);
                assert(seg_data(self.segs(), l.gen) == seg_data(segs0, l.gen));
            }
            assert(actions@ =~= seq![Action::Create { gen: comp_gen }]);
            assert(actions@.drop_first() =~= Seq::<Action>::empty());
            assert(apply_actions(apply_action(d0, actions@[0]), actions@.drop_first())
                == apply_action(d0, actions@[0]));
            assert(disk_of(self.segs()) == apply_actions(d0, actions@));
            assert(ix0.take(0) =~= Seq::<(Seq<u8>, CommandPos)>::empty());
            assert(self.segs().last().data.len() == live_bytes(ix0.take(0)));
            assert(forall|k: Seq<u8>| #[trigger]
                amap(ix0).contains_key(k) ==> entry_valid(segs0, k, amap(ix0)[k])) by {
                assert forall|k: Seq<u8>| #[trigger] amap(ix0).contains_key(k) implies entry_valid(
                    segs0,
                    k,
                    amap(ix0)[k],
                ) by {
                    assert(old(self).locations().contains_key(k));
                }
            }
        }
        // copy every live record, in ascending key order, into the compaction
        // output
        let n = self.index.len();
        let ghost mut crecs: Seq<Rec> = seq![];
        let mut i: usize = 0;
        while i < n
            invariant
                i <= n,
                n == ix0.len(),
                self.index@.len() == n,
                self.index.wf(),
                keys_unique(ix0),
                comp_gen == g0 + 1,
                g0 <= u64::MAX - 2,
                self.log@.len() == segs0.len() + 1,
                forall|j: int| 0 <= j < segs0.len() ==> self.log@[j] == segs0[j],
                self.log@.last().gen == comp_gen,
                gens_sorted(self.log@),
                !has_gen(segs0, comp_gen),
                total_bytes(segs0) <= MAX_LOG_BYTES,
                spec_scan(self.log@.last().data).end is Clean,
                spec_scan(self.log@.last().data).recs == crecs,
                crecs.len() == i,
                forall|j: int| i <= j < n ==> #[trigger] self.index@[j] == ix0[j],
                forall|j: int|
                    0 <= j < i ==> (#[trigger] self.index@[j]).0 == ix0[j].0 && self.index@[
                        j
                    ].1.gen == comp_gen && self.index@[j].1.len == ix0[j].1.len,
                forall|j: int|
                    0 <= j < i ==> #[trigger] crecs[j] == (Rec::Put {
                        key: ix0[j].0,
                        value: entry_value(segs0, ix0[j].1),
                    }),
                forall|k: Seq<u8>| #[trigger]
                    amap(self.index@).contains_key(k) <==> amap(ix0).contains_key(k),
                forall|k: Seq<u8>| #[trigger]
                    amap(self.index@).contains_key(k) ==> entry_valid(
                        self.log@,
                        k,
                        amap(self.index@)[k],
                    ) && entry_value(self.log@, amap(self.index@)[k]) == entry_value(
                        segs0,
                        amap(ix0)[k],
                    ),
                forall|k: Seq<u8>| #[trigger]
                    amap(ix0).contains_key(k) ==> entry_valid(segs0, k, amap(ix0)[k]),
                live_bytes(self.index@) == live0,
                self.index.uncompacted == old(self).spec_uncompacted(),
                self.log@.last().data.len() == live_bytes(ix0.take(i as int)),
                apply_actions(d0, actions@) == disk_of(self.log@),
            decreases n - i,
        {
            let loc = self.index.entries[i].1;
            let ghost logb = self.log@;
            let ghost kk = ix0[i as int].0;
            let ghost rec_i = Rec::Put { key: kk, value: entry_value(segs0, ix0[i as int].1) };
            proof {
                assert(entries_view(self.index.entries@)[i as int] == ix0[i as int]);
                lemma_amap_index(self.index@, i as int);
                lemma_amap_index(ix0, i as int);
                assert(amap(self.index@).contains_key(kk));
                assert(entry_valid(logb, kk, loc));
                assert(entry_value(logb, loc) == entry_value(segs0, ix0[i as int].1));
                lemma_rec_decode_props(seg_data(logb, loc.gen), loc.pos as int);
                crate::codec::lemma_rec_decode_canonical(seg_data(logb, loc.gen), loc.pos as int);
                assert(seg_data(logb, loc.gen).subrange(loc.pos as int, loc.pos + loc.len)
                    == spec_encode_rec(rec_i));
                lemma_encode_rec_len(rec_i);
            }
            let bytes = self.log.copy_record_bytes(loc);
            let newloc = self.log.append(&bytes);
            let ghost logc = self.log@;
            proof {
                lemma_segs_extend_last(logb, bytes@);
                lemma_scan_append(logb.last().data, rec_i, 0);
                assert(spec_scan(logc.last().data).recs == crecs.push(rec_i));
                // records already in place stay valid and keep their values
                assert forall|k: Seq<u8>| #[trigger] amap(self.index@).contains_key(
                    k,
                ) implies entry_valid(logc, k, amap(self.index@)[k]) && entry_value(
                    logc,
                    amap(self.index@)[k],
                ) == entry_value(segs0, amap(ix0)[k]) by {
                    let l = amap(self.index@)[k];
                    assert(entry_valid(logb, k, l));
                    if l.gen == comp_gen {
                        lemma_rec_decode_prefix(logb.last().data, bytes@, l.pos as int);
                        assert(seg_data(logc, comp_gen) == logb.last().data + bytes@);
                    } else {
                        assert(seg_data(logc, l.gen) == seg_data(logb, l.gen));
                    }
                }
                // the freshly copied record is valid at its new location
                assert(seg_data(logc, comp_gen) == logb.last().data + bytes@);
                assert(seg_data(logc, comp_gen).subrange(
                    newloc.pos as int,
                    newloc.pos + newloc.len,
                ) =~= bytes@);
                lemma_rec_decode_encode(seg_data(logc, comp_gen), newloc.pos as int, rec_i);
                assert(entry_valid(logc, kk, newloc));
                assert(entry_value(logc, newloc) == entry_value(segs0, ix0[i as int].1));
            }
            let ghost acts_b = actions@;
            actions.push(Action::Append { gen: comp_gen, bytes });
            proof {
                assert(actions@ == acts_b.push(actions@.last()));
                lemma_apply_actions_push(d0, acts_b, actions@.last());
                lemma_disk_of_last(logb);
                assert(disk_of(logc) == apply_action(disk_of(logb), actions@.last()));
                assert(apply_actions(d0, actions@) == disk_of(logc));
            }
            let ghost ixb = self.index@;
            self.index.set_location(i, newloc);
            proof {
                lemma_live_take(ix0, i as int);
                assert(amap(self.index@) == amap(ixb).insert(kk, newloc));
                assert(amap(ixb).contains_key(kk));
                assert forall|k: Seq<u8>| #[trigger]
                    amap(self.index@).contains_key(k) <==> amap(ix0).contains_key(k) by {
                    assert(amap(self.index@).contains_key(k) <==> amap(ixb).contains_key(k));
                }
                crecs = crecs.push(rec_i);
            }
            i += 1;
        }
        proof {
            assert(ix0.take(n as int) =~= ix0);
            assert(self.log@.last().data.len() == live0);
        }
        let ghost compf = self.log@.last();
        let ghost ixf = self.index@;
        let ghost logc = self.log@;

        // open a fresh generation for future appends
        let new_cur = self.log.rotate();
        let ghost acts_r = actions@;
        actions.push(Action::Create { gen: new_cur });
        let ghost fresh = SegView { gen: new_cur, data: seq![] };
        proof {
            assert(!has_gen(logc, new_cur)) by {
                if has_gen(logc, new_cur) {
                    let i2 = choose|i2: int|
                        0 <= i2 < logc.len() && (#[trigger] logc[i2]).gen == new_cur;
                    if i2 < logc.len() - 1 {
                        assert(logc[i2].gen < logc[logc.len() - 1].gen);
                    }
                }
            }
            lemma_segs_push(logc, fresh);
            lemma_scan_empty();
            assert forall|k: Seq<u8>| #[trigger] amap(ixf).contains_key(k) implies entry_valid(
                self.log@,
                k,
                amap(ixf)[k],
            ) && entry_value(self.log@, amap(ixf)[k]) == entry_value(segs0, amap(ix0)[k]) by {
                let l = amap(ixf)[k];
                assert(entry_valid(logc, k, l));
                assert(l.gen != new_cur);
                assert(seg_data(self.log@, l.gen) == seg_data(logc, l.gen));
            }
            assert(actions@ == acts_r.push(actions@.last()));
            lemma_apply_actions_push(d0, acts_r, actions@.last());
            assert(disk_of(self.log@) == apply_actions(d0, actions@));
        }

        // delete every generation before the compaction output
        while self.log.segments.len() > 2
            invariant
                self.log@.len() >= 2,
                gens_sorted(self.log@),
                self.log@[self.log@.len() - 2] == compf,
                self.log@.last() == fresh,
                compf.gen == comp_gen,
                fresh.gen == new_cur,
                self.index@ == ixf,
                self.index.wf(),
                forall|j: int| 0 <= j < ixf.len() ==> (#[trigger] ixf[j]).1.gen == comp_gen,
                forall|k: Seq<u8>| #[trigger]
                    amap(ixf).contains_key(k) ==> entry_valid(self.log@, k, amap(ixf)[k])
                    && entry_value(self.log@, amap(ixf)[k]) == entry_value(segs0, amap(ix0)[k]),
                forall|k: Seq<u8>| #[trigger]
                    amap(ixf).contains_key(k) <==> amap(ix0).contains_key(k),
                forall|k: Seq<u8>| #[trigger]
                    amap(ix0).contains_key(k) ==> entry_valid(segs0, k, amap(ix0)[k]),
                keys_unique(ix0),
                ixf.len() == ix0.len(),
                spec_scan(compf.data).end is Clean,
                spec_scan(compf.data).recs == crecs,
                crecs.len() == ix0.len(),
                forall|j: int|
                    0 <= j < crecs.len() ==> #[trigger] crecs[j] == (Rec::Put {
                        key: ix0[j].0,
                        value: entry_value(segs0, ix0[j].1),
                    }),
                live_bytes(ixf) == live0,
                compf.data.len() == live0,
                self.index.uncompacted == old(self).spec_uncompacted(),
                kv0 == kv_of(segs0, ix0),
                apply_actions(d0, actions@) == disk_of(self.log@),
            decreases self.log@.len(),
        {
            let ghost logd = self.log@;
            proof {
                assert(logd[0].gen < logd[logd.len() - 2].gen);
                lemma_segs_drop_first(logd);
            }
            let g = self.log.drop_first();
            let ghost acts_d = actions@;
            actions.push(Action::Delete { gen: g });
            proof {
                assert(self.log@[self.log@.len() - 2] == logd[logd.len() - 2]);
                assert(self.log@.last() == logd.last());
                assert forall|k: Seq<u8>| #[trigger] amap(ixf).contains_key(k) implies entry_valid(
                    self.log@,
                    k,
                    amap(ixf)[k],
                ) && entry_value(self.log@, amap(ixf)[k]) == entry_value(segs0, amap(ix0)[k]) by {
                    let l = amap(ixf)[k];
                    assert(entry_valid(logd, k, l));
                    let j = lemma_amap_witness(ixf, k);
                    assert(l.gen == comp_gen);
                    assert(seg_data(self.log@, l.gen) == seg_data(logd, l.gen));
                }
                assert(actions@ == acts_d.push(actions@.last()));
                lemma_apply_actions_push(d0, acts_d, actions@.last());
            }
        }
        self.index.reset_uncompacted();

        // the surviving log is exactly the compaction output plus the fresh
        // current generation, and replaying it rebuilds the live state
        proof {
            let segsf = self.log@;
            assert(segsf.len() == 2);
            assert(segsf[0] == compf);
            assert(segsf[1] == fresh);
            assert(segsf.last() == fresh);
            assert(segsf.drop_last() =~= seq![compf]);
            assert(seq![compf].drop_last() =~= Seq::<SegView>::empty());
            assert(all_recs(Seq::<SegView>::empty()) =~= Seq::<Rec>::empty());
            assert(all_recs(seq![compf]) =~= crecs);
            lemma_scan_empty();
            assert(all_recs(segsf) =~= crecs);
            assert(total_bytes(Seq::<SegView>::empty()) == 0);
            assert(total_bytes(seq![compf]) == compf.data.len());
            assert(total_bytes(segsf) == live0);
            // replaying the copied records rebuilds exactly the live state
            assert forall|j: int| 0 <= j < crecs.len() implies (#[trigger] crecs[j]) is Put by {}
            assert forall|i2: int, j2: int| 0 <= i2 < j2 < crecs.len() implies (
            #[trigger] crecs[i2])->Put_key != (#[trigger] crecs[j2])->Put_key by {
                assert(crecs[i2]->Put_key == ix0[i2].0);
                assert(crecs[j2]->Put_key == ix0[j2].0);
            }
            lemma_replay_distinct_puts(Map::<Seq<u8>, Seq<u8>>::empty(), crecs);
            assert(self.index@ == ixf);
            assert(self.kv() == kv_of(segsf, ixf));
            assert(spec_recover(segsf) == replay(Map::<Seq<u8>, Seq<u8>>::empty(), crecs));
            let rr = replay(Map::<Seq<u8>, Seq<u8>>::empty(), crecs);
            assert forall|k: Seq<u8>| #[trigger] rr.contains_key(k) implies self.kv().contains_key(
                k,
            ) by {
                let j = choose|j: int| 0 <= j < crecs.len() && (#[trigger] crecs[j])->Put_key == k;
                assert(crecs[j] == (Rec::Put {
                    key: ix0[j].0,
                    value: entry_value(segs0, ix0[j].1),
                }));
                assert(ix0[j].0 == k);
                lemma_amap_contains(ix0, k);
                assert(amap(ix0).contains_key(k));
                assert(amap(ixf).contains_key(k));
            }
            assert forall|k: Seq<u8>| #[trigger] self.kv().contains_key(k) implies rr.contains_key(
                k,
            ) && rr[k] == self.kv()[k] by {
                assert(amap(ixf).contains_key(k));
                assert(amap(ix0).contains_key(k));
                let j = lemma_amap_witness(ix0, k);
                assert(crecs[j] == (Rec::Put {
                    key: ix0[j].0,
                    value: entry_value(segs0, ix0[j].1),
                }));
                assert(crecs[j]->Put_key == k);
                assert(rr.contains_key(k));
                assert(rr[crecs[j]->Put_key] == crecs[j]->Put_value);
                assert(rr[k] == entry_value(segs0, ix0[j].1));
                assert(amap(ix0)[k] == ix0[j].1);
                assert(entry_value(self.log@, amap(ixf)[k]) == entry_value(segs0, amap(ix0)[k]));
                assert(self.kv()[k] == entry_value(segsf, amap(ixf)[k]));
            }
            assert(spec_recover(segsf) =~= self.kv());
            assert forall|k: Seq<u8>| #[trigger] self.kv().contains_key(k) implies kv0.contains_key(
                k,
            ) && self.kv()[k] == kv0[k] by {
                assert(amap(ixf).contains_key(k));
                assert(amap(ix0).contains_key(k));
                assert(entry_value(segsf, amap(ixf)[k]) == entry_value(segs0, amap(ix0)[k]));
            }
            assert forall|k: Seq<u8>| #[trigger] kv0.contains_key(k) implies self.kv().contains_key(
                k,
            ) by {
                assert(amap(ix0).contains_key(k));
                assert(amap(ixf).contains_key(k));
            }
            assert(self.kv() =~= kv0);
            assert(self.wf()) by {
                assert(spec_scan(segsf.last().data).end is Clean);
                assert(live_bytes(ixf) == live0);
                assert(self.spec_uncompacted() == 0);
            }
            // the directory holds exactly the compaction output and the new
            // empty current generation, and every index entry lives in the
            // former
            assert(disk_of(Seq::<SegView>::empty()) =~= Map::<u64, Seq<u8>>::empty());
            assert(disk_of(seq![compf]) =~= Map::<u64, Seq<u8>>::empty().insert(
                comp_gen,
                compf.data,
            ));
            assert(self.disk() == disk_of(seq![compf]).insert(new_cur, fresh.data));
            assert(self.disk().dom() =~= set![comp_gen, new_cur]);
            assert(self.disk()[new_cur] =~= Seq::<u8>::empty());
            assert forall|k: Seq<u8>| #[trigger] self.locations().contains_key(
                k,
            ) implies self.locations()[k].gen == comp_gen by {
                let j = lemma_amap_witness(ixf, k);
            }
        }
        actions
    }
}

} // verus!

verus! {

impl KvStore {
    /// Set `key` to `value`: a mapping record is appended to the current
    /// generation and the index is pointed at it.  When the uncompacted
    /// counter reaches the compaction threshold, a compaction pass runs
    /// before returning.
    pub fn set(&mut self, key: Vec<u8>, value: Vec<u8>) -> (r: Result<Vec<Action>, KvError>)
        requires
            old(self).wf(),
            old(self).can_set(key@.len() as int, value@.len() as int),
        ensures
            final(self).wf(),
            final(self).kv() == old(self).kv().insert(key@, value@),
            final(self).spec_current_gen() >= old(self).spec_current_gen(),
            final(self).spec_current_gen() <= old(self).spec_current_gen() + 2,
            final(self).spec_total_bytes() <= old(self).spec_total_bytes() + FRAME_OVERHEAD
                + key@.len() + value@.len(),
            final(self).spec_uncompacted() < COMPACTION_THRESHOLD,
            ({
                let stale = old(self).spec_uncompacted() + old(self).stale_on_set(key@);
                let enc = spec_encode_rec(Rec::Put { key: key@, value: value@ });
                let g0 = old(self).spec_current_gen();
                if stale >= COMPACTION_THRESHOLD {
                    // the record is appended, then a compaction pass runs
                    &&& final(self).spec_uncompacted() == 0
                    &&& final(self).spec_current_gen() == g0 + 2
                    &&& final(self).spec_total_bytes() == final(self).spec_live_bytes()
                    &&& final(self).disk().dom() == set![(g0 + 1) as u64, (g0 + 2) as u64]
                } else {
                    // exactly the encoded record is appended to the current
                    // generation, with no trailing delimiter
                    &&& final(self).spec_uncompacted() == stale
                    &&& final(self).spec_current_gen() == g0
                    &&& final(self).spec_total_bytes() == old(self).spec_total_bytes()
                        + enc.len()
                    &&& final(self).disk() == old(self).disk().insert(
                        g0,
                        old(self).disk()[g0] + enc,
                    )
                }
            }),
            match r {
                Ok(acts) => final(self).disk() == apply_actions(old(self).disk(), acts@),
                Err(_) => false,
            },
    {
        let ghost segs0 = self.segs();
        let ghost ix0 = self.index@;
        let ghost kv0 = self.kv();
        let ghost d0 = self.disk();
        let ghost g0 = self.spec_current_gen();
        let ghost kk = key@;
        let ghost vv = value@;
        let cmd = Command::set(key, value);
        let ghost rec = cmd@;
        let buf = encode_command(&cmd);
        let loc = self.log.append(&buf);
        let ghost segs1 = self.segs();
        proof {
            lemma_encode_rec_len(rec);
            lemma_segs_extend_last(segs0, buf@);
            lemma_scan_append(segs0.last().data, rec, 0);
            assert(segs1.drop_last() =~= segs0.drop_last());
            assert(all_recs(segs1) =~= all_recs(segs0).push(rec));
            lemma_replay_push(Map::<Seq<u8>, Seq<u8>>::empty(), all_recs(segs0), rec);
            assert(spec_recover(segs1) == kv0.insert(kk, vv));
            assert forall|k: Seq<u8>| #[trigger] amap(ix0).contains_key(k) implies entry_valid(
                segs1,
                k,
                amap(ix0)[k],
            ) && entry_value(segs1, amap(ix0)[k]) == entry_value(segs0, amap(ix0)[k]) by {
                assert(old(self).locations().contains_key(k));
                let l = amap(ix0)[k];
                assert(entry_valid(segs0, k, l));
                if l.gen == g0 {
                    lemma_rec_decode_prefix(segs0.last().data, buf@, l.pos as int);
                } else {
                    assert(seg_data(segs1, l.gen) == seg_data(segs0, l.gen));
                }
            }
            // the new record decodes at its location
            assert(seg_data(segs1, g0) == segs0.last().data + buf@);
            assert(seg_data(segs1, g0).subrange(loc.pos as int, loc.pos + loc.len) =~= buf@);
            lemma_rec_decode_encode(seg_data(segs1, g0), loc.pos as int, rec);
            lemma_live_nonneg(ix0);
        }
        let key2 = match cmd {
            Command::Put { key, .. } => key,
            Command::Del { .. } => {
                proof {
                    assert(false);
                }
                vstd::pervasive::unreached()
            },
        };
        let prev = self.index.insert(key2, loc);
        let mut actions: Vec<Action> = Vec::new();
        actions.push(Action::Append { gen: loc.gen, bytes: buf });
        proof {
            assert(entry_valid(segs1, kk, loc));
            assert(entry_value(segs1, loc) == vv);
            assert(self.kv() =~= kv0.insert(kk, vv));
            assert(self.wf()) by {
                assert(spec_scan(self.segs().last().data).end is Clean);
                assert(spec_recover(self.segs()) == self.kv());
            }
            lemma_disk_of_last(segs0);
            assert(actions@.drop_first() =~= Seq::<Action>::empty());
            assert(apply_actions(apply_action(d0, actions@[0]), actions@.drop_first())
                == apply_action(d0, actions@[0]));
            assert(self.disk() =~= apply_action(d0, actions@[0]));
            assert(self.disk() == apply_actions(d0, actions@));
            assert(self.disk() == d0.insert(g0, d0[g0] + spec_encode_rec(rec)));
            assert(self.spec_uncompacted() == old(self).spec_uncompacted() + old(
                self,
            ).stale_on_set(kk));
        }
        if self.index.uncompacted >= COMPACTION_THRESHOLD {
            let ghost d1 = self.disk();
            let ghost acts1 = actions@;
            let mut more = self.compact();
            proof {
                lemma_apply_actions_concat(d0, acts1, more@);
            }
            actions.append(&mut more);
        }
        Ok(actions)
    }
}

} // verus!

verus! {

/// The key a record is about.
pub open spec fn rec_key(r: Rec) -> Seq<u8> {
    match r {
        Rec::Put { key, .. } => key,
        Rec::Del { key } => key,
    }
}

/// The most recent record about key `k` in the history `h`, if any.
pub open spec fn last_op_on(h: Seq<Rec>, k: Seq<u8>) -> Option<Rec>
    decreases h.len(),
{
    if h.len() == 0 {
        None
    } else if rec_key(h.last()) == k {
        Some(h.last())
    } else {
        last_op_on(h.drop_last(), k)
    }
}

/// Last write wins: after replaying any history of records, a key reads as
/// the value of its most recent mapping assertion; it reads as absent if its
/// most recent record is a retraction; and it keeps its starting state if no
/// record touches it.
pub proof fn lemma_last_write_wins(m: Map<Seq<u8>, Seq<u8>>, h: Seq<Rec>, k: Seq<u8>)
    ensures
        match last_op_on(h, k) {
            Some(r) => (r is Put ==> replay(m, h).contains_key(k) && replay(m, h)[k]
                == r->Put_value) && (r is Del ==> !replay(m, h).contains_key(k)),
            None => replay(m, h).contains_key(k) == m.contains_key(k) && (m.contains_key(k)
                ==> replay(m, h)[k] == m[k]),
        },
    decreases h.len(),
{
    if h.len() > 0 {
        let r = h.last();
        let t = h.drop_last();
        assert(t.push(r) =~= h);
        lemma_replay_push(m, t, r);
        if rec_key(r) == k {
        } else {
            lemma_last_write_wins(m, t, k);
        }
    }
}

/// Removing a key reads back as absent until it is set again, and touches no
/// other key.
pub proof fn lemma_remove_then_get(m: Map<Seq<u8>, Seq<u8>>, k: Seq<u8>, k2: Seq<u8>)
    ensures
        !m.remove(k).contains_key(k),
        k2 != k ==> m.remove(k).contains_key(k2) == m.contains_key(k2),
        k2 != k && m.contains_key(k2) ==> m.remove(k)[k2] == m[k2],
{
}

impl KvStore {
    /// A copy of the engine's disk image, in the shape [`KvStore::open`]
    /// takes: what the data directory holds once every returned action has
    /// been applied.  Tests use it to play a restart.
    pub fn snapshot(&self) -> (r: Vec<Segment>)
        requires
            self.wf(),
        ensures
            segs_view(r@) == self.segs(),
            gens_sorted(segs_view(r@)),
            total_bytes(segs_view(r@)) == self.spec_total_bytes(),
            segs_view(r@).len() > 0,
            segs_view(r@).last().gen == self.spec_current_gen(),
            spec_recover(segs_view(r@)) == self.kv(),
    {
        let mut out: Vec<Segment> = Vec::new();
        let mut i: usize = 0;
        while i < self.log.segments.len()
            invariant
                i <= self.log.segments@.len(),
                out@.len() == i,
                forall|j: int| 0 <= j < i ==> (#[trigger] out@[j])@ == self.segs()[j],
            decreases self.log.segments@.len() - i,
        {
            let s = &self.log.segments[i];
            proof {
                assert(self.segs()[i as int] == self.log.segments@[i as int]@);
            }
            out.push(Segment { gen: s.gen, data: crate::codec::copy_bytes(&s.data) });
            proof {
                assert(out@.last()@ == self.segs()[i as int]);
            }
            i += 1;
        }
        proof {
            assert forall|j: int| 0 <= j < out@.len() implies segs_view(out@)[j] == self.segs()[
                j
            ] by {
                assert(out@[j]@ == self.segs()[j]);
            }
            assert(segs_view(out@) =~= self.segs());
        }
        out
    }

    /// The number of live keys.
    pub fn len(&self) -> (r: usize)
        requires
            self.wf(),
        ensures
            r == self.kv().dom().len(),
    {
        proof {
            lemma_kv_len(self.segs(), self.index@);
        }
        self.index.len()
    }
}

/// With unique keys, the indexed state has exactly one key per entry.
pub proof fn lemma_kv_len(segs: Seq<SegView>, ix: Seq<(Seq<u8>, CommandPos)>)
    requires
        keys_unique(ix),
    ensures
        kv_of(segs, ix).dom().len() == ix.len(),
        kv_of(segs, ix).dom().finite(),
    decreases ix.len(),
{
    if ix.len() == 0 {
        assert(kv_of(segs, ix).dom() =~= Set::<Seq<u8>>::empty());
    } else {
        let t = ix.drop_last();
        lemma_kv_len(segs, t);
        lemma_amap_contains(t, ix.last().0);
        assert(!amap(t).contains_key(ix.last().0)) by {
            if amap(t).contains_key(ix.last().0) {
                let j = choose|j: int| 0 <= j < t.len() && (#[trigger] t[j]).0 == ix.last().0;
                assert(ix[j].0 == ix.last().0);
            }
        }
        assert(kv_of(segs, ix).dom() =~= kv_of(segs, t).dom().insert(ix.last().0));
    }
}

} // verus!

verus! {

/// Every stored value fits in one response frame: it once arrived in one
/// record frame.
pub proof fn lemma_value_bounded(s: &KvStore, k: Seq<u8>)
    requires
        s.wf(),
        s.kv().contains_key(k),
    ensures
        s.kv()[k].len() + FRAME_OVERHEAD <= u32::MAX,
{
    assert(s.locations().contains_key(k));
    let loc = s.locations()[k];
    assert(entry_valid(s.segs(), k, loc));
    lemma_rec_decode_props(seg_data(s.segs(), loc.gen), loc.pos as int);
}

impl KvStore {
    /// The total byte size of the log image.
    pub fn total_bytes(&self) -> (r: u64)
        requires
            self.wf(),
        ensures
            r == self.spec_total_bytes(),
    {
        let mut sum: u64 = 0;
        let mut i: usize = 0;
        proof {
            assert(self.segs().take(0) =~= Seq::<SegView>::empty());
        }
        while i < self.log.segments.len()
            invariant
                self.wf(),
                i <= self.log.segments@.len(),
                sum == total_bytes(self.segs().take(i as int)),
            decreases self.log.segments@.len() - i,
        {
            proof {
                lemma_total_take(self.segs(), i as int);
                lemma_total_take_bound(self.segs(), i as int + 1);
                assert(self.segs()[i as int] == self.log.segments@[i as int]@);
            }
            sum = sum + (self.log.segments[i].data.len() as u64);
            i += 1;
        }
        proof {
            assert(self.segs().take(self.log.segments@.len() as int) =~= self.segs());
        }
        sum
    }

    /// Whether `set(key, value)` is within the machine limits right now.
    pub fn set_fits(&self, key: &Vec<u8>, value: &Vec<u8>) -> (r: bool)
        requires
            self.wf(),
        ensures
            r == self.can_set(key@.len() as int, value@.len() as int),
    {
        let kl = key.len() as u64;
        let vl = value.len() as u64;
        if kl > 0xFFFF_FFFFu64 || vl > 0xFFFF_FFFFu64 {
            return false;
        }
        let need = (FRAME_OVERHEAD as u64) + kl + vl;
        if need > 0xFFFF_FFFFu64 {
            return false;
        }
        let tot = self.total_bytes();
        if tot > MAX_LOG_BYTES - need {
            return false;
        }
        self.current_gen() <= u64::MAX - 2
    }

    /// Whether `remove(key)` is within the machine limits right now.
    pub fn remove_fits(&self, key: &Vec<u8>) -> (r: bool)
        requires
            self.wf(),
        ensures
            r == self.can_remove(key@.len() as int),
    {
        let empty: Vec<u8> = Vec::new();
        self.set_fits(key, &empty)
    }
}

} // verus!
