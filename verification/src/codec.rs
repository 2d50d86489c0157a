//! Self-delimiting binary record codec.
//!
//! Every document on disk and on the wire is a *frame*: a length-prefixed,
//! self-describing byte string holding a one-byte tag and two byte-string
//! fields.  The first four bytes of a frame give the frame's total encoded
//! length (little endian), so a reader positioned at a frame boundary can
//! decode the next frame without any external length information.
//!
//! Layout of one frame with field lengths `alen` and `blen`:
//!
//! ```text
//! offset    0..4   total length N (u32, little endian), N = 14 + alen + blen
//! offset    4      tag byte
//! offset    5..9   alen (u32, little endian)
//! offset    9..    the `a` field (alen bytes)
//! offset    ..     blen (u32, little endian)
//! offset    ..     the `b` field (blen bytes)
//! offset    N-1    terminator byte, always zero
//! ```
//!
//! Log records (`Command`) are frames with tag [`TAG_PUT`] or [`TAG_DEL`];
//! the wire protocol adds further tags on the same frame layout.

use vstd::bytes::*;
use vstd::prelude::*;
use vstd::slice::*;

verus! {

/// Framing bytes around the two fields of a document: the length prefix,
/// the tag, the two field lengths and the terminator.
pub const FRAME_OVERHEAD: usize = 14;

/// Tag of a record asserting a mapping (a `set`).
pub const TAG_PUT: u8 = 1;

/// Tag of a record retracting a mapping (a `remove`).
pub const TAG_DEL: u8 = 2;

/// The mathematical model of a frame: a tag and two byte strings.
#[verifier::ext_equal]
pub struct FrameModel {
    pub tag: u8,
    pub a: Seq<u8>,
    pub b: Seq<u8>,
}

/// A decoded frame.
pub struct Frame {
    pub tag: u8,
    pub a: Vec<u8>,
    pub b: Vec<u8>,
}

impl View for Frame {
    type V = FrameModel;

    open spec fn view(&self) -> FrameModel {
        FrameModel { tag: self.tag, a: self.a@, b: self.b@ }
    }
}

/// Whether a frame's encoded length fits in the u32 length prefix.
pub open spec fn frame_fits(f: FrameModel) -> bool {
    FRAME_OVERHEAD + f.a.len() + f.b.len() <= u32::MAX
}

/// The number of bytes in the encoding of `f`.
pub open spec fn spec_frame_len(f: FrameModel) -> int {
    FRAME_OVERHEAD + f.a.len() + f.b.len()
}

/// The encoding of one frame, exactly as laid out in the module comment.
pub open spec fn spec_encode_frame(f: FrameModel) -> Seq<u8> {
    spec_u32_to_le_bytes(spec_frame_len(f) as u32) + seq![f.tag] + spec_u32_to_le_bytes(
        f.a.len() as u32,
    ) + f.a + spec_u32_to_le_bytes(f.b.len() as u32) + f.b + seq![0u8]
}

/// The outcome of trying to decode one frame at a position.
pub enum SpecFrameDecode {
    /// The position is exactly the end of the input.
    AtEnd,
    /// The input ends before the announced end of the frame.
    Truncated,
    /// The framing is malformed.
    Corrupt,
    /// A well-formed frame occupying `len` bytes.
    Found { frame: FrameModel, len: int },
}

/// Decode one frame of `data` starting at `pos`.
pub open spec fn spec_decode_frame_at(data: Seq<u8>, pos: int) -> SpecFrameDecode
    recommends
        0 <= pos <= data.len(),
{
    if pos == data.len() {
        SpecFrameDecode::AtEnd
    } else if data.len() - pos < 4 {
        SpecFrameDecode::Truncated
    } else {
        let n = spec_u32_from_le_bytes(data.subrange(pos, pos + 4)) as int;
        if n < FRAME_OVERHEAD {
            SpecFrameDecode::Corrupt
        } else if n > data.len() - pos {
            SpecFrameDecode::Truncated
        } else {
            let tag = data[pos + 4];
            let alen = spec_u32_from_le_bytes(data.subrange(pos + 5, pos + 9)) as int;
            if FRAME_OVERHEAD + alen > n {
                SpecFrameDecode::Corrupt
            } else {
                let blen = spec_u32_from_le_bytes(
                    data.subrange(pos + 9 + alen, pos + 13 + alen),
                ) as int;
                if FRAME_OVERHEAD + alen + blen != n {
                    SpecFrameDecode::Corrupt
                } else if data[pos + n - 1] != 0u8 {
                    SpecFrameDecode::Corrupt
                } else {
                    SpecFrameDecode::Found {
                        frame: FrameModel {
                            tag,
                            a: data.subrange(pos + 9, pos + 9 + alen),
                            b: data.subrange(pos + 13 + alen, pos + 13 + alen + blen),
                        },
                        len: n,
                    }
                }
            }
        }
    }
}

/// Basic facts about a successful frame decode.
pub proof fn lemma_frame_decode_props(data: Seq<u8>, pos: int)
    requires
        0 <= pos <= data.len(),
        spec_decode_frame_at(data, pos) is Found,
    ensures
        ({
            let f = spec_decode_frame_at(data, pos)->Found_frame;
            let n = spec_decode_frame_at(data, pos)->Found_len;
            &&& FRAME_OVERHEAD <= n <= data.len() - pos
            &&& frame_fits(f)
            &&& spec_frame_len(f) == n
        }),
{
    vstd::bytes::lemma_auto_spec_u32_to_from_le_bytes();
}

/// A successful decode is not disturbed by bytes appended after the input:
/// the codec is self-delimiting.
pub proof fn lemma_frame_decode_prefix(data: Seq<u8>, ext: Seq<u8>, pos: int)
    requires
        0 <= pos <= data.len(),
        spec_decode_frame_at(data, pos) is Found,
    ensures
        spec_decode_frame_at(data + ext, pos) == spec_decode_frame_at(data, pos),
{
    let data2 = data + ext;
    lemma_frame_decode_props(data, pos);
    let n = spec_decode_frame_at(data, pos)->Found_len;
    assert(data2.subrange(pos, pos + 4) =~= data.subrange(pos, pos + 4));
    assert(data2.subrange(pos + 5, pos + 9) =~= data.subrange(pos + 5, pos + 9));
    let alen = spec_u32_from_le_bytes(data.subrange(pos + 5, pos + 9)) as int;
    assert(data2.subrange(pos + 9 + alen, pos + 13 + alen) =~= data.subrange(
        pos + 9 + alen,
        pos + 13 + alen,
    ));
    let blen = spec_u32_from_le_bytes(data.subrange(pos + 9 + alen, pos + 13 + alen)) as int;
    assert(data2.subrange(pos + 9, pos + 9 + alen) =~= data.subrange(pos + 9, pos + 9 + alen));
    assert(data2.subrange(pos + 13 + alen, pos + 13 + alen + blen) =~= data.subrange(
        pos + 13 + alen,
        pos + 13 + alen + blen,
    ));
}

/// Round trip: decoding at a position whose bytes are the encoding of `f`
/// yields exactly `f` and consumes exactly the encoding's length.
pub proof fn lemma_frame_decode_encode(data: Seq<u8>, pos: int, f: FrameModel)
    requires
        frame_fits(f),
        0 <= pos,
        pos + spec_frame_len(f) <= data.len(),
        data.subrange(pos, pos + spec_frame_len(f)) == spec_encode_frame(f),
    ensures
        spec_decode_frame_at(data, pos) == (SpecFrameDecode::Found {
            frame: f,
            len: spec_frame_len(f),
        }),
{
    vstd::bytes::lemma_auto_spec_u32_to_from_le_bytes();
    let n = spec_frame_len(f);
    let enc = spec_encode_frame(f);
    let alen = f.a.len() as int;
    let blen = f.b.len() as int;
    assert(enc.len() == n);
    assert(data.subrange(pos, pos + 4) =~= enc.subrange(0, 4));
    assert(enc.subrange(0, 4) =~= spec_u32_to_le_bytes(n as u32));
    assert(spec_u32_from_le_bytes(data.subrange(pos, pos + 4)) == n as u32);
    assert(data[pos + 4] == enc[4]);
    assert(enc[4] == f.tag);
    assert(data.subrange(pos + 5, pos + 9) =~= enc.subrange(5, 9));
    assert(enc.subrange(5, 9) =~= spec_u32_to_le_bytes(alen as u32));
    assert(spec_u32_from_le_bytes(data.subrange(pos + 5, pos + 9)) == alen as u32);
    assert(data.subrange(pos + 9, pos + 9 + alen) =~= enc.subrange(9, 9 + alen));
    assert(enc.subrange(9, 9 + alen) =~= f.a);
    assert(data.subrange(pos + 9 + alen, pos + 13 + alen) =~= enc.subrange(9 + alen, 13 + alen));
    assert(enc.subrange(9 + alen, 13 + alen) =~= spec_u32_to_le_bytes(blen as u32));
    assert(spec_u32_from_le_bytes(data.subrange(pos + 9 + alen, pos + 13 + alen)) == blen as u32);
    assert(data.subrange(pos + 13 + alen, pos + 13 + alen + blen) =~= enc.subrange(
        13 + alen,
        13 + alen + blen,
    ));
    assert(enc.subrange(13 + alen, 13 + alen + blen) =~= f.b);
    assert(data[pos + n - 1] == enc[n - 1]);
    assert(enc[n - 1] == 0u8);
    assert(spec_decode_frame_at(data, pos)->Found_frame =~= f);
}

/// The encoding is canonical: the bytes a successful decode consumed are
/// exactly the encoding of the frame it returned.
pub proof fn lemma_frame_decode_canonical(data: Seq<u8>, pos: int)
    requires
        0 <= pos <= data.len(),
        spec_decode_frame_at(data, pos) is Found,
    ensures
        ({
            let f = spec_decode_frame_at(data, pos)->Found_frame;
            let n = spec_decode_frame_at(data, pos)->Found_len;
            data.subrange(pos, pos + n) == spec_encode_frame(f)
        }),
{
    vstd::bytes::lemma_auto_spec_u32_to_from_le_bytes();
    let f = spec_decode_frame_at(data, pos)->Found_frame;
    let n = spec_decode_frame_at(data, pos)->Found_len;
    lemma_frame_decode_props(data, pos);
    let alen = f.a.len() as int;
    let blen = f.b.len() as int;
    let enc = spec_encode_frame(f);
    assert(spec_u32_to_le_bytes(n as u32) =~= data.subrange(pos, pos + 4));
    assert(spec_u32_to_le_bytes(alen as u32) =~= data.subrange(pos + 5, pos + 9));
    assert(spec_u32_to_le_bytes(blen as u32) =~= data.subrange(pos + 9 + alen, pos + 13 + alen));
    assert(data.subrange(pos, pos + n) =~= enc);
}

} // verus!

verus! {

/// A mutation recorded in the log: either an assertion of a mapping from a
/// key to a value (`Put`, written by `set`) or a retraction of a mapping
/// (`Del`, written by `remove`).  Keys and values are byte strings.
pub enum Command {
    Put { key: Vec<u8>, value: Vec<u8> },
    Del { key: Vec<u8> },
}

/// The mathematical model of a [`Command`]: the same two variants over byte
/// sequences.
#[verifier::ext_equal]
pub enum Rec {
    Put { key: Seq<u8>, value: Seq<u8> },
    Del { key: Seq<u8> },
}

impl View for Command {
    type V = Rec;

    open spec fn view(&self) -> Rec {
        match self {
            Command::Put { key, value } => Rec::Put { key: key@, value: value@ },
            Command::Del { key } => Rec::Del { key: key@ },
        }
    }
}

impl Command {
    /// The record written by `set(key, value)`.
    pub fn set(key: Vec<u8>, value: Vec<u8>) -> (r: Command)
        ensures
            r@ == (Rec::Put { key: key@, value: value@ }),
    {
        Command::Put { key, value }
    }

    /// The record written by `remove(key)`.
    pub fn remove(key: Vec<u8>) -> (r: Command)
        ensures
            r@ == (Rec::Del { key: key@ }),
    {
        Command::Del { key }
    }
}

/// Whether a record's encoded length fits in the u32 length prefix.
pub open spec fn rec_fits(r: Rec) -> bool {
    frame_fits(spec_rec_frame(r))
}

/// The frame that encodes a record.
pub open spec fn spec_rec_frame(r: Rec) -> FrameModel {
    match r {
        Rec::Put { key, value } => FrameModel { tag: TAG_PUT, a: key, b: value },
        Rec::Del { key } => FrameModel { tag: TAG_DEL, a: key, b: seq![] },
    }
}

/// The record a frame stands for, if any.
pub open spec fn spec_frame_rec(f: FrameModel) -> Option<Rec> {
    if f.tag == TAG_PUT {
        Some(Rec::Put { key: f.a, value: f.b })
    } else if f.tag == TAG_DEL && f.b.len() == 0 {
        Some(Rec::Del { key: f.a })
    } else {
        None
    }
}

/// The number of bytes in the encoding of `r`.
pub open spec fn spec_rec_len(r: Rec) -> int {
    spec_frame_len(spec_rec_frame(r))
}

/// The encoding of one record.
pub open spec fn spec_encode_rec(r: Rec) -> Seq<u8> {
    spec_encode_frame(spec_rec_frame(r))
}

/// The outcome of trying to decode one record at a position.
pub enum SpecRecDecode {
    /// The position is exactly the end of the input.
    AtEnd,
    /// The input ends before the announced end of the record.
    Truncated,
    /// The framing is malformed or the tag is not a record tag.
    Corrupt,
    /// A well-formed record occupying `len` bytes.
    Found { rec: Rec, len: int },
}

/// Decode one record of `data` starting at `pos`.
pub open spec fn spec_decode_rec_at(data: Seq<u8>, pos: int) -> SpecRecDecode
    recommends
        0 <= pos <= data.len(),
{
    match spec_decode_frame_at(data, pos) {
        SpecFrameDecode::AtEnd => SpecRecDecode::AtEnd,
        SpecFrameDecode::Truncated => SpecRecDecode::Truncated,
        SpecFrameDecode::Corrupt => SpecRecDecode::Corrupt,
        SpecFrameDecode::Found { frame, len } => match spec_frame_rec(frame) {
            Some(rec) => SpecRecDecode::Found { rec, len },
            None => SpecRecDecode::Corrupt,
        },
    }
}

/// Basic facts about a successful record decode.
pub proof fn lemma_rec_decode_props(data: Seq<u8>, pos: int)
    requires
        0 <= pos <= data.len(),
        spec_decode_rec_at(data, pos) is Found,
    ensures
        ({
            let r = spec_decode_rec_at(data, pos)->Found_rec;
            let n = spec_decode_rec_at(data, pos)->Found_len;
            &&& FRAME_OVERHEAD <= n <= data.len() - pos
            &&& rec_fits(r)
            &&& spec_rec_len(r) == n
        }),
{
    lemma_frame_decode_props(data, pos);
    let f = spec_decode_frame_at(data, pos)->Found_frame;
    let r = spec_decode_rec_at(data, pos)->Found_rec;
    assert(spec_rec_frame(r) =~= f);
}

/// A successful record decode is not disturbed by appended bytes.
pub proof fn lemma_rec_decode_prefix(data: Seq<u8>, ext: Seq<u8>, pos: int)
    requires
        0 <= pos <= data.len(),
        spec_decode_rec_at(data, pos) is Found,
    ensures
        spec_decode_rec_at(data + ext, pos) == spec_decode_rec_at(data, pos),
{
    lemma_frame_decode_prefix(data, ext, pos);
}

/// Round trip: decoding at a position whose bytes are the encoding of `r`
/// yields exactly `r`.
pub proof fn lemma_rec_decode_encode(data: Seq<u8>, pos: int, r: Rec)
    requires
        rec_fits(r),
        0 <= pos,
        pos + spec_rec_len(r) <= data.len(),
        data.subrange(pos, pos + spec_rec_len(r)) == spec_encode_rec(r),
    ensures
        spec_decode_rec_at(data, pos) == (SpecRecDecode::Found { rec: r, len: spec_rec_len(r) }),
{
    lemma_frame_decode_encode(data, pos, spec_rec_frame(r));
    let f = spec_rec_frame(r);
    match r {
        Rec::Put { key, value } => {
            assert(spec_frame_rec(f) == Some(r));
        }
        Rec::Del { key } => {
            assert(spec_frame_rec(f) == Some(r));
        }
    }
}

/// The record encoding is canonical: the bytes a successful decode consumed
/// are exactly the encoding of the record it returned.
pub proof fn lemma_rec_decode_canonical(data: Seq<u8>, pos: int)
    requires
        0 <= pos <= data.len(),
        spec_decode_rec_at(data, pos) is Found,
    ensures
        ({
            let r = spec_decode_rec_at(data, pos)->Found_rec;
            let n = spec_decode_rec_at(data, pos)->Found_len;
            data.subrange(pos, pos + n) == spec_encode_rec(r)
        }),
{
    lemma_frame_decode_canonical(data, pos);
    let f = spec_decode_frame_at(data, pos)->Found_frame;
    let r = spec_decode_rec_at(data, pos)->Found_rec;
    assert(spec_rec_frame(r) =~= f);
}

} // verus!

verus! {

/// How a sequential scan of records came to its end.
pub enum ScanEnd {
    /// The scan consumed the input exactly.
    Clean,
    /// The input ends in an incomplete record (a truncated tail).
    Truncated,
    /// The input ends in a malformed record.
    Corrupt,
}

/// The result of scanning records from a position to the end of the input:
/// the records decoded in order, and how the scan ended.
#[verifier::ext_equal]
pub struct SpecScan {
    pub recs: Seq<Rec>,
    pub end: ScanEnd,
}

/// Scan records of `data` from `pos` until the end of the input, a truncated
/// tail, or a malformed record.
pub open spec fn spec_scan_from(data: Seq<u8>, pos: int) -> SpecScan
    recommends
        0 <= pos <= data.len(),
    decreases data.len() - pos,
{
    match spec_decode_rec_at(data, pos) {
        SpecRecDecode::AtEnd => SpecScan { recs: seq![], end: ScanEnd::Clean },
        SpecRecDecode::Truncated => SpecScan { recs: seq![], end: ScanEnd::Truncated },
        SpecRecDecode::Corrupt => SpecScan { recs: seq![], end: ScanEnd::Corrupt },
        SpecRecDecode::Found { rec, len } => {
            if len < 1 || pos + len > data.len() {
                // never reached: a successful decode consumes at least one byte
                // and stays within the input
                SpecScan { recs: seq![], end: ScanEnd::Corrupt }
            } else {
                let rest = spec_scan_from(data, pos + len);
                SpecScan { recs: seq![rec] + rest.recs, end: rest.end }
            }
        },
    }
}

/// Scan all records of `data` from the start.
pub open spec fn spec_scan(data: Seq<u8>) -> SpecScan {
    spec_scan_from(data, 0)
}

/// The encoding of a frame is as long as the length it announces.
pub proof fn lemma_encode_frame_len(f: FrameModel)
    ensures
        spec_encode_frame(f).len() == spec_frame_len(f),
{
    vstd::bytes::lemma_auto_spec_u32_to_from_le_bytes();
}

/// The encoding of a record is as long as the length it announces.
pub proof fn lemma_encode_rec_len(r: Rec)
    ensures
        spec_encode_rec(r).len() == spec_rec_len(r),
{
    lemma_encode_frame_len(spec_rec_frame(r));
}

/// Appending one encoded record to an input that scans cleanly extends the
/// scan by exactly that record.
pub proof fn lemma_scan_append(data: Seq<u8>, r: Rec, pos: int)
    requires
        0 <= pos <= data.len(),
        rec_fits(r),
        spec_scan_from(data, pos).end is Clean,
    ensures
        spec_scan_from(data + spec_encode_rec(r), pos) == (SpecScan {
            recs: spec_scan_from(data, pos).recs.push(r),
            end: ScanEnd::Clean,
        }),
    decreases data.len() - pos,
{
    let enc = spec_encode_rec(r);
    let data2 = data + enc;
    lemma_encode_rec_len(r);
    match spec_decode_rec_at(data, pos) {
        SpecRecDecode::AtEnd => {
            assert(data2.subrange(pos, pos + spec_rec_len(r)) =~= enc);
            lemma_rec_decode_encode(data2, pos, r);
            assert(spec_scan_from(data2, pos + spec_rec_len(r)).recs =~= seq![]);
            assert(spec_scan_from(data2, pos).recs =~= spec_scan_from(data, pos).recs.push(r));
        }
        SpecRecDecode::Found { rec, len } => {
            lemma_rec_decode_props(data, pos);
            lemma_rec_decode_prefix(data, enc, pos);
            lemma_scan_append(data, r, pos + len);
            assert(spec_scan_from(data2, pos).recs =~= spec_scan_from(data, pos).recs.push(r));
        }
        SpecRecDecode::Truncated => {
            assert(false);
        }
        SpecRecDecode::Corrupt => {
            assert(false);
        }
    }
}

/// The scan of an empty input is empty and clean.
pub proof fn lemma_scan_empty()
    ensures
        spec_scan(seq![]) == (SpecScan { recs: seq![], end: ScanEnd::Clean }),
{
    assert(spec_scan_from(seq![], 0).recs =~= seq![]);
}

} // verus!

verus! {

/// Encode one frame, exactly as [`spec_encode_frame`] lays it out.
pub fn encode_frame(f: &Frame) -> (r: Vec<u8>)
    requires
        frame_fits(f@),
    ensures
        r@ == spec_encode_frame(f@),
        r@.len() == spec_frame_len(f@),
{
    proof {
        lemma_encode_frame_len(f@);
    }
    let n: u32 = (FRAME_OVERHEAD + f.a.len() + f.b.len()) as u32;
    let mut out = u32_to_le_bytes(n);
    out.push(f.tag);
    let mut alen_bytes = u32_to_le_bytes(f.a.len() as u32);
    out.append(&mut alen_bytes);
    let mut a_bytes = slice_to_vec(f.a.as_slice());
    out.append(&mut a_bytes);
    let mut blen_bytes = u32_to_le_bytes(f.b.len() as u32);
    out.append(&mut blen_bytes);
    let mut b_bytes = slice_to_vec(f.b.as_slice());
    out.append(&mut b_bytes);
    out.push(0u8);
    proof {
        assert(out@ =~= spec_encode_frame(f@));
    }
    out
}

/// The outcome of decoding one frame of a byte vector.
pub enum FrameDecoded {
    AtEnd,
    Truncated,
    Corrupt,
    Found { frame: Frame, len: usize },
}

/// Decode one frame of `data` starting at `pos`; agrees exactly with
/// [`spec_decode_frame_at`].
pub fn decode_frame_at(data: &Vec<u8>, pos: usize) -> (r: FrameDecoded)
    requires
        pos <= data@.len(),
    ensures
        match r {
            FrameDecoded::AtEnd => spec_decode_frame_at(data@, pos as int) is AtEnd,
            FrameDecoded::Truncated => spec_decode_frame_at(data@, pos as int) is Truncated,
            FrameDecoded::Corrupt => spec_decode_frame_at(data@, pos as int) is Corrupt,
            FrameDecoded::Found { frame, len } => spec_decode_frame_at(data@, pos as int)
                == (SpecFrameDecode::Found { frame: frame@, len: len as int }),
        },
{
    let dlen = data.len();
    if pos == dlen {
        return FrameDecoded::AtEnd;
    }
    if dlen - pos < 4 {
        return FrameDecoded::Truncated;
    }
    let n32 = u32_from_le_bytes(slice_subrange(data.as_slice(), pos, pos + 4));
    let n = n32 as usize;
    if n < FRAME_OVERHEAD {
        return FrameDecoded::Corrupt;
    }
    if n > dlen - pos {
        return FrameDecoded::Truncated;
    }
    let tag = data[pos + 4];
    let alen32 = u32_from_le_bytes(slice_subrange(data.as_slice(), pos + 5, pos + 9));
    if (FRAME_OVERHEAD as u64) + (alen32 as u64) > (n32 as u64) {
        return FrameDecoded::Corrupt;
    }
    let alen = alen32 as usize;
    let blen32 = u32_from_le_bytes(
        slice_subrange(data.as_slice(), pos + 9 + alen, pos + 13 + alen),
    );
    if (FRAME_OVERHEAD as u64) + (alen32 as u64) + (blen32 as u64) != (n32 as u64) {
        return FrameDecoded::Corrupt;
    }
    let blen = blen32 as usize;
    if data[pos + n - 1] != 0u8 {
        return FrameDecoded::Corrupt;
    }
    let a = slice_to_vec(slice_subrange(data.as_slice(), pos + 9, pos + 9 + alen));
    let b = slice_to_vec(slice_subrange(data.as_slice(), pos + 13 + alen, pos + 13 + alen + blen));
    FrameDecoded::Found { frame: Frame { tag, a, b }, len: n }
}

/// The outcome of decoding one record of a byte vector.
pub enum Decoded {
    AtEnd,
    Truncated,
    Corrupt,
    Found { cmd: Command, len: usize },
}

/// Decode one record of `data` starting at `pos`; agrees exactly with
/// [`spec_decode_rec_at`].
pub fn decode_command_at(data: &Vec<u8>, pos: usize) -> (r: Decoded)
    requires
        pos <= data@.len(),
    ensures
        match r {
            Decoded::AtEnd => spec_decode_rec_at(data@, pos as int) is AtEnd,
            Decoded::Truncated => spec_decode_rec_at(data@, pos as int) is Truncated,
            Decoded::Corrupt => spec_decode_rec_at(data@, pos as int) is Corrupt,
            Decoded::Found { cmd, len } => spec_decode_rec_at(data@, pos as int)
                == (SpecRecDecode::Found { rec: cmd@, len: len as int }),
        },
{
    match decode_frame_at(data, pos) {
        FrameDecoded::AtEnd => Decoded::AtEnd,
        FrameDecoded::Truncated => Decoded::Truncated,
        FrameDecoded::Corrupt => Decoded::Corrupt,
        FrameDecoded::Found { frame, len } => {
            let Frame { tag, a, b } = frame;
            if tag == TAG_PUT {
                Decoded::Found { cmd: Command::Put { key: a, value: b }, len }
            } else if tag == TAG_DEL && b.len() == 0 {
                proof {
                    assert(b@ =~= seq![]);
                }
                Decoded::Found { cmd: Command::Del { key: a }, len }
            } else {
                Decoded::Corrupt
            }
        },
    }
}

/// Encode one record, exactly as [`spec_encode_rec`] lays it out.
pub fn encode_command(c: &Command) -> (r: Vec<u8>)
    requires
        rec_fits(c@),
    ensures
        r@ == spec_encode_rec(c@),
        r@.len() == spec_rec_len(c@),
{
    let f = match c {
        Command::Put { key, value } => Frame {
            tag: TAG_PUT,
            a: slice_to_vec(key.as_slice()),
            b: slice_to_vec(value.as_slice()),
        },
        Command::Del { key } => Frame {
            tag: TAG_DEL,
            a: slice_to_vec(key.as_slice()),
            b: Vec::new(),
        },
    };
    proof {
        assert(f@ =~= spec_rec_frame(c@));
    }
    encode_frame(&f)
}

/// A copy of a byte vector with the same contents.
pub fn copy_bytes(v: &Vec<u8>) -> (r: Vec<u8>)
    ensures
        r@ == v@,
{
    slice_to_vec(v.as_slice())
}

} // verus!

verus! {

/// Whether two byte vectors hold the same bytes.
pub fn bytes_equal(a: &Vec<u8>, b: &Vec<u8>) -> (r: bool)
    ensures
        r == (a@ == b@),
{
    if a.len() != b.len() {
        return false;
    }
    let mut i: usize = 0;
    while i < a.len()
        invariant
            i <= a@.len(),
            a@.len() == b@.len(),
            forall|j: int| 0 <= j < i ==> a@[j] == b@[j],
        decreases a@.len() - i,
    {
        if a[i] != b[i] {
            return false;
        }
        i += 1;
    }
    proof {
        assert(a@ =~= b@);
    }
    true
}

} // verus!

verus! {

/// A successful decode is not disturbed by restricting the input to any
/// prefix that still contains the whole frame.
pub proof fn lemma_frame_decode_take(data: Seq<u8>, p: int, pos: int)
    requires
        0 <= pos <= data.len(),
        spec_decode_frame_at(data, pos) is Found,
        pos + spec_decode_frame_at(data, pos)->Found_len <= p <= data.len(),
    ensures
        spec_decode_frame_at(data.take(p), pos) == spec_decode_frame_at(data, pos),
{
    lemma_frame_decode_props(data, pos);
    let t = data.take(p);
    let n = spec_decode_frame_at(data, pos)->Found_len;
    assert(t.subrange(pos, pos + 4) =~= data.subrange(pos, pos + 4));
    assert(t.subrange(pos + 5, pos + 9) =~= data.subrange(pos + 5, pos + 9));
    let alen = spec_u32_from_le_bytes(data.subrange(pos + 5, pos + 9)) as int;
    assert(t.subrange(pos + 9 + alen, pos + 13 + alen) =~= data.subrange(
        pos + 9 + alen,
        pos + 13 + alen,
    ));
    let blen = spec_u32_from_le_bytes(data.subrange(pos + 9 + alen, pos + 13 + alen)) as int;
    assert(t.subrange(pos + 9, pos + 9 + alen) =~= data.subrange(pos + 9, pos + 9 + alen));
    assert(t.subrange(pos + 13 + alen, pos + 13 + alen + blen) =~= data.subrange(
        pos + 13 + alen,
        pos + 13 + alen + blen,
    ));
}

/// A successful record decode is likewise kept by any prefix containing the
/// whole record.
pub proof fn lemma_rec_decode_take(data: Seq<u8>, p: int, pos: int)
    requires
        0 <= pos <= data.len(),
        spec_decode_rec_at(data, pos) is Found,
        pos + spec_decode_rec_at(data, pos)->Found_len <= p <= data.len(),
    ensures
        spec_decode_rec_at(data.take(p), pos) == spec_decode_rec_at(data, pos),
{
    lemma_frame_decode_take(data, p, pos);
}

} // verus!
