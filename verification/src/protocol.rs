//! The wire protocol: each request and each response travels as exactly one
//! self-delimiting frame (see [`crate::codec`]), with no extra length prefix
//! and no handshake.  The connection is closed after one round trip.

use crate::codec::{decode_frame_at, encode_frame, frame_fits, lemma_encode_frame_len,
    lemma_frame_decode_encode, spec_decode_frame_at, spec_encode_frame, Frame, FrameDecoded,
    FrameModel, SpecFrameDecode, TAG_DEL, TAG_PUT};
use crate::error::KvError;
use vstd::prelude::*;
use vstd::slice::slice_to_vec;

verus! {

/// Tag of a `Get` request frame; `Set` and `Remove` requests reuse the
/// record tags [`TAG_PUT`] and [`TAG_DEL`].
pub const TAG_GET: u8 = 3;

/// Tag of a get response carrying a value.
pub const TAG_VALUE: u8 = 4;

/// Tag of a get response for an absent key.
pub const TAG_NONE: u8 = 5;

/// Tag of a success response without a payload.
pub const TAG_DONE: u8 = 6;

/// Tag of an error response carrying a message.
pub const TAG_ERR: u8 = 7;

/// A request: one per connection.
pub enum Request {
    Get { key: Vec<u8> },
    Put { key: Vec<u8>, value: Vec<u8> },
    Del { key: Vec<u8> },
}

/// The model of a request.
#[verifier::ext_equal]
pub enum ReqModel {
    Get { key: Seq<u8> },
    Put { key: Seq<u8>, value: Seq<u8> },
    Del { key: Seq<u8> },
}

impl View for Request {
    type V = ReqModel;

    open spec fn view(&self) -> ReqModel {
        match self {
            Request::Get { key } => ReqModel::Get { key: key@ },
            Request::Put { key, value } => ReqModel::Put { key: key@, value: value@ },
            Request::Del { key } => ReqModel::Del { key: key@ },
        }
    }
}

/// The response to a `get`.
pub enum GetResponse {
    Value(Option<Vec<u8>>),
    Failure(Vec<u8>),
}

/// The response to a `set`.
pub enum SetResponse {
    Done,
    Failure(Vec<u8>),
}

/// The response to a `remove`.
pub enum RemoveResponse {
    Done,
    Failure(Vec<u8>),
}

/// A response: its variant always matches the request's kind.
pub enum Response {
    Get(GetResponse),
    Put(SetResponse),
    Del(RemoveResponse),
}

/// The model of a response.
#[verifier::ext_equal]
pub enum RespModel {
    GetValue { value: Option<Seq<u8>> },
    GetFailure { msg: Seq<u8> },
    SetDone,
    SetFailure { msg: Seq<u8> },
    RemoveDone,
    RemoveFailure { msg: Seq<u8> },
}

impl View for Response {
    type V = RespModel;

    open spec fn view(&self) -> RespModel {
        match self {
            Response::Get(GetResponse::Value(v)) => RespModel::GetValue {
                value: match v {
                    Some(v) => Some(v@),
                    None => None,
                },
            },
            Response::Get(GetResponse::Failure(m)) => RespModel::GetFailure { msg: m@ },
            Response::Put(SetResponse::Done) => RespModel::SetDone,
            Response::Put(SetResponse::Failure(m)) => RespModel::SetFailure { msg: m@ },
            Response::Del(RemoveResponse::Done) => RespModel::RemoveDone,
            Response::Del(RemoveResponse::Failure(m)) => RespModel::RemoveFailure { msg: m@ },
        }
    }
}

/// The frame a request travels as.
pub open spec fn req_frame(r: ReqModel) -> FrameModel {
    match r {
        ReqModel::Get { key } => FrameModel { tag: TAG_GET, a: key, b: seq![] },
        ReqModel::Put { key, value } => FrameModel { tag: TAG_PUT, a: key, b: value },
        ReqModel::Del { key } => FrameModel { tag: TAG_DEL, a: key, b: seq![] },
    }
}

/// The frame a response travels as.
pub open spec fn resp_frame(r: RespModel) -> FrameModel {
    match r {
        RespModel::GetValue { value: Some(v) } => FrameModel { tag: TAG_VALUE, a: v, b: seq![] },
        RespModel::GetValue { value: None } => FrameModel { tag: TAG_NONE, a: seq![], b: seq![] },
        RespModel::GetFailure { msg } => FrameModel { tag: TAG_ERR, a: msg, b: seq![] },
        RespModel::SetDone => FrameModel { tag: TAG_DONE, a: seq![], b: seq![] },
        RespModel::SetFailure { msg } => FrameModel { tag: TAG_ERR, a: msg, b: seq![] },
        RespModel::RemoveDone => FrameModel { tag: TAG_DONE, a: seq![], b: seq![] },
        RespModel::RemoveFailure { msg } => FrameModel { tag: TAG_ERR, a: msg, b: seq![] },
    }
}

/// Whether a request fits the frame's length prefix.
pub open spec fn req_fits(r: ReqModel) -> bool {
    frame_fits(req_frame(r))
}

/// Whether a response fits the frame's length prefix.
pub open spec fn resp_fits(r: RespModel) -> bool {
    frame_fits(resp_frame(r))
}

/// The wire document a response travels as.
pub open spec fn spec_encode_response(r: RespModel) -> Seq<u8> {
    spec_encode_frame(resp_frame(r))
}

/// What a whole wire document parses to as a request.
pub open spec fn spec_parse_request(data: Seq<u8>) -> Result<ReqModel, KvError> {
    match spec_decode_frame_at(data, 0) {
        SpecFrameDecode::AtEnd => Err(KvError::EndOfStream),
        SpecFrameDecode::Truncated => Err(KvError::EndOfStream),
        SpecFrameDecode::Corrupt => Err(KvError::CorruptRecord),
        SpecFrameDecode::Found { frame, len } => {
            if len != data.len() {
                Err(KvError::CorruptRecord)
            } else if frame.tag == TAG_GET && frame.b.len() == 0 {
                Ok(ReqModel::Get { key: frame.a })
            } else if frame.tag == TAG_PUT {
                Ok(ReqModel::Put { key: frame.a, value: frame.b })
            } else if frame.tag == TAG_DEL && frame.b.len() == 0 {
                Ok(ReqModel::Del { key: frame.a })
            } else {
                Err(KvError::CorruptRecord)
            }
        },
    }
}

/// Decode one whole request document; agrees with [`spec_parse_request`].
pub fn decode_request(data: &Vec<u8>) -> (r: Result<Request, KvError>)
    ensures
        match r {
            Ok(req) => spec_parse_request(data@) == Ok::<ReqModel, KvError>(req@),
            Err(e) => spec_parse_request(data@) == Err::<ReqModel, KvError>(e),
        },
{
    match decode_frame_at(data, 0) {
        FrameDecoded::AtEnd => Err(KvError::EndOfStream),
        FrameDecoded::Truncated => Err(KvError::EndOfStream),
        FrameDecoded::Corrupt => Err(KvError::CorruptRecord),
        FrameDecoded::Found { frame, len } => {
            let Frame { tag, a, b } = frame;
            if len != data.len() {
                Err(KvError::CorruptRecord)
            } else if tag == TAG_GET && b.len() == 0 {
                Ok(Request::Get { key: a })
            } else if tag == TAG_PUT {
                Ok(Request::Put { key: a, value: b })
            } else if tag == TAG_DEL && b.len() == 0 {
                proof {
                    assert(b@ =~= seq![]);
                }
                Ok(Request::Del { key: a })
            } else {
                Err(KvError::CorruptRecord)
            }
        },
    }
}

/// Encode one request as a single wire document.
pub fn encode_request(r: &Request) -> (out: Vec<u8>)
    requires
        req_fits(r@),
    ensures
        out@ == spec_encode_frame(req_frame(r@)),
{
    let f = match r {
        Request::Get { key } => Frame { tag: TAG_GET, a: slice_to_vec(key.as_slice()), b: Vec::new() },
        Request::Put { key, value } => Frame {
            tag: TAG_PUT,
            a: slice_to_vec(key.as_slice()),
            b: slice_to_vec(value.as_slice()),
        },
        Request::Del { key } => Frame { tag: TAG_DEL, a: slice_to_vec(key.as_slice()), b: Vec::new() },
    };
    proof {
        assert(f@ =~= req_frame(r@));
    }
    encode_frame(&f)
}

/// Encode one response as a single wire document.
pub fn encode_response(r: &Response) -> (out: Vec<u8>)
    requires
        resp_fits(r@),
    ensures
        out@ == spec_encode_frame(resp_frame(r@)),
{
    let f = match r {
        Response::Get(GetResponse::Value(Some(v))) => Frame {
            tag: TAG_VALUE,
            a: slice_to_vec(v.as_slice()),
            b: Vec::new(),
        },
        Response::Get(GetResponse::Value(None)) => Frame {
            tag: TAG_NONE,
            a: Vec::new(),
            b: Vec::new(),
        },
        Response::Get(GetResponse::Failure(m)) => Frame {
            tag: TAG_ERR,
            a: slice_to_vec(m.as_slice()),
            b: Vec::new(),
        },
        Response::Put(SetResponse::Done) => Frame { tag: TAG_DONE, a: Vec::new(), b: Vec::new() },
        Response::Put(SetResponse::Failure(m)) => Frame {
            tag: TAG_ERR,
            a: slice_to_vec(m.as_slice()),
            b: Vec::new(),
        },
        Response::Del(RemoveResponse::Done) => Frame {
            tag: TAG_DONE,
            a: Vec::new(),
            b: Vec::new(),
        },
        Response::Del(RemoveResponse::Failure(m)) => Frame {
            tag: TAG_ERR,
            a: slice_to_vec(m.as_slice()),
            b: Vec::new(),
        },
    };
    proof {
        assert(f@ =~= resp_frame(r@));
    }
    encode_frame(&f)
}

/// What a get-response document parses to.
#[verifier::ext_equal]
pub enum GetParse {
    /// The value, or its absence.
    Value(Option<Seq<u8>>),
    /// A failure message the server reported.
    ServerFailure(Seq<u8>),
    /// The document itself was malformed or incomplete.
    Malformed(KvError),
}

/// What a set- or remove-response document parses to.
#[verifier::ext_equal]
pub enum AckParse {
    /// Success.
    Done,
    /// A failure message the server reported.
    ServerFailure(Seq<u8>),
    /// The document itself was malformed or incomplete.
    Malformed(KvError),
}

/// What a whole wire document parses to as the outcome of a `get`.
pub open spec fn spec_parse_get_response(data: Seq<u8>) -> GetParse {
    match spec_decode_frame_at(data, 0) {
        SpecFrameDecode::AtEnd => GetParse::Malformed(KvError::EndOfStream),
        SpecFrameDecode::Truncated => GetParse::Malformed(KvError::EndOfStream),
        SpecFrameDecode::Corrupt => GetParse::Malformed(KvError::CorruptRecord),
        SpecFrameDecode::Found { frame, len } => {
            if len != data.len() || frame.b.len() != 0 {
                GetParse::Malformed(KvError::CorruptRecord)
            } else if frame.tag == TAG_VALUE {
                GetParse::Value(Some(frame.a))
            } else if frame.tag == TAG_NONE && frame.a.len() == 0 {
                GetParse::Value(None)
            } else if frame.tag == TAG_ERR {
                GetParse::ServerFailure(frame.a)
            } else {
                GetParse::Malformed(KvError::CorruptRecord)
            }
        },
    }
}

/// What a whole wire document parses to as the outcome of a `set` or a
/// `remove`.
pub open spec fn spec_parse_ack_response(data: Seq<u8>) -> AckParse {
    match spec_decode_frame_at(data, 0) {
        SpecFrameDecode::AtEnd => AckParse::Malformed(KvError::EndOfStream),
        SpecFrameDecode::Truncated => AckParse::Malformed(KvError::EndOfStream),
        SpecFrameDecode::Corrupt => AckParse::Malformed(KvError::CorruptRecord),
        SpecFrameDecode::Found { frame, len } => {
            if len != data.len() || frame.b.len() != 0 {
                AckParse::Malformed(KvError::CorruptRecord)
            } else if frame.tag == TAG_DONE && frame.a.len() == 0 {
                AckParse::Done
            } else if frame.tag == TAG_ERR {
                AckParse::ServerFailure(frame.a)
            } else {
                AckParse::Malformed(KvError::CorruptRecord)
            }
        },
    }
}

/// Parse the response to a `get`, as the client does: a reported failure
/// becomes an opaque string error.
pub fn parse_get_response(data: &Vec<u8>) -> (r: Result<Option<Vec<u8>>, KvError>)
    ensures
        match spec_parse_get_response(data@) {
            GetParse::Value(v) => match r {
                Ok(Some(got)) => v == Some(got@),
                Ok(None) => v is None,
                Err(_) => false,
            },
            GetParse::ServerFailure(m) => r matches Err(KvError::StringError(mm)) && mm@ == m,
            GetParse::Malformed(e) => r == Err::<Option<Vec<u8>>, KvError>(e),
        },
{
    match decode_frame_at(data, 0) {
        FrameDecoded::AtEnd => Err(KvError::EndOfStream),
        FrameDecoded::Truncated => Err(KvError::EndOfStream),
        FrameDecoded::Corrupt => Err(KvError::CorruptRecord),
        FrameDecoded::Found { frame, len } => {
            let Frame { tag, a, b } = frame;
            if len != data.len() || b.len() != 0 {
                Err(KvError::CorruptRecord)
            } else if tag == TAG_VALUE {
                Ok(Some(a))
            } else if tag == TAG_NONE && a.len() == 0 {
                Ok(None)
            } else if tag == TAG_ERR {
                Err(KvError::StringError(a))
            } else {
                Err(KvError::CorruptRecord)
            }
        },
    }
}

/// Parse the response to a `set` or a `remove`, as the client does.
pub fn parse_ack_response(data: &Vec<u8>) -> (r: Result<(), KvError>)
    ensures
        match spec_parse_ack_response(data@) {
            AckParse::Done => r is Ok,
            AckParse::ServerFailure(m) => r matches Err(KvError::StringError(mm)) && mm@ == m,
            AckParse::Malformed(e) => r == Err::<(), KvError>(e),
        },
{
    match decode_frame_at(data, 0) {
        FrameDecoded::AtEnd => Err(KvError::EndOfStream),
        FrameDecoded::Truncated => Err(KvError::EndOfStream),
        FrameDecoded::Corrupt => Err(KvError::CorruptRecord),
        FrameDecoded::Found { frame, len } => {
            let Frame { tag, a, b } = frame;
            if len != data.len() || b.len() != 0 {
                Err(KvError::CorruptRecord)
            } else if tag == TAG_DONE && a.len() == 0 {
                Ok(())
            } else if tag == TAG_ERR {
                Err(KvError::StringError(a))
            } else {
                Err(KvError::CorruptRecord)
            }
        },
    }
}

/// Round trip: an encoded request parses back to itself.
pub proof fn lemma_request_roundtrip(r: ReqModel)
    requires
        req_fits(r),
    ensures
        spec_parse_request(spec_encode_frame(req_frame(r))) == Ok::<ReqModel, KvError>(r),
{
    let enc = spec_encode_frame(req_frame(r));
    lemma_encode_frame_len(req_frame(r));
    assert(enc.subrange(0, enc.len() as int) =~= enc);
    lemma_frame_decode_encode(enc, 0, req_frame(r));
    match r {
        ReqModel::Get { key } => {
            assert(spec_parse_request(enc) == Ok::<ReqModel, KvError>(r));
        }
        ReqModel::Put { key, value } => {
            assert(spec_parse_request(enc) == Ok::<ReqModel, KvError>(r));
        }
        ReqModel::Del { key } => {
            assert(spec_parse_request(enc) == Ok::<ReqModel, KvError>(r));
        }
    }
}

/// Round trip: an encoded get response parses back to its own outcome.
pub proof fn lemma_get_response_roundtrip(r: RespModel)
    requires
        resp_fits(r),
        r is GetValue || r is GetFailure,
    ensures
        spec_parse_get_response(spec_encode_frame(resp_frame(r))) == (match r {
            RespModel::GetValue { value } => GetParse::Value(value),
            _ => GetParse::ServerFailure(r->GetFailure_msg),
        }),
{
    let enc = spec_encode_frame(resp_frame(r));
    lemma_encode_frame_len(resp_frame(r));
    assert(enc.subrange(0, enc.len() as int) =~= enc);
    lemma_frame_decode_encode(enc, 0, resp_frame(r));
}

/// Round trip: an encoded set or remove response parses back to its own
/// outcome.
pub proof fn lemma_ack_response_roundtrip(r: RespModel)
    requires
        resp_fits(r),
        r is SetDone || r is SetFailure || r is RemoveDone || r is RemoveFailure,
    ensures
        spec_parse_ack_response(spec_encode_frame(resp_frame(r))) == (match r {
            RespModel::SetDone => AckParse::Done,
            RespModel::RemoveDone => AckParse::Done,
            RespModel::SetFailure { msg } => AckParse::ServerFailure(msg),
            _ => AckParse::ServerFailure(r->RemoveFailure_msg),
        }),
{
    let enc = spec_encode_frame(resp_frame(r));
    lemma_encode_frame_len(resp_frame(r));
    assert(enc.subrange(0, enc.len() as int) =~= enc);
    lemma_frame_decode_encode(enc, 0, resp_frame(r));
}

} // verus!
