//! The network server's verified core: decode one request document,
//! dispatch it to the engine, encode one response document.  The embedding
//! application runs the TCP accept loop, reads the request bytes, applies
//! the returned disk actions before sending the response, and closes the
//! connection after the one round trip.

use crate::engine::KvEngine;
use crate::error::KvError;
use crate::kv::{apply_actions, Action};
use crate::protocol::{decode_request, encode_response, resp_fits, spec_encode_response, spec_parse_request, GetResponse, RemoveResponse, ReqModel, Request, RespModel, Response,
    SetResponse};
use vstd::prelude::*;
use vstd::string::StrSliceExecFns;

verus! {

/// The message sent back when a request exceeds the store's machine limits.
pub open spec fn limit_msg() -> Seq<u8> {
    vstd::utf8::encode_utf8("request exceeds store limits"@)
}

/// The message sent back when `remove` misses: *key not found*.
pub open spec fn not_found_msg() -> Seq<u8> {
    KvError::NotFound.spec_message_bytes()
}

/// The limit message is short ASCII text.
pub proof fn lemma_limit_msg_short()
    ensures
        limit_msg().len() <= 64,
{
    broadcast use vstd::utf8::is_ascii_chars_encode_utf8;

    reveal_strlit("request exceeds store limits");
    assert(vstd::utf8::is_ascii_chars("request exceeds store limits"@));
}

/// The response a request must receive, given the engine it reaches.
pub open spec fn spec_response<E: KvEngine>(e: &E, req: ReqModel) -> RespModel {
    match req {
        ReqModel::Get { key } => RespModel::GetValue {
            value: if e.state().contains_key(key) {
                Some(e.state()[key])
            } else {
                None
            },
        },
        ReqModel::Put { key, value } => {
            if e.fits_set(key.len() as int, value.len() as int) {
                RespModel::SetDone
            } else {
                RespModel::SetFailure { msg: limit_msg() }
            }
        },
        ReqModel::Del { key } => {
            if !e.state().contains_key(key) {
                RespModel::RemoveFailure { msg: not_found_msg() }
            } else if !e.fits_remove(key.len() as int) {
                RespModel::RemoveFailure { msg: limit_msg() }
            } else {
                RespModel::RemoveDone
            }
        },
    }
}

/// The engine state after a request has been served.
pub open spec fn spec_state_after<E: KvEngine>(e: &E, req: ReqModel) -> Map<Seq<u8>, Seq<u8>> {
    match req {
        ReqModel::Get { .. } => e.state(),
        ReqModel::Put { key, value } => {
            if e.fits_set(key.len() as int, value.len() as int) {
                e.state().insert(key, value)
            } else {
                e.state()
            }
        },
        ReqModel::Del { key } => {
            if e.fits_remove(key.len() as int) && e.state().contains_key(key) {
                e.state().remove(key)
            } else {
                e.state()
            }
        },
    }
}

/// The server: one engine served one connection at a time.
pub struct KvServer<E: KvEngine> {
    pub engine: E,
}

impl<E: KvEngine> KvServer<E> {
    /// Wrap an engine.
    pub fn new(engine: E) -> (r: Self)
        ensures
            r.engine == engine,
    {
        KvServer { engine }
    }

    /// Dispatch one request to the engine.  The response's variant is
    /// determined by the request's kind — a `Get` is answered by a get
    /// response and nothing else — success is reported exactly when the
    /// engine reports it, and the returned actions carry the engine's disk
    /// writes.
    pub fn handle_request(&mut self, req: Request) -> (r: (Response, Vec<Action>))
        requires
            old(self).engine.inv(),
        ensures
            final(self).engine.inv(),
            r.0@ == spec_response(&old(self).engine, req@),
            resp_fits(r.0@),
            final(self).engine.state() == spec_state_after(&old(self).engine, req@),
            final(self).engine.disk_model() == apply_actions(
                old(self).engine.disk_model(),
                r.1@,
            ),
            req@ is Get ==> r.0 is Get,
            req@ is Put ==> r.0 is Put,
            req@ is Del ==> r.0 is Del,
    {
        proof {
            lemma_limit_msg_short();
            crate::error::lemma_message_bytes_short(&KvError::NotFound);
        }
        match req {
            Request::Get { key } => {
                let res = self.engine.get(&key);
                proof {
                    assert(apply_actions(
                        self.engine.disk_model(),
                        Seq::<Action>::empty(),
                    ) == self.engine.disk_model());
                }
                match res {
                    Ok(v) => {
                        proof {
                            match v {
                                Some(ref vv) => {
                                    assert(resp_fits(
                                        RespModel::GetValue { value: Some(vv@) },
                                    ));
                                },
                                None => {},
                            }
                        }
                        (Response::Get(GetResponse::Value(v)), Vec::new())
                    },
                    Err(e) => {
                        proof {
                            assert(false);
                        }
                        (Response::Get(GetResponse::Failure(e.message_bytes())), Vec::new())
                    },
                }
            },
            Request::Put { key, value } => {
                if self.engine.set_ok(&key, &value) {
                    match self.engine.set(key, value) {
                        Ok(acts) => (Response::Put(SetResponse::Done), acts),
                        Err(e) => {
                            proof {
                                assert(false);
                            }
                            (Response::Put(SetResponse::Failure(e.message_bytes())), Vec::new())
                        },
                    }
                } else {
                    let msg = "request exceeds store limits".as_bytes_vec();
                    proof {
                        assert(apply_actions(
                            self.engine.disk_model(),
                            Seq::<Action>::empty(),
                        ) == self.engine.disk_model());
                    }
                    (Response::Put(SetResponse::Failure(msg)), Vec::new())
                }
            },
            Request::Del { key } => {
                proof {
                    assert(apply_actions(self.engine.disk_model(), Seq::<Action>::empty())
                        == self.engine.disk_model());
                }
                match self.engine.get(&key) {
                    Ok(None) => {
                        let e = KvError::NotFound;
                        let msg = e.message_bytes();
                        (Response::Del(RemoveResponse::Failure(msg)), Vec::new())
                    },
                    Ok(Some(_)) => {
                        if self.engine.remove_ok(&key) {
                            match self.engine.remove(&key) {
                                Ok(acts) => (Response::Del(RemoveResponse::Done), acts),
                                Err(e) => {
                                    proof {
                                        assert(false);
                                    }
                                    (
                                        Response::Del(RemoveResponse::Failure(e.message_bytes())),
                                        Vec::new(),
                                    )
                                },
                            }
                        } else {
                            let msg = "request exceeds store limits".as_bytes_vec();
                            (Response::Del(RemoveResponse::Failure(msg)), Vec::new())
                        }
                    },
                    Err(e) => {
                        proof {
                            assert(false);
                        }
                        (Response::Del(RemoveResponse::Failure(e.message_bytes())), Vec::new())
                    },
                }
            },
        }
    }

    /// Serve one framed request: decode it, dispatch it, encode the
    /// response.  On a malformed request document nothing is dispatched and
    /// the caller gets the decoding error to log; the engine is untouched.
    pub fn serve_frame(&mut self, data: &Vec<u8>) -> (r: Result<(Vec<u8>, Vec<Action>), KvError>)
        requires
            old(self).engine.inv(),
        ensures
            final(self).engine.inv(),
            match r {
                Ok((resp, acts)) => {
                    &&& spec_parse_request(data@) matches Ok(req) && resp@ == spec_encode_response(
                        spec_response(&old(self).engine, req),
                    ) && final(self).engine.state() == spec_state_after(&old(self).engine, req)
                        && final(self).engine.disk_model() == apply_actions(
                        old(self).engine.disk_model(),
                        acts@,
                    )
                },
                Err(e) => {
                    &&& spec_parse_request(data@) == Err::<ReqModel, KvError>(e)
                    &&& *final(self) == *old(self)
                },
            },
    {
        match decode_request(data) {
            Err(e) => Err(e),
            Ok(req) => {
                let (resp, acts) = self.handle_request(req);
                let out = encode_response(&resp);
                Ok((out, acts))
            },
        }
    }
}

} // verus!
