//! The engine-flavor marker.  A data directory's `engine` file holds the
//! ASCII name of the flavor that owns it; a server refuses to start against
//! a directory whose marker disagrees with its configured flavor.

use crate::codec::bytes_equal;
use vstd::prelude::*;
use vstd::string::StrSliceExecFns;

verus! {

/// The engine flavors a server can be configured with.
#[derive(Clone, Copy, Debug, PartialEq, Eq, Structural)]
pub enum Engine {
    /// The built-in log-structured engine.
    Kvs,
    /// The alternative engine backed by an embedded third-party store.
    Sled,
}

impl Engine {
    /// The ASCII name written to the marker file.
    pub open spec fn spec_name(&self) -> Seq<u8> {
        match self {
            Engine::Kvs => vstd::utf8::encode_utf8("kvs"@),
            Engine::Sled => vstd::utf8::encode_utf8("sled"@),
        }
    }

    /// The ASCII name written to the marker file.
    pub fn name_bytes(&self) -> (r: Vec<u8>)
        ensures
            r@ == self.spec_name(),
    {
        match self {
            Engine::Kvs => "kvs".as_bytes_vec(),
            Engine::Sled => "sled".as_bytes_vec(),
        }
    }

    /// Parse a marker file's contents; unrecognized contents are no flavor
    /// at all.
    pub fn parse(marker: &Vec<u8>) -> (r: Option<Engine>)
        ensures
            match r {
                Some(e) => marker@ == e.spec_name(),
                None => forall|e: Engine| marker@ != #[trigger] e.spec_name(),
            },
    {
        let kvs = "kvs".as_bytes_vec();
        if bytes_equal(marker, &kvs) {
            return Some(Engine::Kvs);
        }
        let sled = "sled".as_bytes_vec();
        if bytes_equal(marker, &sled) {
            return Some(Engine::Sled);
        }
        proof {
            assert forall|e: Engine| marker@ != #[trigger] e.spec_name() by {
                match e {
                    Engine::Kvs => {},
                    Engine::Sled => {},
                }
            }
        }
        None
    }
}

/// Whether a server configured with `chosen` may run in this directory: the
/// marker must be absent (a fresh directory) or name the same flavor.
pub fn engine_compatible(marker: &Option<Engine>, chosen: Engine) -> (r: bool)
    ensures
        r == (match marker {
            Some(m) => *m == chosen,
            None => true,
        }),
{
    match marker {
        None => true,
        Some(m) => *m == chosen,
    }
}

} // verus!
