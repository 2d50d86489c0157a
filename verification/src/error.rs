//! The error type shared by the storage engine and the wire protocol.

use vstd::prelude::*;
use vstd::string::StrSliceExecFns;

verus! {

/// Everything that can go wrong inside the store or on the wire.
#[derive(Debug, PartialEq, Eq)]
pub enum KvError {
    /// `remove` was asked for a key that is not in the index.
    NotFound,
    /// The index pointed at a record that is not a mapping assertion.
    UnexpectedCommandType,
    /// A record was malformed where a well-formed one was expected.
    CorruptRecord,
    /// The input ended before a complete record was available.
    EndOfStream,
    /// An opaque message carried back from a remote server.
    StringError(Vec<u8>),
}

impl KvError {
    /// The human-readable message for this error, as UTF-8 bytes.
    pub open spec fn spec_message_bytes(&self) -> Seq<u8> {
        match self {
            KvError::NotFound => vstd::utf8::encode_utf8("Key not found"@),
            KvError::UnexpectedCommandType => vstd::utf8::encode_utf8("Unexpected command type"@),
            KvError::CorruptRecord => vstd::utf8::encode_utf8("Corrupt record"@),
            KvError::EndOfStream => vstd::utf8::encode_utf8("Unexpected end of stream"@),
            KvError::StringError(m) => m@,
        }
    }

    /// The human-readable message for this error, as UTF-8 bytes.
    pub fn message_bytes(&self) -> (r: Vec<u8>)
        ensures
            r@ == self.spec_message_bytes(),
    {
        match self {
            KvError::NotFound => "Key not found".as_bytes_vec(),
            KvError::UnexpectedCommandType => "Unexpected command type".as_bytes_vec(),
            KvError::CorruptRecord => "Corrupt record".as_bytes_vec(),
            KvError::EndOfStream => "Unexpected end of stream".as_bytes_vec(),
            KvError::StringError(m) => vstd::slice::slice_to_vec(m.as_slice()),
        }
    }
}

} // verus!

verus! {

/// Every fixed message is short ASCII text: one byte per character.
pub proof fn lemma_message_bytes_short(e: &KvError)
    requires
        !(e is StringError),
    ensures
        e.spec_message_bytes().len() <= 64,
{
    broadcast use vstd::utf8::is_ascii_chars_encode_utf8;

    reveal_strlit("Key not found");
    reveal_strlit("Unexpected command type");
    reveal_strlit("Corrupt record");
    reveal_strlit("Unexpected end of stream");
    assert(vstd::utf8::is_ascii_chars("Key not found"@));
    assert(vstd::utf8::is_ascii_chars("Unexpected command type"@));
    assert(vstd::utf8::is_ascii_chars("Corrupt record"@));
    assert(vstd::utf8::is_ascii_chars("Unexpected end of stream"@));
}

} // verus!
