//! The payload (`.dict`) store.
//!
//! The payload file is raw bytes with no structure of its own: entries are
//! addressed by the (offset, length) pairs the index records. The store
//! holds the payload bytes and serves byte ranges, optionally decoded as
//! UTF-8 text; it never interprets the same-type-sequence structure inside
//! an entry.

use crate::errors::{StardictError, StardictErrorV};
use vstd::prelude::*;
use vstd::slice::{slice_subrange, slice_to_vec};
use vstd::utf8::{decode_utf8, decode_utf8_encode_utf8, encode_utf8, valid_utf8};

verus! {

/// The payload store: the payload file's bytes.
#[derive(Debug, Clone, PartialEq, Eq)]
pub struct SDdict {
    pub data: Vec<u8>,
}

impl View for SDdict {
    type V = Seq<u8>;

    open spec fn view(&self) -> Seq<u8> {
        self.data@
    }
}

/// Relies on `String::from_utf8`: it succeeds exactly on valid UTF-8, and
/// the string it returns holds exactly the given bytes.
#[verifier::external_body]
fn bytes_to_string(bytes: Vec<u8>) -> (r: Option<String>)
    ensures
        r is Some <==> valid_utf8(bytes@),
        r matches Some(s) ==> s@ == decode_utf8(bytes@),
{
    String::from_utf8(bytes).ok()
}

impl SDdict {
    /// Wraps the bytes of a payload file.
    pub fn new(data: Vec<u8>) -> (r: SDdict)
        ensures
            r@ == data@,
    {
        SDdict { data }
    }

    /// Serves the `length` bytes at `offset`, or `TruncatedRead` when fewer
    /// are available.
    pub fn read_entry(&self, offset: u64, length: u32) -> (r: Result<Vec<u8>, StardictError>)
        ensures
            offset + length <= self@.len() <==> r is Ok,
            r matches Ok(b) ==> b@ == self@.subrange(offset as int, offset + length),
            r matches Err(e) ==> e@ == StardictErrorV::TruncatedRead,
    {
        let n: usize = self.data.len();
        if offset > n as u64 {
            return Err(StardictError::TruncatedRead);
        }
        let off = offset as usize;
        let len = length as usize;
        if len > n - off {
            return Err(StardictError::TruncatedRead);
        }
        Ok(slice_to_vec(slice_subrange(self.data.as_slice(), off, off + len)))
    }

    /// Serves the `length` bytes at `offset` decoded as UTF-8 text:
    /// `TruncatedRead` when the range reaches past the end, `Utf8Decode`
    /// when the bytes are not valid UTF-8. A returned string writes back to
    /// exactly the `length` bytes read.
    pub fn read_entry_str(&self, offset: u64, length: u32) -> (r: Result<String, StardictError>)
        ensures
            ({
                let sub = self@.subrange(offset as int, offset + length);
                &&& r is Ok <==> offset + length <= self@.len() && valid_utf8(sub)
                &&& r matches Ok(s) ==> s@ == decode_utf8(sub) && encode_utf8(s@).len() == length
                &&& r matches Err(e) ==> e@ == (if offset + length <= self@.len() {
                    StardictErrorV::Utf8Decode
                } else {
                    StardictErrorV::TruncatedRead
                })
            }),
    {
        let bytes = match self.read_entry(offset, length) {
            Err(e) => {
                return Err(e);
            },
            Ok(b) => b,
        };
        match bytes_to_string(bytes) {
            None => Err(StardictError::Utf8Decode),
            Some(s) => {
                proof {
                    let sub = self@.subrange(offset as int, offset + length);
                    decode_utf8_encode_utf8(sub);
                    assert(encode_utf8(s@).len() == sub.len());
                }
                Ok(s)
            },
        }
    }
}

} // verus!
