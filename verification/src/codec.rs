//! The stream codec adapter: a stateless decode/encode pair over the two
//! buffers a connection owns. Decoding consumes exactly the bytes of one
//! message on success and leaves the buffer untouched otherwise; encoding
//! appends exactly the message's wire bytes.

use vstd::prelude::*;

verus! {

use bytes::BytesMut;
use crate::bytebuf::buf_advance;
use crate::bytebuf::buf_as_slice;
use crate::bytebuf::buf_bytes;
use crate::model::encoding;
use crate::parsing::lemma_parse_sound;
use crate::parsing::spec_parse;
use crate::parsing::ParseOut;
use crate::resp::valid_resp;
use crate::resp::AsResult;
use crate::resp::Resp;
use crate::resp::RespError;

/// The stateless codec: glue between a raw byte buffer and messages.
pub struct RespCodec {}

impl RespCodec {
    /// Tries to decode one message from the front of `src`.
    ///
    /// On success the buffer is advanced by exactly the message's
    /// `binary_size`; `Ok(None)` reports an incomplete buffer and consumes
    /// nothing; a fatal parse error consumes nothing and is passed through.
    pub fn decode(&mut self, src: &mut BytesMut) -> (r: AsResult<Option<Resp>>)
        ensures
            (match spec_parse(buf_bytes(*old(src))) {
                ParseOut::Found { m, n } => (r matches Ok(o) && o matches Some(res) && res@ == m
                    && valid_resp(res) && buf_bytes(*final(src)) == buf_bytes(*old(src)).skip(
                    n as int,
                )),
                ParseOut::More => r == AsResult::<Option<Resp>>::Ok(None) && buf_bytes(
                    *final(src),
                ) == buf_bytes(*old(src)),
                ParseOut::BadLength => r == AsResult::<Option<Resp>>::Err(
                    RespError::MalformedLength,
                ) && buf_bytes(*final(src)) == buf_bytes(*old(src)),
                ParseOut::BadKind => r == AsResult::<Option<Resp>>::Err(
                    RespError::UnknownMessageKind,
                ) && buf_bytes(*final(src)) == buf_bytes(*old(src)),
            }),
    {
        proof {
            lemma_parse_sound(buf_bytes(*src));
        }
        let slice = buf_as_slice(src);
        let slice_len = slice.len();
        proof {
            assert(buf_bytes(*src).len() == slice_len);
        }
        let parsed = Resp::parse(slice);
        match parsed {
            Err(e) => {
                match e {
                    RespError::MoreData => Ok(None),
                    _ => Err(e),
                }
            },
            Ok(resp) => {
                let bsize = resp.binary_size();
                buf_advance(src, bsize);
                Ok(Some(resp))
            },
        }
    }

    /// Serializes `item` into `dst`; the byte count of the serializer is
    /// checked against its contract and then dropped, as the adapter only
    /// reports success.
    pub fn encode(&mut self, item: Resp, dst: &mut BytesMut) -> (r: AsResult<()>)
        requires
            valid_resp(item) ==> buf_bytes(*old(dst)).len() + encoding(item@).len() <= usize::MAX,
        ensures
            valid_resp(item) ==> r == AsResult::<()>::Ok(()) && buf_bytes(*final(dst)) == buf_bytes(
                *old(dst),
            ) + encoding(item@),
            !valid_resp(item) ==> r == AsResult::<()>::Err(RespError::InvariantViolation)
                && buf_bytes(*final(dst)) == buf_bytes(*old(dst)),
    {
        match item.write(dst) {
            Ok(_) => Ok(()),
            Err(e) => Err(e),
        }
    }
}

} // verus!
