//! The serializer: appends the exact wire bytes of a message to an output
//! buffer, returning the byte count, which is proven equal to what the size
//! calculator reports.

use vstd::prelude::*;

verus! {

use bytes::BytesMut;
use crate::bytebuf::buf_bytes;
use crate::bytebuf::buf_extend;
use crate::bytebuf::buf_put_u8;
use crate::digits::digits_of;
use crate::digits::push_decimal;
use crate::model::encoding;
use crate::model::encodings;
use crate::model::crlf;
use crate::model::lemma_encodings_take_step;
use crate::model::lemma_encodings_take_len;
use crate::model::lemma_encodings_len_ge;
use crate::model::BYTE_CR;
use crate::model::BYTE_LF;
use crate::model::RESP_ARRAY;
use crate::model::RESP_BULK;
use crate::resp::lemma_resp_views_index;
use crate::resp::lemma_valid_items_index;
use crate::resp::resp_views;
use crate::resp::valid_resp;
use crate::resp::AsResult;
use crate::resp::Resp;
use crate::resp::RespError;

impl Resp {
    /// Appends the decimal form of `len` to `dst` and returns how many
    /// digits were written — always the shared digit count of `len`.
    pub fn write_len(dst: &mut BytesMut, len: usize) -> (r: AsResult<usize>)
        requires
            buf_bytes(*old(dst)).len() + digits_of(len as nat).len() <= usize::MAX,
        ensures
            (r matches Ok(n) && n == digits_of(len as nat).len()),
            buf_bytes(*final(dst)) == buf_bytes(*old(dst)) + digits_of(len as nat),
    {
        let mut tmp: Vec<u8> = Vec::new();
        push_decimal(len, &mut tmp);
        proof {
            assert(tmp@ =~= digits_of(len as nat));
        }
        buf_extend(dst, tmp.as_slice());
        Ok(tmp.len())
    }

    /// Serializes this message into `dst`: the number of bytes appended is
    /// returned and equals `binary_size`. A message that breaks the
    /// construction invariants is reported, not written.
    pub fn write(&self, dst: &mut BytesMut) -> (r: AsResult<usize>)
        requires
            valid_resp(*self) ==> buf_bytes(*old(dst)).len() + encoding(self@).len()
                <= usize::MAX,
        ensures
            valid_resp(*self) ==> (r matches Ok(n) && n == encoding(self@).len() && buf_bytes(
                *final(dst),
            ) == buf_bytes(*old(dst)) + encoding(self@)),
            !valid_resp(*self) ==> r == AsResult::<usize>::Err(RespError::InvariantViolation)
                && buf_bytes(*final(dst)) == buf_bytes(*old(dst)),
    {
        if !self.is_valid() {
            return Err(RespError::InvariantViolation);
        }
        Ok(self.write_valid(dst))
    }

    /// The serializer proper, for messages known to satisfy the invariants.
    #[verifier::loop_isolation(false)]
    fn write_valid(&self, dst: &mut BytesMut) -> (n: usize)
        requires
            valid_resp(*self),
            buf_bytes(*old(dst)).len() + encoding(self@).len() <= usize::MAX,
        ensures
            n == encoding(self@).len(),
            buf_bytes(*final(dst)) == buf_bytes(*old(dst)) + encoding(self@),
        decreases *self,
    {
        if self.rtype == RESP_BULK {
            match &self.data {
                None => {
                    buf_put_u8(dst, RESP_BULK);
                    buf_put_u8(dst, 45);
                    buf_put_u8(dst, 49);
                    buf_put_u8(dst, BYTE_CR);
                    buf_put_u8(dst, BYTE_LF);
                    proof {
                        assert(buf_bytes(*dst) =~= buf_bytes(*old(dst)) + encoding(self@));
                    }
                    5
                },
                Some(d) => {
                    proof {
                        crate::digits::lemma_digits_of_wf(d@.len());
                        crate::digits::lemma_digits_of_len_le(d@.len());
                    }
                    buf_put_u8(dst, RESP_BULK);
                    let ll = match Self::write_len(dst, d.len()) {
                        Ok(l) => l,
                        Err(_) => 0,  // unreachable: write_len always succeeds
                    };
                    buf_put_u8(dst, BYTE_CR);
                    buf_put_u8(dst, BYTE_LF);
                    buf_extend(dst, d.as_slice());
                    buf_put_u8(dst, BYTE_CR);
                    buf_put_u8(dst, BYTE_LF);
                    proof {
                        assert(buf_bytes(*dst) =~= buf_bytes(*old(dst)) + encoding(self@));
                    }
                    1 + ll + 2 + d.len() + 2
                },
            }
        } else if self.rtype == RESP_ARRAY {
            match &self.array {
                None => {
                    buf_put_u8(dst, RESP_ARRAY);
                    buf_put_u8(dst, 45);
                    buf_put_u8(dst, 49);
                    buf_put_u8(dst, BYTE_CR);
                    buf_put_u8(dst, BYTE_LF);
                    proof {
                        assert(buf_bytes(*dst) =~= buf_bytes(*old(dst)) + encoding(self@));
                    }
                    5
                },
                Some(v) => {
                    let d_len = match &self.data {
                        Some(d) => d.len(),
                        None => 0,  // unreachable under the invariants
                    };
                    let ghost views = resp_views(v@);
                    proof {
                        lemma_valid_items_index(v@);
                        lemma_resp_views_index(v@);
                        assert(views.len() == v@.len());
                        assert(encoding(self@) =~= seq![RESP_ARRAY] + digits_of(views.len())
                            + crlf() + encodings(views));
                        assert(encoding(self@).len() == 3 + d_len + encodings(views).len());
                    }
                    buf_put_u8(dst, RESP_ARRAY);
                    match &self.data {
                        Some(d) => buf_extend(dst, d.as_slice()),
                        None => {},  // unreachable under the invariants
                    }
                    buf_put_u8(dst, BYTE_CR);
                    buf_put_u8(dst, BYTE_LF);
                    let ghost header_end = buf_bytes(*dst);
                    proof {
                        assert(header_end =~= buf_bytes(*old(dst)) + (seq![RESP_ARRAY]
                            + digits_of(views.len()) + crlf()));
                    }
                    let mut size: usize = 1 + d_len + 2;
                    let mut i: usize = 0;
                    while i < v.len()
                        invariant
                            i <= v@.len(),
                            size == 3 + d_len + encodings(views.take(i as int)).len(),
                            buf_bytes(*dst) == header_end + encodings(views.take(i as int)),
                        decreases v@.len() - i,
                    {
                        proof {
                            lemma_encodings_take_step(views, i as int);
                            lemma_encodings_take_len(views, i as int + 1);
                            lemma_encodings_len_ge(views, i as int);
                        }
                        let s = v[i].write_valid(dst);
                        size = size + s;
                        i = i + 1;
                        proof {
                            assert(buf_bytes(*dst) =~= header_end + encodings(
                                views.take(i as int),
                            ));
                        }
                    }
                    proof {
                        assert(views.take(v@.len() as int) =~= views);
                        assert(buf_bytes(*dst) =~= buf_bytes(*old(dst)) + encoding(self@));
                    }
                    size
                },
            }
        } else {
            match &self.data {
                Some(d) => {
                    buf_put_u8(dst, self.rtype);
                    buf_extend(dst, d.as_slice());
                    buf_put_u8(dst, BYTE_CR);
                    buf_put_u8(dst, BYTE_LF);
                    proof {
                        assert(buf_bytes(*dst) =~= buf_bytes(*old(dst)) + encoding(self@));
                    }
                    1 + d.len() + 2
                },
                None => 0,  // unreachable under the invariants
            }
        }
    }
}

} // verus!
