//! The executable message type `Resp` and the operations on it that do not
//! touch a byte buffer: construction helpers, accessors, validity checking
//! and the exact size calculator.

use vstd::prelude::*;

verus! {

use crate::digits::digits_of;
use crate::digits::dec_len;
use crate::digits::push_decimal;
use crate::model::SpecMsg;
use crate::model::encoding;
use crate::model::encodings;
use crate::model::is_line_marker;
use crate::model::lf_free;
use crate::model::wf_msg;
use crate::model::lemma_encodings_len_ge;
use crate::model::RESP_STRING;
use crate::model::RESP_INT;
use crate::model::RESP_ERROR;
use crate::model::RESP_BULK;
use crate::model::RESP_ARRAY;
use crate::model::BYTE_LF;

/// The wire marker byte of a message kind.
pub type RespType = u8;

/// Errors of the codec; see the parser and serializer contracts for the
/// exact conditions under which each one is returned.
#[derive(Clone, Copy, Debug, PartialEq, Eq, Structural)]
pub enum RespError {
    /// The buffer does not yet hold one complete message; retry with more
    /// bytes. Recoverable.
    MoreData,
    /// A length/count field is not a canonical decimal integer (or a
    /// negative other than the null marker `-1`). Fatal for the stream.
    MalformedLength,
    /// The marker byte is none of the five recognized values. Fatal.
    UnknownMessageKind,
    /// A message handed to the serializer or an accessor breaks the
    /// construction invariants.
    InvariantViolation,
}

/// Result alias used throughout the codec.
pub type AsResult<T> = Result<T, RespError>;

/// One protocol message: a scalar or an array of nested messages.
///
/// `data` is the payload for the scalar kinds, and the cached ASCII decimal
/// element count for arrays; `array` holds the elements of a non-null array.
/// A null bulk string or null array has the respective field absent.
#[derive(Debug)]
pub struct Resp {
    pub rtype: RespType,
    pub data: Option<Vec<u8>>,
    pub array: Option<Vec<Resp>>,
}

/// The abstract message a `Resp` stands for.
pub open spec fn resp_view(r: Resp) -> SpecMsg
    decreases r,
{
    if r.rtype == RESP_BULK {
        match r.data {
            Some(d) => SpecMsg::Bulk { payload: d@ },
            None => SpecMsg::NullBulk,
        }
    } else if r.rtype == RESP_ARRAY {
        match r.array {
            Some(v) => SpecMsg::Arr { items: resp_views(v@) },
            None => SpecMsg::NullArray,
        }
    } else {
        SpecMsg::Line {
            kind: r.rtype,
            payload: match r.data {
                Some(d) => d@,
                None => Seq::empty(),
            },
        }
    }
}

/// Element-wise view of a sequence of messages.
pub open spec fn resp_views(v: Seq<Resp>) -> Seq<SpecMsg>
    decreases v,
{
    if v.len() == 0 {
        Seq::empty()
    } else {
        seq![resp_view(v[0])] + resp_views(v.drop_first())
    }
}

impl View for Resp {
    type V = SpecMsg;

    open spec fn view(&self) -> SpecMsg {
        resp_view(*self)
    }
}

/// The construction invariants of `Resp`: scalar kinds carry a payload and
/// no elements; bulk and array are null exactly when the respective field is
/// absent; an array's cached count is the canonical decimal of its length;
/// line payloads contain no line feed.
pub open spec fn valid_resp(r: Resp) -> bool
    decreases r,
{
    if is_line_marker(r.rtype) {
        &&& r.data is Some
        &&& r.array is None
        &&& lf_free(r.data->0@)
    } else if r.rtype == RESP_BULK {
        r.array is None
    } else if r.rtype == RESP_ARRAY {
        match r.array {
            Some(v) => r.data is Some && r.data->0@ == digits_of(v@.len()) && valid_items(v@),
            None => r.data is None,
        }
    } else {
        false
    }
}

/// All messages of a sequence satisfy the construction invariants.
pub open spec fn valid_items(v: Seq<Resp>) -> bool
    decreases v,
{
    if v.len() == 0 {
        true
    } else {
        valid_resp(v[0]) && valid_items(v.drop_first())
    }
}

/// `resp_views` read element-wise.
pub proof fn lemma_resp_views_index(v: Seq<Resp>)
    ensures
        resp_views(v).len() == v.len(),
        forall|i: int| 0 <= i < v.len() ==> resp_views(v)[i] == resp_view(#[trigger] v[i]),
    decreases v,
{
    if v.len() > 0 {
        lemma_resp_views_index(v.drop_first());
        assert forall|i: int| 0 <= i < v.len() implies resp_views(v)[i] == resp_view(
            #[trigger] v[i],
        ) by {
            if i > 0 {
                assert(v.drop_first()[i - 1] == v[i]);
                assert(resp_views(v)[i] == resp_views(v.drop_first())[i - 1]);
            }
        }
    }
}

/// Appending one message appends its view.
pub proof fn lemma_resp_views_push(v: Seq<Resp>, r: Resp)
    ensures
        resp_views(v.push(r)) == resp_views(v).push(resp_view(r)),
    decreases v,
{
    let p = v.push(r);
    if v.len() == 0 {
        assert(p.drop_first() =~= Seq::<Resp>::empty());
        assert(p[0] == r);
        assert(resp_views(Seq::<Resp>::empty()) =~= Seq::<SpecMsg>::empty());
        assert(resp_views(p) == seq![resp_view(r)] + resp_views(Seq::<Resp>::empty()));
        assert(resp_views(p) =~= resp_views(v).push(resp_view(r)));
    } else {
        assert(p.drop_first() =~= v.drop_first().push(r));
        lemma_resp_views_push(v.drop_first(), r);
        assert(p[0] == v[0]);
        assert(resp_views(p) =~= resp_views(v).push(resp_view(r)));
    }
}

/// `valid_items` read element-wise.
pub proof fn lemma_valid_items_index(v: Seq<Resp>)
    requires
        valid_items(v),
    ensures
        forall|i: int| 0 <= i < v.len() ==> valid_resp(#[trigger] v[i]),
    decreases v,
{
    if v.len() > 0 {
        lemma_valid_items_index(v.drop_first());
        assert forall|i: int| 0 <= i < v.len() implies valid_resp(#[trigger] v[i]) by {
            if i > 0 {
                assert(v[i] == v.drop_first()[i - 1]);
            }
        }
    }
}

/// And back: element-wise validity gives `valid_items`.
pub proof fn lemma_valid_items_from_index(v: Seq<Resp>)
    requires
        forall|i: int| 0 <= i < v.len() ==> valid_resp(#[trigger] v[i]),
    ensures
        valid_items(v),
    decreases v,
{
    if v.len() > 0 {
        assert forall|i: int| 0 <= i < v.drop_first().len() implies valid_resp(
            #[trigger] v.drop_first()[i],
        ) by {
            assert(v.drop_first()[i] == v[i + 1]);
        }
        lemma_valid_items_from_index(v.drop_first());
    }
}

/// A message that satisfies the construction invariants is well-formed.
pub proof fn lemma_valid_resp_wf(r: Resp)
    requires
        valid_resp(r),
    ensures
        wf_msg(resp_view(r)),
    decreases r,
{
    if r.rtype == RESP_ARRAY && r.array is Some {
        let v = r.array->0;
        lemma_valid_items_index(v@);
        lemma_resp_views_index(v@);
        assert forall|i: int| 0 <= i < resp_views(v@).len() implies wf_msg(
            #[trigger] resp_views(v@)[i],
        ) by {
            lemma_valid_resp_wf(v@[i]);
        }
        crate::model::lemma_wf_items_from_index(resp_views(v@));
    }
}

impl Clone for Resp {
    /// Deep copy: the copy stands for the same abstract message and is
    /// valid exactly when the original is.
    #[verifier::loop_isolation(false)]
    fn clone(&self) -> (r: Self)
        ensures
            r@ == self@,
            valid_resp(r) == valid_resp(*self),
            r.rtype == self.rtype,
        decreases *self,
    {
        let data: Option<Vec<u8>> = match &self.data {
            None => None,
            Some(d) => {
                let c = d.clone();
                proof {
                    assert forall|j: int| 0 <= j < d@.len() implies c@[j] == d@[j] by {
                        assert(cloned::<u8>(d@[j], c@[j]));
                    }
                    assert(c@ =~= d@);
                }
                Some(c)
            },
        };
        let array: Option<Vec<Resp>> = match &self.array {
            None => None,
            Some(v) => {
                let mut out: Vec<Resp> = Vec::new();
                let mut i: usize = 0;
                while i < v.len()
                    invariant
                        i <= v@.len(),
                        out@.len() == i,
                        forall|j: int|
                            0 <= j < i ==> resp_view(#[trigger] out@[j]) == resp_view(v@[j])
                                && valid_resp(out@[j]) == valid_resp(v@[j]),
                    decreases v@.len() - i,
                {
                    out.push(v[i].clone());
                    i = i + 1;
                }
                proof {
                    lemma_resp_views_index(out@);
                    lemma_resp_views_index(v@);
                    assert forall|j: int| 0 <= j < v@.len() implies resp_views(out@)[j]
                        == resp_views(v@)[j] by {
                        assert(resp_view(out@[j]) == resp_view(v@[j]));
                    }
                    assert(resp_views(out@) =~= resp_views(v@));
                    if valid_items(v@) {
                        lemma_valid_items_index(v@);
                        assert forall|j: int| 0 <= j < out@.len() implies valid_resp(
                            #[trigger] out@[j],
                        ) by {
                            assert(valid_resp(v@[j]));
                        }
                        lemma_valid_items_from_index(out@);
                    }
                    if valid_items(out@) {
                        lemma_valid_items_index(out@);
                        assert forall|j: int| 0 <= j < v@.len() implies valid_resp(
                            #[trigger] v@[j],
                        ) by {
                            assert(valid_resp(out@[j]));
                        }
                        lemma_valid_items_from_index(v@);
                    }
                }
                Some(out)
            },
        };
        let r = Resp { rtype: self.rtype, data, array };
        proof {
            assert(r@ == self@);
        }
        r
    }
}

impl Resp {
    /// Builds a scalar message, or a null bulk when `data` is absent.
    pub fn new_plain(rtype: RespType, data: Option<Vec<u8>>) -> (r: Resp)
        ensures
            r.rtype == rtype,
            r.data == data,
            r.array is None,
    {
        Resp { rtype, data, array: None }
    }

    /// Builds an array message, deriving the cached decimal count from the
    /// element sequence, or a null array when `array` is absent. This is the
    /// only way to obtain a count that matches the elements by construction.
    pub fn new_array(array: Option<Vec<Resp>>) -> (r: Resp)
        ensures
            r.rtype == RESP_ARRAY,
            r.array == array,
            array matches Some(v) ==> r.data matches Some(d) && d@ == digits_of(v@.len()),
            array is None ==> r.data is None,
            (match array {
                Some(v) => valid_items(v@),
                None => true,
            }) ==> valid_resp(r),
    {
        match array {
            Some(v) => {
                let mut count: Vec<u8> = Vec::new();
                push_decimal(v.len(), &mut count);
                proof {
                    assert(count@ =~= digits_of(v@.len()));
                }
                Resp { rtype: RESP_ARRAY, data: Some(count), array: Some(v) }
            },
            None => Resp { rtype: RESP_ARRAY, data: None, array: None },
        }
    }

    /// Is this message the null encoding of its kind?
    pub fn is_null(&self) -> (b: bool)
        ensures
            b == (self@ is NullBulk || self@ is NullArray),
    {
        if self.rtype == RESP_BULK {
            self.data.is_none()
        } else if self.rtype == RESP_ARRAY {
            self.array.is_none()
        } else {
            false
        }
    }

    /// The payload bytes of the first element of a request array: the
    /// command name. Reports a violation of the caller contract (not an
    /// array, empty, or a null first element) instead of failing.
    pub fn cmd_bytes(&self) -> (r: AsResult<&[u8]>)
        ensures
            (match self.array {
                Some(v) => v@.len() >= 1 && v@[0].data is Some,
                None => false,
            }) ==> (r matches Ok(b) && b@ == self.array->0@[0].data->0@),
            (match self.array {
                Some(v) => !(v@.len() >= 1 && v@[0].data is Some),
                None => true,
            }) ==> r == AsResult::<&[u8]>::Err(RespError::InvariantViolation),
    {
        match &self.array {
            Some(v) => {
                if v.len() >= 1 {
                    let first: &Resp = &v[0];
                    match &first.data {
                        Some(d) => Ok(d.as_slice()),
                        None => Err(RespError::InvariantViolation),
                    }
                } else {
                    Err(RespError::InvariantViolation)
                }
            },
            None => Err(RespError::InvariantViolation),
        }
    }

    /// The `i`-th element of an array message; `None` past the end, and an
    /// error when the message is not a non-null array.
    pub fn get(&self, i: usize) -> (r: AsResult<Option<&Resp>>)
        ensures
            (match self.array {
                Some(v) => {
                    if i < v@.len() {
                        r matches Ok(o) && o matches Some(e) && *e == v@[i as int]
                    } else {
                        r == AsResult::<Option<&Resp>>::Ok(None)
                    }
                },
                None => r == AsResult::<Option<&Resp>>::Err(RespError::InvariantViolation),
            }),
    {
        match &self.array {
            Some(v) => {
                if i < v.len() {
                    Ok(Some(&v[i]))
                } else {
                    Ok(None)
                }
            },
            None => Err(RespError::InvariantViolation),
        }
    }

    /// Mutable access to the `i`-th element of an array message; `None`
    /// past the end, and an error when the message is not a non-null array.
    pub fn get_mut(&mut self, i: usize) -> (r: AsResult<Option<&mut Resp>>)
        ensures
            (match old(self).array {
                Some(v) => {
                    if i < v@.len() {
                        r matches Ok(o) && o matches Some(p) && *p == v@[i as int]
                    } else {
                        r matches Ok(o) && o is None
                    }
                },
                None => r matches Err(e) && e == RespError::InvariantViolation,
            }),
    {
        match &mut self.array {
            Some(v) => {
                if i < v.len() {
                    Ok(Some(&mut v[i]))
                } else {
                    Ok(None)
                }
            },
            None => Err(RespError::InvariantViolation),
        }
    }

    /// Number of ASCII digits of `n`, shared by the size calculator and the
    /// serializer so the two can never diverge.
    pub fn ascii_len(n: usize) -> (r: usize)
        ensures
            r == digits_of(n as nat).len(),
    {
        dec_len(n)
    }

    /// Checks the construction invariants at run time.
    #[verifier::loop_isolation(false)]
    pub fn is_valid(&self) -> (b: bool)
        ensures
            b == valid_resp(*self),
        decreases *self,
    {
        if self.rtype == RESP_STRING || self.rtype == RESP_INT || self.rtype == RESP_ERROR {
            match (&self.data, &self.array) {
                (Some(d), None) => {
                    let mut j: usize = 0;
                    while j < d.len()
                        invariant
                            j <= d@.len(),
                            forall|k: int| 0 <= k < j ==> #[trigger] d@[k] != BYTE_LF,
                        decreases d@.len() - j,
                    {
                        if d[j] == BYTE_LF {
                            return false;
                        }
                        j = j + 1;
                    }
                    true
                },
                _ => false,
            }
        } else if self.rtype == RESP_BULK {
            self.array.is_none()
        } else if self.rtype == RESP_ARRAY {
            match (&self.data, &self.array) {
                (Some(d), Some(v)) => {
                    let mut expected: Vec<u8> = Vec::new();
                    push_decimal(v.len(), &mut expected);
                    proof {
                        assert(expected@ =~= digits_of(v@.len()));
                    }
                    if d.len() != expected.len() {
                        proof {
                            assert(d@ != digits_of(v@.len()));
                        }
                        return false;
                    }
                    let mut j: usize = 0;
                    while j < d.len()
                        invariant
                            j <= d@.len(),
                            d@.len() == expected@.len(),
                            expected@ == digits_of(v@.len()),
                            forall|k: int| 0 <= k < j ==> #[trigger] d@[k] == expected@[k],
                        decreases d@.len() - j,
                    {
                        if d[j] != expected[j] {
                            proof {
                                assert(d@ != digits_of(v@.len()));
                            }
                            return false;
                        }
                        j = j + 1;
                    }
                    proof {
                        assert(d@ =~= digits_of(v@.len()));
                    }
                    let mut i: usize = 0;
                    while i < v.len()
                        invariant
                            i <= v@.len(),
                            self.array matches Some(vv) && vv@ == v@,
                            forall|k: int| 0 <= k < i ==> valid_resp(#[trigger] v@[k]),
                        decreases v@.len() - i,
                    {
                        if !v[i].is_valid() {
                            proof {
                                if valid_items(v@) {
                                    lemma_valid_items_index(v@);
                                }
                            }
                            return false;
                        }
                        i = i + 1;
                    }
                    proof {
                        lemma_valid_items_from_index(v@);
                    }
                    true
                },
                (None, None) => true,
                _ => false,
            }
        } else {
            false
        }
    }

    /// The exact number of bytes the serializer emits for this message,
    /// without re-encoding it. The stream adapter advances its input cursor
    /// by this amount after a successful parse.
    #[verifier::loop_isolation(false)]
    pub fn binary_size(&self) -> (r: usize)
        requires
            valid_resp(*self),
            encoding(self@).len() <= usize::MAX,
        ensures
            r == encoding(self@).len(),
        decreases *self,
    {
        if self.rtype == RESP_BULK {
            match &self.data {
                None => 5,
                Some(d) => {
                    proof {
                        crate::digits::lemma_digits_of_wf(d@.len());
                    }
                    let ll = dec_len(d.len());
                    1 + ll + 2 + d.len() + 2
                },
            }
        } else if self.rtype == RESP_ARRAY {
            match &self.array {
                None => 5,
                Some(v) => {
                    let d_len = match &self.data {
                        Some(d) => d.len(),
                        None => 0,  // unreachable under the invariants
                    };
                    proof {
                        lemma_valid_items_index(v@);
                        lemma_resp_views_index(v@);
                    }
                    let ghost views = resp_views(v@);
                    let mut size: usize = 1 + d_len + 2;
                    let mut i: usize = 0;
                    while i < v.len()
                        invariant
                            valid_resp(*self),
                            encoding(self@).len() <= usize::MAX,
                            self.array matches Some(vv) && vv@ == v@,
                            self.data matches Some(dd) && dd@.len() == d_len,
                            views == resp_views(v@),
                            i <= v@.len(),
                            forall|k: int| 0 <= k < v@.len() ==> valid_resp(#[trigger] v@[k]),
                            forall|k: int|
                                0 <= k < v@.len() ==> resp_views(v@)[k] == resp_view(
                                    #[trigger] v@[k],
                                ),
                            views.len() == v@.len(),
                            size == 3 + d_len + encodings(views.take(i as int)).len(),
                        decreases v@.len() - i,
                    {
                        proof {
                            assert(encoding(self@).len() == 3 + d_len + encodings(views).len());
                            crate::model::lemma_encodings_take_step(views, i as int);
                            crate::model::lemma_encodings_take_len(views, i as int + 1);
                            lemma_encodings_len_ge(views, i as int);
                        }
                        let s = v[i].binary_size();
                        size = size + s;
                        i = i + 1;
                    }
                    proof {
                        assert(views.take(v@.len() as int) =~= views);
                    }
                    size
                },
            }
        } else {
            match &self.data {
                Some(d) => 1 + d.len() + 2,
                None => 0,  // unreachable under the invariants
            }
        }
    }

    /// `binary_size` with the preconditions turned into run-time checks:
    /// `Some` exactly when the message satisfies the invariants and its
    /// encoded size fits in `usize`.
    pub fn checked_binary_size(&self) -> (r: Option<usize>)
        ensures
            (r is Some <==> valid_resp(*self) && encoding(self@).len() <= usize::MAX),
            r matches Some(n) ==> n == encoding(self@).len(),
    {
        if !self.is_valid() {
            return None;
        }
        self.size_of_checked()
    }

    /// Overflow-checked size computation for an invariant-respecting message.
    #[verifier::loop_isolation(false)]
    fn size_of_checked(&self) -> (r: Option<usize>)
        requires
            valid_resp(*self),
        ensures
            (r is Some <==> encoding(self@).len() <= usize::MAX),
            r matches Some(n) ==> n == encoding(self@).len(),
        decreases *self,
    {
        if self.rtype == RESP_BULK {
            match &self.data {
                None => Some(5),
                Some(d) => {
                    proof {
                        crate::digits::lemma_digits_of_wf(d@.len());
                        crate::digits::lemma_digits_of_len_le(d@.len());
                    }
                    let ll = dec_len(d.len());
                    match d.len().checked_add(5) {
                        None => None,
                        Some(a) => a.checked_add(ll),
                    }
                },
            }
        } else if self.rtype == RESP_ARRAY {
            match &self.array {
                None => Some(5),
                Some(v) => {
                    let d_len = match &self.data {
                        Some(d) => d.len(),
                        None => 0,  // unreachable under the invariants
                    };
                    proof {
                        lemma_valid_items_index(v@);
                        lemma_resp_views_index(v@);
                    }
                    let ghost views = resp_views(v@);
                    let base = match d_len.checked_add(3) {
                        None => {
                            return None;
                        },
                        Some(b) => b,
                    };
                    let mut size: usize = base;
                    let mut i: usize = 0;
                    while i < v.len()
                        invariant
                            i <= v@.len(),
                            size == 3 + d_len + encodings(views.take(i as int)).len(),
                        decreases v@.len() - i,
                    {
                        proof {
                            crate::model::lemma_encodings_take_step(views, i as int);
                            crate::model::lemma_encodings_take_len(views, i as int + 1);
                            lemma_encodings_len_ge(views, i as int);
                        }
                        match v[i].size_of_checked() {
                            None => {
                                return None;
                            },
                            Some(s) => {
                                match size.checked_add(s) {
                                    None => {
                                        return None;
                                    },
                                    Some(t) => {
                                        size = t;
                                    },
                                }
                            },
                        }
                        i = i + 1;
                    }
                    proof {
                        assert(views.take(v@.len() as int) =~= views);
                    }
                    Some(size)
                },
            }
        } else {
            match &self.data {
                Some(d) => d.len().checked_add(3),
                None => None,  // unreachable under the invariants
            }
        }
    }
}

} // verus!
