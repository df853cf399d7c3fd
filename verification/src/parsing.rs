//! The parser: a specification-level parse function that pins down, byte for
//! byte, which buffers yield a message, which need more data and which are
//! malformed — and the executable parser proved to agree with it exactly.

use vstd::prelude::*;

verus! {

use vstd::slice::slice_index_get;
use vstd::slice::slice_subrange;
use vstd::slice::slice_to_vec;
use crate::digits::canonical_digits;
use crate::digits::dec_val;
use crate::digits::lemma_canonical_digits_of;
use crate::digits::lemma_dec_val_prefix_le;
use crate::digits::lemma_dec_val_take_step;
use crate::model::SpecMsg;
use crate::model::encoding;
use crate::model::encodings;
use crate::model::is_line_marker;
use crate::model::is_marker;
use crate::model::lf_free;
use crate::model::null_field;
use crate::model::wf_items;
use crate::model::wf_msg;
use crate::model::BYTE_LF;
use crate::model::RESP_ARRAY;
use crate::model::RESP_BULK;
use crate::model::RESP_ERROR;
use crate::model::RESP_INT;
use crate::model::RESP_STRING;
use crate::resp::resp_view;
use crate::resp::resp_views;
use crate::resp::valid_resp;
use crate::resp::lemma_resp_views_push;
use crate::resp::lemma_valid_items_from_index;
use crate::resp::AsResult;
use crate::resp::Resp;
use crate::resp::RespError;

/// Outcome of parsing one message from the front of a buffer.
pub enum ParseOut {
    /// The buffer holds no complete message yet.
    More,
    /// The first byte is not one of the five markers.
    BadKind,
    /// A length/count field is not `-1` or a canonical decimal that fits.
    BadLength,
    /// One message `m`, occupying the first `n` bytes.
    Found { m: SpecMsg, n: nat },
}

/// Outcome of parsing a fixed number of consecutive messages.
pub enum ItemsOut {
    More,
    BadKind,
    BadLength,
    Found { items: Seq<SpecMsg>, n: nat },
}

/// Index of the first line feed of `s`, if any.
pub open spec fn first_lf(s: Seq<u8>) -> Option<int>
    decreases s.len(),
{
    if s.len() == 0 {
        None
    } else if s[0] == BYTE_LF {
        Some(0)
    } else {
        match first_lf(s.drop_first()) {
            None => None,
            Some(p) => Some(p + 1),
        }
    }
}

/// What `first_lf` returns: the position of a line feed preceded by none.
pub proof fn lemma_first_lf(s: Seq<u8>)
    ensures
        match first_lf(s) {
            Some(p) => 0 <= p < s.len() && s[p] == BYTE_LF && (forall|j: int|
                0 <= j < p ==> #[trigger] s[j] != BYTE_LF),
            None => lf_free(s),
        },
    decreases s.len(),
{
    if s.len() > 0 && s[0] != BYTE_LF {
        let t = s.drop_first();
        lemma_first_lf(t);
        match first_lf(t) {
            None => {
                assert forall|i: int| 0 <= i < s.len() implies #[trigger] s[i] != BYTE_LF by {
                    if i > 0 {
                        assert(s[i] == t[i - 1]);
                    }
                }
            },
            Some(p) => {
                assert(s[p + 1] == t[p]);
                assert forall|j: int| 0 <= j < p + 1 implies #[trigger] s[j] != BYTE_LF by {
                    if j > 0 {
                        assert(s[j] == t[j - 1]);
                    }
                }
            },
        }
    }
}

/// A line feed preceded by none determines `first_lf`.
pub proof fn lemma_first_lf_at(s: Seq<u8>, p: int)
    requires
        0 <= p < s.len(),
        s[p] == BYTE_LF,
        forall|j: int| 0 <= j < p ==> #[trigger] s[j] != BYTE_LF,
    ensures
        first_lf(s) == Some(p),
    decreases s.len(),
{
    if p > 0 {
        let t = s.drop_first();
        assert forall|j: int| 0 <= j < p - 1 implies #[trigger] t[j] != BYTE_LF by {
            assert(t[j] == s[j + 1]);
        }
        assert(t[p - 1] == s[p]);
        lemma_first_lf_at(t, p - 1);
    }
}

/// No line feed at all: `first_lf` finds none.
pub proof fn lemma_first_lf_none(s: Seq<u8>)
    requires
        lf_free(s),
    ensures
        first_lf(s) is None,
    decreases s.len(),
{
    if s.len() > 0 {
        let t = s.drop_first();
        assert forall|j: int| 0 <= j < t.len() implies #[trigger] t[j] != BYTE_LF by {
            assert(t[j] == s[j + 1]);
        }
        lemma_first_lf_none(t);
    }
}

/// Lifts an items outcome to the outcome of the enclosing array message
/// whose header line ends at position `p`.
pub open spec fn arr_combine(po: ItemsOut, p: int) -> ParseOut {
    match po {
        ItemsOut::More => ParseOut::More,
        ItemsOut::BadKind => ParseOut::BadKind,
        ItemsOut::BadLength => ParseOut::BadLength,
        ItemsOut::Found { items, n } => ParseOut::Found {
            m: SpecMsg::Arr { items },
            n: (p + 1 + n) as nat,
        },
    }
}

/// Prepends `used` consumed bytes and already-parsed messages to an
/// items outcome.
pub open spec fn items_combine(prefix: Seq<SpecMsg>, used: nat, po: ItemsOut) -> ItemsOut {
    match po {
        ItemsOut::More => ItemsOut::More,
        ItemsOut::BadKind => ItemsOut::BadKind,
        ItemsOut::BadLength => ItemsOut::BadLength,
        ItemsOut::Found { items, n } => ItemsOut::Found {
            items: prefix + items,
            n: (used + n) as nat,
        },
    }
}

/// The specification of the parser. One message is read from the front of
/// `s`: the marker byte picks the shape, the first line feed ends the header
/// line, the byte before it is discarded as the carriage return, and a
/// length/count field must be `-1` (null) or a canonical decimal.
pub open spec fn spec_parse(s: Seq<u8>) -> ParseOut
    decreases s.len(), 0int,
{
    if s.len() == 0 {
        ParseOut::More
    } else {
        let kind = s[0];
        if !is_marker(kind) {
            ParseOut::BadKind
        } else {
            match first_lf(s) {
                None => ParseOut::More,
                Some(p) => {
                    if !(1 <= p && p < s.len()) {
                        ParseOut::More  // cannot happen: the marker is not a line feed
                    } else if is_line_marker(kind) {
                        if p < 2 {
                            ParseOut::More
                        } else {
                            ParseOut::Found {
                                m: SpecMsg::Line { kind, payload: s.subrange(1, p - 1) },
                                n: (p + 1) as nat,
                            }
                        }
                    } else {
                        if p < 2 {
                            ParseOut::BadLength
                        } else {
                            let field = s.subrange(1, p - 1);
                            if field == null_field() {
                                ParseOut::Found {
                                    m: if kind == RESP_BULK {
                                        SpecMsg::NullBulk
                                    } else {
                                        SpecMsg::NullArray
                                    },
                                    n: (p + 1) as nat,
                                }
                            } else if !(canonical_digits(field) && dec_val(field)
                                <= usize::MAX) {
                                ParseOut::BadLength
                            } else {
                                let c = dec_val(field);
                                if kind == RESP_BULK {
                                    if s.len() < p + 1 + c + 2 {
                                        ParseOut::More
                                    } else {
                                        ParseOut::Found {
                                            m: SpecMsg::Bulk {
                                                payload: s.subrange(p + 1, p + 1 + c),
                                            },
                                            n: (p + 1 + c + 2) as nat,
                                        }
                                    }
                                } else {
                                    arr_combine(spec_parse_items(s.skip(p + 1), c), p)
                                }
                            }
                        }
                    }
                },
            }
        }
    }
}

/// The specification of parsing `k` consecutive messages.
pub open spec fn spec_parse_items(s: Seq<u8>, k: nat) -> ItemsOut
    decreases s.len(), 1 + k,
{
    if k == 0 {
        ItemsOut::Found { items: Seq::empty(), n: 0 }
    } else {
        match spec_parse(s) {
            ParseOut::More => ItemsOut::More,
            ParseOut::BadKind => ItemsOut::BadKind,
            ParseOut::BadLength => ItemsOut::BadLength,
            ParseOut::Found { m, n } => {
                if n > s.len() {
                    ItemsOut::More  // cannot happen: a message lies within the buffer
                } else {
                    items_combine(seq![m], n, spec_parse_items(s.skip(n as int), (k - 1) as nat))
                }
            },
        }
    }
}

/// The full contract of the executable parser: each outcome of `spec_parse`
/// maps to exactly one result.
pub open spec fn parse_post(s: Seq<u8>, r: AsResult<Resp>) -> bool {
    match spec_parse(s) {
        ParseOut::More => r == AsResult::<Resp>::Err(RespError::MoreData),
        ParseOut::BadKind => r == AsResult::<Resp>::Err(RespError::UnknownMessageKind),
        ParseOut::BadLength => r == AsResult::<Resp>::Err(RespError::MalformedLength),
        ParseOut::Found { m, n } => r matches Ok(res) && resp_view(res) == m && valid_resp(res),
    }
}

/// Soundness of the parse specification: a found message is well-formed,
/// and the bytes consumed are exactly the length of its re-encoding — the
/// size-correctness law behind the stream adapter's cursor advance.
pub proof fn lemma_parse_sound(s: Seq<u8>)
    ensures
        spec_parse(s) matches ParseOut::Found { m, n } ==> wf_msg(m) && n == encoding(m).len() && 1
            <= n <= s.len(),
    decreases s.len(), 0int,
{
    lemma_first_lf(s);
    if spec_parse(s) is Found {
        let kind = s[0];
        let p = first_lf(s)->0;
        if is_line_marker(kind) {
            let payload = s.subrange(1, p - 1);
            assert forall|j: int| 0 <= j < payload.len() implies #[trigger] payload[j] != BYTE_LF
                by {
                assert(payload[j] == s[j + 1]);
            }
        } else {
            let field = s.subrange(1, p - 1);
            if field == null_field() {
                assert(field.len() == 2);
            } else {
                let c = dec_val(field);
                lemma_canonical_digits_of(field);
                if kind == RESP_BULK {
                    assert(s.subrange(p + 1, p + 1 + c).len() == c);
                } else {
                    lemma_parse_items_sound(s.skip(p + 1), c);
                }
            }
        }
    }
}

/// Soundness for sequences of messages.
pub proof fn lemma_parse_items_sound(s: Seq<u8>, k: nat)
    ensures
        spec_parse_items(s, k) matches ItemsOut::Found { items, n } ==> wf_items(items)
            && items.len() == k && n == encodings(items).len() && n <= s.len(),
    decreases s.len(), 1 + k,
{
    if k == 0 {
        assert(encodings(Seq::<SpecMsg>::empty()) =~= Seq::<u8>::empty());
    } else {
        lemma_parse_sound(s);
        match spec_parse(s) {
            ParseOut::Found { m, n } => {
                lemma_parse_items_sound(s.skip(n as int), (k - 1) as nat);
                match spec_parse_items(s.skip(n as int), (k - 1) as nat) {
                    ItemsOut::Found { items, n: n2 } => {
                        let all = seq![m] + items;
                        assert(all[0] == m);
                        assert(all.drop_first() =~= items);
                        assert(encodings(all) == encoding(m) + encodings(items));
                        assert(spec_parse_items(s, k) == ItemsOut::Found {
                            items: all,
                            n: (n + n2) as nat,
                        });
                    },
                    _ => {},
                }
            },
            _ => {},
        }
    }
}

/// Result of reading a length/count field.
enum FieldVal {
    /// The field is exactly `-1`.
    Null,
    /// A canonical decimal that fits in `usize`.
    Count(usize),
    /// Anything else.
    Bad,
}

/// Finds the first line feed of `src`.
#[verifier::loop_isolation(false)]
fn find_lf(src: &[u8]) -> (r: Option<usize>)
    ensures
        match r {
            Some(i) => first_lf(src@) == Some(i as int),
            None => first_lf(src@) is None,
        },
{
    let n = src.len();
    let mut i: usize = 0;
    while i < n
        invariant
            i <= n,
            forall|j: int| 0 <= j < i ==> #[trigger] src@[j] != BYTE_LF,
        decreases n - i,
    {
        if *slice_index_get(src, i) == BYTE_LF {
            proof {
                lemma_first_lf_at(src@, i as int);
            }
            return Some(i);
        }
        i = i + 1;
    }
    proof {
        lemma_first_lf_none(src@);
    }
    None
}

/// Classifies a length/count field: the null marker `-1`, a canonical
/// decimal that fits in `usize`, or malformed.
#[verifier::loop_isolation(false)]
fn parse_dec_field(field: &[u8]) -> (r: FieldVal)
    ensures
        field@ == null_field() ==> r is Null,
        field@ != null_field() && canonical_digits(field@) && dec_val(field@) <= usize::MAX
            ==> (r matches FieldVal::Count(c) && c == dec_val(field@)),
        field@ != null_field() && !(canonical_digits(field@) && dec_val(field@) <= usize::MAX)
            ==> r is Bad,
{
    let n = field.len();
    if n == 2 && *slice_index_get(field, 0) == 45 && *slice_index_get(field, 1) == 49 {
        proof {
            assert(field@ =~= null_field());
        }
        return FieldVal::Null;
    }
    proof {
        assert(field@ != null_field()) by {
            if field@ == null_field() {
                assert(field@.len() == 2);
                assert(field@[0] == 45 && field@[1] == 49);
            }
        }
    }
    if n == 0 {
        return FieldVal::Bad;
    }
    if n > 1 && *slice_index_get(field, 0) == 48 {
        return FieldVal::Bad;
    }
    let mut val: usize = 0;
    let mut i: usize = 0;
    while i < n
        invariant
            i <= n,
            forall|j: int| 0 <= j < i ==> 48 <= #[trigger] field@[j] <= 57,
            val == dec_val(field@.take(i as int)),
        decreases n - i,
    {
        let b = *slice_index_get(field, i);
        if b < 48 || b > 57 {
            return FieldVal::Bad;
        }
        let d = (b - 48) as usize;
        if val > (usize::MAX - d) / 10 {
            proof {
                vstd::arithmetic::div_mod::lemma_fundamental_div_mod(
                    (usize::MAX - d) as int,
                    10,
                );
                assert(val * 10 + d > usize::MAX);
                lemma_dec_val_take_step(field@, i as int);
                assert(dec_val(field@.take(i as int + 1)) > usize::MAX);
                if canonical_digits(field@) {
                    lemma_dec_val_prefix_le(field@, i as int + 1);
                    assert(dec_val(field@) > usize::MAX);
                }
            }
            return FieldVal::Bad;
        }
        proof {
            vstd::arithmetic::div_mod::lemma_fundamental_div_mod((usize::MAX - d) as int, 10);
            assert(val * 10 + d <= usize::MAX);
            lemma_dec_val_take_step(field@, i as int);
        }
        val = val * 10 + d;
        i = i + 1;
    }
    proof {
        assert(field@.take(n as int) =~= field@);
    }
    FieldVal::Count(val)
}

impl Resp {
    /// Parses one message from the front of `src`.
    ///
    /// Returns the message exactly when `spec_parse` finds one, and the
    /// error kind `spec_parse` assigns otherwise: `MoreData` for an
    /// incomplete buffer, `MalformedLength` for a bad length/count field,
    /// `UnknownMessageKind` for an unrecognized marker byte.
    #[verifier::loop_isolation(false)]
    pub fn parse(src: &[u8]) -> (r: AsResult<Resp>)
        ensures
            parse_post(src@, r),
        decreases src@.len(),
    {
        let n = src.len();
        if n == 0 {
            return Err(RespError::MoreData);
        }
        let kind = *slice_index_get(src, 0);
        if !(kind == RESP_STRING || kind == RESP_INT || kind == RESP_ERROR || kind == RESP_BULK
            || kind == RESP_ARRAY) {
            return Err(RespError::UnknownMessageKind);
        }
        let lf = match find_lf(src) {
            None => {
                return Err(RespError::MoreData);
            },
            Some(p) => p,
        };
        proof {
            lemma_first_lf(src@);
        }
        if kind == RESP_STRING || kind == RESP_INT || kind == RESP_ERROR {
            if lf < 2 {
                return Err(RespError::MoreData);
            }
            let payload = slice_to_vec(slice_subrange(src, 1, lf - 1));
            let res = Resp { rtype: kind, data: Some(payload), array: None };
            proof {
                let pl = src@.subrange(1, lf as int - 1);
                assert forall|j: int| 0 <= j < pl.len() implies #[trigger] pl[j] != BYTE_LF by {
                    assert(pl[j] == src@[j + 1]);
                }
                assert(resp_view(res) == SpecMsg::Line { kind, payload: pl });
            }
            return Ok(res);
        }
        if lf < 2 {
            return Err(RespError::MalformedLength);
        }
        let field = slice_subrange(src, 1, lf - 1);
        match parse_dec_field(field) {
            FieldVal::Bad => Err(RespError::MalformedLength),
            FieldVal::Null => {
                let res = Resp { rtype: kind, data: None, array: None };
                Ok(res)
            },
            FieldVal::Count(c) => {
                if kind == RESP_BULK {
                    let rest = n - (lf + 1);
                    if rest < c {
                        return Err(RespError::MoreData);
                    }
                    if rest - c < 2 {
                        return Err(RespError::MoreData);
                    }
                    let data = slice_to_vec(slice_subrange(src, lf + 1, lf + 1 + c));
                    let res = Resp { rtype: kind, data: Some(data), array: None };
                    Ok(res)
                } else {
                    let ghost s0 = src@.skip(lf as int + 1);
                    let ghost c0 = dec_val(field@);
                    proof {
                        assert(spec_parse(src@) == arr_combine(spec_parse_items(s0, c0), lf as int));
                    }
                    let mut items: Vec<Resp> = Vec::new();
                    let mut consumed: usize = lf + 1;
                    let mut k: usize = 0;
                    while k < c
                        invariant
                            k <= c,
                            items@.len() == k,
                            lf + 1 <= consumed <= n,
                            forall|j: int| 0 <= j < k ==> valid_resp(#[trigger] items@[j]),
                            spec_parse_items(s0, c0) == items_combine(
                                resp_views(items@),
                                (consumed - (lf + 1)) as nat,
                                spec_parse_items(src@.skip(consumed as int), (c - k) as nat),
                            ),
                        decreases c - k,
                    {
                        let sub = slice_subrange(src, consumed, n);
                        proof {
                            assert(sub@ =~= src@.skip(consumed as int));
                        }
                        match Self::parse(sub) {
                            Err(e) => {
                                proof {
                                    lemma_parse_sound(sub@);
                                }
                                return Err(e);
                            },
                            Ok(item) => {
                                proof {
                                    lemma_parse_sound(sub@);
                                }
                                let sz = item.binary_size();
                                proof {
                                    assert(src@.skip(consumed as int).skip(sz as int) =~= src@.skip(
                                        consumed as int + sz as int,
                                    ));
                                    lemma_resp_views_push(items@, item);
                                    assert(resp_views(items@) + seq![resp_view(item)]
                                        =~= resp_views(items@.push(item)));
                                }
                                proof {
                                    let rest_out = spec_parse_items(
                                        src@.skip(consumed as int + sz as int),
                                        (c - k - 1) as nat,
                                    );
                                    match rest_out {
                                        ItemsOut::Found { items: ri, n: rn } => {
                                            assert(resp_views(items@) + (seq![resp_view(item)]
                                                + ri) =~= resp_views(items@.push(item)) + ri);
                                        },
                                        _ => {},
                                    }
                                }
                                consumed = consumed + sz;
                                items.push(item);
                                k = k + 1;
                            },
                        }
                    }
                    proof {
                        assert(spec_parse_items(src@.skip(consumed as int), 0) == ItemsOut::Found {
                            items: Seq::<SpecMsg>::empty(),
                            n: 0,
                        });
                        assert(resp_views(items@) + Seq::<SpecMsg>::empty() =~= resp_views(
                            items@,
                        ));
                        lemma_valid_items_from_index(items@);
                        lemma_canonical_digits_of(field@);
                    }
                    let data = slice_to_vec(field);
                    let res = Resp { rtype: kind, data: Some(data), array: Some(items) };
                    proof {
                        assert(resp_view(res) == SpecMsg::Arr { items: resp_views(items@) });
                        assert(valid_resp(res));
                    }
                    Ok(res)
                }
            },
        }
    }
}

} // verus!
