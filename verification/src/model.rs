//! The mathematical model of the wire protocol: an abstract message tree,
//! its exact byte encoding, and the well-formedness condition under which the
//! encoding is unambiguous.

use vstd::prelude::*;

verus! {

use crate::digits::digits_of;

/// One-byte type markers of the five message kinds.
pub const RESP_STRING: u8 = 43;  // '+'

pub const RESP_INT: u8 = 58;  // ':'

pub const RESP_ERROR: u8 = 45;  // '-'

pub const RESP_BULK: u8 = 36;  // '$'

pub const RESP_ARRAY: u8 = 42;  // '*'

pub const BYTE_CR: u8 = 13;

pub const BYTE_LF: u8 = 10;

/// Number of keyspace slots of the surrounding cluster-routing scheme; kept
/// here only as the protocol-wide constant, otherwise unused by the codec.
pub const SLOTS_COUNT: usize = 16384;

/// The two-byte line terminator.
pub open spec fn crlf() -> Seq<u8> {
    seq![BYTE_CR, BYTE_LF]
}

/// The length/count field that encodes a null bulk string or null array.
pub open spec fn null_field() -> Seq<u8> {
    seq![45u8, 49u8]  // "-1"
}

/// Abstract view of one protocol message.
pub enum SpecMsg {
    /// Simple string, integer or error: `kind` is the marker byte and
    /// `payload` the bytes between the marker and the terminator.
    Line { kind: u8, payload: Seq<u8> },
    /// The null bulk string `$-1\r\n`.
    NullBulk,
    /// A length-delimited byte string.
    Bulk { payload: Seq<u8> },
    /// The null array `*-1\r\n`.
    NullArray,
    /// An array of nested messages.
    Arr { items: Seq<SpecMsg> },
}

/// Is `kind` one of the three line-delimited markers?
pub open spec fn is_line_marker(kind: u8) -> bool {
    kind == RESP_STRING || kind == RESP_INT || kind == RESP_ERROR
}

/// Is `kind` one of the five recognized markers?
pub open spec fn is_marker(kind: u8) -> bool {
    is_line_marker(kind) || kind == RESP_BULK || kind == RESP_ARRAY
}

/// `s` contains no line feed, so a scan for the first line feed runs past it.
pub open spec fn lf_free(s: Seq<u8>) -> bool {
    forall|i: int| 0 <= i < s.len() ==> #[trigger] s[i] != BYTE_LF
}

/// Well-formed messages: exactly those whose encoding parses back to them.
/// A line-delimited payload must not contain the line feed that would end the
/// line early.
pub open spec fn wf_msg(m: SpecMsg) -> bool
    decreases m,
{
    match m {
        SpecMsg::Line { kind, payload } => is_line_marker(kind) && lf_free(payload),
        SpecMsg::NullBulk => true,
        SpecMsg::Bulk { payload } => true,
        SpecMsg::NullArray => true,
        SpecMsg::Arr { items } => wf_items(items),
    }
}

/// All messages of a sequence are well-formed.
pub open spec fn wf_items(items: Seq<SpecMsg>) -> bool
    decreases items,
{
    if items.len() == 0 {
        true
    } else {
        wf_msg(items[0]) && wf_items(items.drop_first())
    }
}

/// The exact wire bytes of a message.
pub open spec fn encoding(m: SpecMsg) -> Seq<u8>
    decreases m,
{
    match m {
        SpecMsg::Line { kind, payload } => seq![kind] + payload + crlf(),
        SpecMsg::NullBulk => seq![RESP_BULK] + null_field() + crlf(),
        SpecMsg::Bulk { payload } => seq![RESP_BULK] + digits_of(payload.len()) + crlf() + payload
            + crlf(),
        SpecMsg::NullArray => seq![RESP_ARRAY] + null_field() + crlf(),
        SpecMsg::Arr { items } => seq![RESP_ARRAY] + digits_of(items.len()) + crlf() + encodings(
            items,
        ),
    }
}

/// The concatenated wire bytes of a sequence of messages.
pub open spec fn encodings(items: Seq<SpecMsg>) -> Seq<u8>
    decreases items,
{
    if items.len() == 0 {
        Seq::empty()
    } else {
        encoding(items[0]) + encodings(items.drop_first())
    }
}

/// And back: element-wise well-formedness gives `wf_items`.
pub proof fn lemma_wf_items_from_index(items: Seq<SpecMsg>)
    requires
        forall|i: int| 0 <= i < items.len() ==> wf_msg(#[trigger] items[i]),
    ensures
        wf_items(items),
    decreases items,
{
    if items.len() > 0 {
        assert forall|i: int| 0 <= i < items.drop_first().len() implies wf_msg(
            #[trigger] items.drop_first()[i],
        ) by {
            assert(items.drop_first()[i] == items[i + 1]);
        }
        lemma_wf_items_from_index(items.drop_first());
    }
}

/// Appending one message appends its encoding.
pub proof fn lemma_encodings_push(items: Seq<SpecMsg>, m: SpecMsg)
    ensures
        encodings(items.push(m)) == encodings(items) + encoding(m),
    decreases items,
{
    let p = items.push(m);
    if items.len() == 0 {
        assert(p.drop_first() =~= Seq::<SpecMsg>::empty());
        assert(p[0] == m);
        assert(encodings(p) == encoding(m) + encodings(Seq::<SpecMsg>::empty()));
        assert(encodings(p) =~= encodings(items) + encoding(m));
    } else {
        assert(p.drop_first() =~= items.drop_first().push(m));
        lemma_encodings_push(items.drop_first(), m);
        assert(p[0] == items[0]);
        assert(encodings(p) == encoding(items[0]) + (encodings(items.drop_first()) + encoding(m)));
        assert(encodings(p) =~= encodings(items) + encoding(m));
    }
}

/// Every element's encoding is no longer than the whole concatenation.
pub proof fn lemma_encodings_len_ge(items: Seq<SpecMsg>, i: int)
    requires
        0 <= i < items.len(),
    ensures
        encoding(items[i]).len() <= encodings(items).len(),
    decreases items,
{
    if i == 0 {
    } else {
        lemma_encodings_len_ge(items.drop_first(), i - 1);
        assert(items.drop_first()[i - 1] == items[i]);
    }
}

/// Extending a prefix by one element appends that element's encoding.
pub proof fn lemma_encodings_take_step(items: Seq<SpecMsg>, i: int)
    requires
        0 <= i < items.len(),
    ensures
        encodings(items.take(i + 1)) == encodings(items.take(i)) + encoding(items[i]),
{
    assert(items.take(i + 1) =~= items.take(i).push(items[i]));
    lemma_encodings_push(items.take(i), items[i]);
}

/// A prefix's concatenated encoding is no longer than the whole.
pub proof fn lemma_encodings_take_len(items: Seq<SpecMsg>, i: int)
    requires
        0 <= i <= items.len(),
    ensures
        encodings(items.take(i)).len() <= encodings(items).len(),
    decreases items.len() - i,
{
    if i == items.len() {
        assert(items.take(i) =~= items);
    } else {
        lemma_encodings_take_len(items, i + 1);
        lemma_encodings_take_step(items, i);
    }
}

/// A concatenation of encodings is at least three bytes per message.
pub proof fn lemma_encodings_len_lb(items: Seq<SpecMsg>)
    ensures
        encodings(items).len() >= 3 * items.len(),
    decreases items,
{
    if items.len() > 0 {
        lemma_encoding_len_pos(items[0]);
        lemma_encodings_len_lb(items.drop_first());
    }
}

/// An encoding is never empty and starts with its kind's marker.
pub proof fn lemma_encoding_len_pos(m: SpecMsg)
    ensures
        encoding(m).len() >= 3,
{
    crate::digits::lemma_digits_of_wf(0);
    match m {
        SpecMsg::Bulk { payload } => {
            crate::digits::lemma_digits_of_wf(payload.len());
        },
        SpecMsg::Arr { items } => {
            crate::digits::lemma_digits_of_wf(items.len());
        },
        _ => {},
    }
}

} // verus!
