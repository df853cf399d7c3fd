//! The codec's laws, stated over the mathematical model and proved once and
//! for all: the round-trip law (a well-formed message's encoding parses back
//! to exactly that message), and the two halves of incremental equivalence
//! (a found message never changes when more bytes arrive, and a strict
//! prefix of an encoding always asks for more data).
//!
//! Size correctness — bytes consumed equal the re-encoded size — is
//! `crate::parsing::lemma_parse_sound`.

use vstd::prelude::*;

verus! {

use crate::digits::digits_of;
use crate::digits::dec_val;
use crate::digits::lemma_digits_of_wf;
use crate::model::SpecMsg;
use crate::model::crlf;
use crate::model::encoding;
use crate::model::encodings;
use crate::model::is_line_marker;
use crate::model::lemma_encodings_len_ge;
use crate::model::lemma_encodings_len_lb;
use crate::model::null_field;
use crate::model::wf_items;
use crate::model::wf_msg;
use crate::model::BYTE_CR;
use crate::model::BYTE_LF;
use crate::model::RESP_ARRAY;
use crate::model::RESP_BULK;
use crate::parsing::arr_combine;
use crate::parsing::first_lf;
use crate::parsing::items_combine;
use crate::parsing::lemma_first_lf;
use crate::parsing::lemma_first_lf_at;
use crate::parsing::lemma_first_lf_none;
use crate::parsing::lemma_parse_sound;
use crate::parsing::spec_parse;
use crate::parsing::spec_parse_items;
use crate::parsing::ItemsOut;
use crate::parsing::ParseOut;

/// The round-trip law: the encoding of a well-formed message — with any
/// bytes whatsoever following it — parses back to exactly that message,
/// consuming exactly the encoding. Together with the serializer's contract
/// (`write` appends `encoding(m)`), serializing and re-parsing is the
/// identity, and parsing a valid buffer and re-serializing reproduces its
/// bytes.
pub proof fn lemma_round_trip(m: SpecMsg, tail: Seq<u8>)
    requires
        wf_msg(m),
        encoding(m).len() <= usize::MAX,
    ensures
        spec_parse(encoding(m) + tail) == (ParseOut::Found {
            m,
            n: encoding(m).len() as nat,
        }),
    decreases m,
{
    let e = encoding(m);
    let s = e + tail;
    match m {
        SpecMsg::Line { kind, payload } => {
            let p = 1 + payload.len() as int + 1;
            assert(s[0] == kind);
            assert(s[p] == BYTE_LF);
            assert forall|j: int| 0 <= j < p implies #[trigger] s[j] != BYTE_LF by {
                if j == 0 {
                } else if j <= payload.len() {
                    assert(s[j] == payload[j - 1]);
                } else {
                    assert(s[j] == BYTE_CR);
                }
            }
            lemma_first_lf_at(s, p);
            assert(s.subrange(1, p - 1) =~= payload);
        },
        SpecMsg::NullBulk => {
            assert(s[0] == RESP_BULK);
            assert(s[1] == 45u8 && s[2] == 49u8 && s[3] == BYTE_CR && s[4] == BYTE_LF);
            assert forall|j: int| 0 <= j < 4 implies #[trigger] s[j] != BYTE_LF by {}
            lemma_first_lf_at(s, 4);
            assert(s.subrange(1, 3) =~= null_field());
        },
        SpecMsg::NullArray => {
            assert(s[0] == RESP_ARRAY);
            assert(s[1] == 45u8 && s[2] == 49u8 && s[3] == BYTE_CR && s[4] == BYTE_LF);
            assert forall|j: int| 0 <= j < 4 implies #[trigger] s[j] != BYTE_LF by {}
            lemma_first_lf_at(s, 4);
            assert(s.subrange(1, 3) =~= null_field());
        },
        SpecMsg::Bulk { payload } => {
            lemma_digits_of_wf(payload.len());
            let dig = digits_of(payload.len());
            let dl = dig.len() as int;
            let p = 1 + dl + 1;
            let c = payload.len() as int;
            assert(s[0] == RESP_BULK);
            assert(s[p] == BYTE_LF);
            assert forall|j: int| 0 <= j < p implies #[trigger] s[j] != BYTE_LF by {
                if j == 0 {
                } else if j <= dl {
                    assert(s[j] == dig[j - 1]);
                } else {
                    assert(s[j] == BYTE_CR);
                }
            }
            lemma_first_lf_at(s, p);
            let field = s.subrange(1, p - 1);
            assert(field =~= dig);
            assert(field != null_field()) by {
                if field == null_field() {
                    assert(field[0] == 45u8);
                    assert(dig[0] >= 48);
                }
            }
            assert(dec_val(field) == payload.len());
            assert(e.len() == p + 1 + c + 2);
            assert(s.subrange(p + 1, p + 1 + c) =~= payload);
        },
        SpecMsg::Arr { items } => {
            lemma_digits_of_wf(items.len());
            lemma_encodings_len_lb(items);
            let dig = digits_of(items.len());
            let dl = dig.len() as int;
            let p = 1 + dl + 1;
            assert(s[0] == RESP_ARRAY);
            assert(s[p] == BYTE_LF);
            assert forall|j: int| 0 <= j < p implies #[trigger] s[j] != BYTE_LF by {
                if j == 0 {
                } else if j <= dl {
                    assert(s[j] == dig[j - 1]);
                } else {
                    assert(s[j] == BYTE_CR);
                }
            }
            lemma_first_lf_at(s, p);
            let field = s.subrange(1, p - 1);
            assert(field =~= dig);
            assert(field != null_field()) by {
                if field == null_field() {
                    assert(field[0] == 45u8);
                    assert(dig[0] >= 48);
                }
            }
            assert(dec_val(field) == items.len());
            assert(items.len() <= usize::MAX);
            assert(s.skip(p + 1) =~= encodings(items) + tail);
            lemma_parse_items_complete(items, tail);
            assert(spec_parse(s) == arr_combine(
                spec_parse_items(encodings(items) + tail, items.len()),
                p,
            ));
            assert(e.len() == p + 1 + encodings(items).len());
        },
    }
}

/// The round-trip law for a run of consecutive messages.
pub proof fn lemma_parse_items_complete(items: Seq<SpecMsg>, tail: Seq<u8>)
    requires
        wf_items(items),
        encodings(items).len() <= usize::MAX,
    ensures
        spec_parse_items(encodings(items) + tail, items.len()) == (ItemsOut::Found {
            items,
            n: encodings(items).len() as nat,
        }),
    decreases items,
{
    let s = encodings(items) + tail;
    if items.len() == 0 {
        assert(items =~= Seq::<SpecMsg>::empty());
        assert(s =~= tail);
    } else {
        let h = items[0];
        let rest = items.drop_first();
        assert(encodings(items) == encoding(h) + encodings(rest));
        assert(s =~= encoding(h) + (encodings(rest) + tail));
        lemma_encodings_len_ge(items, 0);
        lemma_round_trip(h, encodings(rest) + tail);
        let n0 = encoding(h).len();
        assert(spec_parse(s) == ParseOut::Found { m: h, n: n0 as nat });
        assert(n0 <= s.len());
        assert(s.skip(n0 as int) =~= encodings(rest) + tail);
        lemma_parse_items_complete(rest, tail);
        assert(seq![h] + rest =~= items);
        assert(spec_parse_items(s, items.len()) == items_combine(
            seq![h],
            n0 as nat,
            ItemsOut::Found { items: rest, n: encodings(rest).len() as nat },
        ));
    }
}

/// First half of incremental equivalence: once a buffer yields a message,
/// appending further bytes changes neither the message nor the count of
/// consumed bytes. With `lemma_encoding_prefix_more` this shows that
/// feeding a valid message in arbitrary chunks — retrying on `MoreData`
/// after appending the next chunk — ends with exactly the message that
/// parsing all bytes at once yields.
pub proof fn lemma_parse_prefix_monotone(s: Seq<u8>, t: Seq<u8>)
    requires
        spec_parse(s) is Found,
        s.len() <= t.len(),
        t.take(s.len() as int) == s,
    ensures
        spec_parse(t) == spec_parse(s),
    decreases s.len(), 0int,
{
    assert forall|j: int| 0 <= j < s.len() implies t[j] == s[j] by {
        assert(t.take(s.len() as int)[j] == t[j]);
    }
    lemma_first_lf(s);
    match first_lf(s) {
        Some(p) => {
            assert(t[p] == s[p]);
            assert forall|j: int| 0 <= j < p implies #[trigger] t[j] != BYTE_LF by {
                assert(t[j] == s[j]);
            }
            lemma_first_lf_at(t, p);
            let kind = s[0];
            assert(t[0] == kind);
            if 1 <= p && p < s.len() && p >= 2 {
                assert(t.subrange(1, p - 1) =~= s.subrange(1, p - 1));
                if is_line_marker(kind) {
                    assert(t.subrange(1, p - 1) == s.subrange(1, p - 1));
                } else {
                    let field = s.subrange(1, p - 1);
                    if field != null_field() && canonical_ok(field) {
                        let c = dec_val(field) as int;
                        if kind == RESP_BULK {
                            assert(s.len() >= p + 1 + c + 2);
                            assert(t.subrange(p + 1, p + 1 + c) =~= s.subrange(p + 1, p + 1 + c));
                        } else {
                            assert(t.skip(p + 1).take(s.len() - (p + 1)) =~= s.skip(p + 1));
                            lemma_parse_items_prefix_monotone(
                                s.skip(p + 1),
                                t.skip(p + 1),
                                dec_val(field),
                            );
                        }
                    }
                }
            }
        },
        None => {},
    }
}

/// A length field accepted by the parse specification.
pub open spec fn canonical_ok(field: Seq<u8>) -> bool {
    crate::digits::canonical_digits(field) && dec_val(field) <= usize::MAX
}

/// `lemma_parse_prefix_monotone` for a run of consecutive messages.
pub proof fn lemma_parse_items_prefix_monotone(s: Seq<u8>, t: Seq<u8>, k: nat)
    requires
        spec_parse_items(s, k) is Found,
        s.len() <= t.len(),
        t.take(s.len() as int) == s,
    ensures
        spec_parse_items(t, k) == spec_parse_items(s, k),
    decreases s.len(), 1 + k,
{
    if k > 0 {
        match spec_parse(s) {
            ParseOut::Found { m, n } => {
                lemma_parse_prefix_monotone(s, t);
                assert(n <= s.len());
                assert forall|j: int| 0 <= j < s.len() implies t[j] == s[j] by {
                    assert(t.take(s.len() as int)[j] == t[j]);
                }
                assert(t.skip(n as int).take(s.len() - n) =~= s.skip(n as int));
                lemma_parse_items_prefix_monotone(s.skip(n as int), t.skip(n as int), (k
                    - 1) as nat);
            },
            _ => {
                assert(false);
            },
        }
    }
}

/// Second half of incremental equivalence: every strict prefix of a
/// well-formed message's encoding parses to `MoreData` — never to a
/// different message and never to a fatal error — so a caller who retries
/// with a growing buffer is stalled only until the message completes.
pub proof fn lemma_encoding_prefix_more(m: SpecMsg, k: int)
    requires
        wf_msg(m),
        encoding(m).len() <= usize::MAX,
        0 <= k < encoding(m).len(),
    ensures
        spec_parse(encoding(m).take(k)) == ParseOut::More,
    decreases m,
{
    let e = encoding(m);
    let q = e.take(k);
    assert forall|j: int| 0 <= j < k implies q[j] == e[j] by {}
    if k == 0 {
        assert(q.len() == 0);
    } else {
        match m {
            SpecMsg::Line { kind, payload } => {
                assert(q[0] == kind);
                assert forall|j: int| 0 <= j < k implies #[trigger] q[j] != BYTE_LF by {
                    if j == 0 {
                    } else if j <= payload.len() {
                        assert(e[j] == payload[j - 1]);
                    } else {
                        assert(e[j] == BYTE_CR);
                    }
                }
                lemma_first_lf_none(q);
            },
            SpecMsg::NullBulk => {
                assert(q[0] == RESP_BULK);
                assert forall|j: int| 0 <= j < k implies #[trigger] q[j] != BYTE_LF by {
                    assert(e[1] == 45u8 && e[2] == 49u8 && e[3] == BYTE_CR);
                }
                lemma_first_lf_none(q);
            },
            SpecMsg::NullArray => {
                assert(q[0] == RESP_ARRAY);
                assert forall|j: int| 0 <= j < k implies #[trigger] q[j] != BYTE_LF by {
                    assert(e[1] == 45u8 && e[2] == 49u8 && e[3] == BYTE_CR);
                }
                lemma_first_lf_none(q);
            },
            SpecMsg::Bulk { payload } => {
                lemma_digits_of_wf(payload.len());
                let dig = digits_of(payload.len());
                let dl = dig.len() as int;
                let p = 1 + dl + 1;
                let c = payload.len() as int;
                assert(q[0] == RESP_BULK);
                if k <= p {
                    assert forall|j: int| 0 <= j < k implies #[trigger] q[j] != BYTE_LF by {
                        if j == 0 {
                        } else if j <= dl {
                            assert(e[j] == dig[j - 1]);
                        } else {
                            assert(e[j] == BYTE_CR);
                        }
                    }
                    lemma_first_lf_none(q);
                } else {
                    assert(q[p] == BYTE_LF);
                    assert forall|j: int| 0 <= j < p implies #[trigger] q[j] != BYTE_LF by {
                        if j == 0 {
                        } else if j <= dl {
                            assert(e[j] == dig[j - 1]);
                        } else {
                            assert(e[j] == BYTE_CR);
                        }
                    }
                    lemma_first_lf_at(q, p);
                    let field = q.subrange(1, p - 1);
                    assert(field =~= dig);
                    assert(field != null_field()) by {
                        if field == null_field() {
                            assert(field[0] == 45u8);
                            assert(dig[0] >= 48);
                        }
                    }
                    assert(q.len() < p + 1 + c + 2);
                }
            },
            SpecMsg::Arr { items } => {
                lemma_digits_of_wf(items.len());
                lemma_encodings_len_lb(items);
                let dig = digits_of(items.len());
                let dl = dig.len() as int;
                let p = 1 + dl + 1;
                assert(q[0] == RESP_ARRAY);
                if k <= p {
                    assert forall|j: int| 0 <= j < k implies #[trigger] q[j] != BYTE_LF by {
                        if j == 0 {
                        } else if j <= dl {
                            assert(e[j] == dig[j - 1]);
                        } else {
                            assert(e[j] == BYTE_CR);
                        }
                    }
                    lemma_first_lf_none(q);
                } else {
                    assert(q[p] == BYTE_LF);
                    assert forall|j: int| 0 <= j < p implies #[trigger] q[j] != BYTE_LF by {
                        if j == 0 {
                        } else if j <= dl {
                            assert(e[j] == dig[j - 1]);
                        } else {
                            assert(e[j] == BYTE_CR);
                        }
                    }
                    lemma_first_lf_at(q, p);
                    let field = q.subrange(1, p - 1);
                    assert(field =~= dig);
                    assert(field != null_field()) by {
                        if field == null_field() {
                            assert(field[0] == 45u8);
                            assert(dig[0] >= 48);
                        }
                    }
                    assert(items.len() <= usize::MAX);
                    assert(q.skip(p + 1) =~= encodings(items).take(k - (p + 1)));
                    lemma_encodings_prefix_more(items, k - (p + 1));
                    assert(spec_parse(q) == arr_combine(
                        spec_parse_items(encodings(items).take(k - (p + 1)), items.len()),
                        p,
                    ));
                }
            },
        }
    }
}

/// `lemma_encoding_prefix_more` for a run of consecutive messages.
pub proof fn lemma_encodings_prefix_more(items: Seq<SpecMsg>, k: int)
    requires
        wf_items(items),
        encodings(items).len() <= usize::MAX,
        0 <= k < encodings(items).len(),
    ensures
        spec_parse_items(encodings(items).take(k), items.len()) == ItemsOut::More,
    decreases items,
{
    assert(items.len() > 0) by {
        if items.len() == 0 {
            assert(encodings(items).len() == 0);
        }
    }
    let h = items[0];
    let rest = items.drop_first();
    let e0 = encoding(h);
    let q = encodings(items).take(k);
    lemma_encodings_len_ge(items, 0);
    assert(encodings(items) == e0 + encodings(rest));
    if k < e0.len() {
        assert(q =~= e0.take(k));
        lemma_encoding_prefix_more(h, k);
    } else {
        assert(q =~= e0 + encodings(rest).take(k - e0.len()));
        lemma_round_trip(h, encodings(rest).take(k - e0.len()));
        assert(spec_parse(q) == ParseOut::Found { m: h, n: e0.len() as nat });
        assert(q.skip(e0.len() as int) =~= encodings(rest).take(k - e0.len()));
        lemma_encodings_prefix_more(rest, k - e0.len());
    }
}

} // verus!

