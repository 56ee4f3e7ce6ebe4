//! What the encoder and the decoder promise together: every command that the
//! framing can carry comes back unchanged, and a frame cut short is never
//! mistaken for a whole one.

use vstd::prelude::*;
use vstd::utf8::*;
use crate::decimal::{all_digits, decimal, is_digit, lemma_decimal};
use crate::protocol::{all_valid_utf8, check_spec, crlf, crlf_at, decode_entries, decode_line, digit_run, encodable, encode_spec, entry_bytes, first_crlf, has_crlf, list_body, parse_spec, text_bytes, CommandView, FrameParseError, CREATE_BYTE, DISCONNECT_BYTE, ID_BYTE, LENGTH_MARK, LIST_BYTE};

verus! {

broadcast use {encode_utf8_valid_utf8, encode_utf8_decode_utf8};

proof fn lemma_no_crlf_concat(a: Seq<u8>, b: Seq<u8>)
    requires
        !has_crlf(a),
        !has_crlf(b),
        a.len() == 0 || b.len() == 0 || a.last() != 13 || b[0] != 10,
    ensures
        !has_crlf(a + b),
{
    let s = a + b;
    assert forall|i: int| !crlf_at(s, i) by {
        if crlf_at(s, i) {
            if i + 1 < a.len() {
                assert(crlf_at(a, i));
            } else if i >= a.len() {
                assert(crlf_at(b, i - a.len()));
            } else {
                assert(a.last() == s[i]);
                assert(b[0] == s[i + 1]);
            }
        }
    }
}

proof fn lemma_digits_no_crlf(d: Seq<u8>)
    requires
        all_digits(d),
    ensures
        !has_crlf(d),
{
    assert forall|i: int| !crlf_at(d, i) by {
        if crlf_at(d, i) {
            assert(is_digit(d[i]));
        }
    }
}

proof fn lemma_short_no_crlf(d: Seq<u8>)
    requires
        d.len() <= 1,
    ensures
        !has_crlf(d),
{
    assert forall|i: int| !crlf_at(d, i) by {}
}

/// A list body holds no CRLF, and opens with a digit when it is not empty.
proof fn lemma_list_body_shape(es: Seq<Seq<char>>)
    requires
        forall|i: int| 0 <= i < es.len() ==> !has_crlf(text_bytes(#[trigger] es[i])),
    ensures
        !has_crlf(list_body(es)),
        list_body(es).len() > 0 ==> is_digit(list_body(es)[0]),
    decreases es.len(),
{
    if es.len() == 0 {
        lemma_short_no_crlf(list_body(es));
    } else {
        let e = es[0];
        let rest = es.drop_first();
        assert forall|i: int| 0 <= i < rest.len() implies !has_crlf(text_bytes(#[trigger] rest[i])) by {
            assert(rest[i] == es[i + 1]);
        }
        lemma_list_body_shape(rest);
        let n = text_bytes(e).len();
        lemma_decimal(n);
        let d = decimal(n);
        lemma_digits_no_crlf(d);
        lemma_short_no_crlf(seq![LENGTH_MARK]);
        lemma_no_crlf_concat(d, seq![LENGTH_MARK]);
        let dm = d + seq![LENGTH_MARK];
        lemma_no_crlf_concat(dm, text_bytes(e));
        assert(entry_bytes(e) == dm + text_bytes(e));
        let eb = entry_bytes(e);
        if eb.len() > 0 && list_body(rest).len() > 0 {
            assert(is_digit(list_body(rest)[0]));
        }
        lemma_no_crlf_concat(eb, list_body(rest));
        assert(list_body(es)[0] == d[0]);
    }
}

proof fn lemma_first_crlf_at(s: Seq<u8>, k: int, m: int)
    requires
        0 <= k <= m,
        crlf_at(s, m),
        forall|i: int| k <= i < m ==> !crlf_at(s, i),
    ensures
        first_crlf(s, k) == Some(m),
    decreases m - k,
{
    if k < m {
        lemma_first_crlf_at(s, k + 1, m);
    }
}

/// Where the CRLF of `[tag] + body + CRLF` is found.
proof fn lemma_line_frame(tag: u8, body: Seq<u8>)
    requires
        !has_crlf(body),
    ensures
        first_crlf(seq![tag] + body + crlf(), 1) == Some(1 + body.len() as int),
        (seq![tag] + body + crlf()).subrange(1, 1 + body.len() as int) == body,
{
    let s = seq![tag] + body + crlf();
    let m = 1 + body.len() as int;
    assert(crlf_at(s, m));
    assert forall|i: int| 1 <= i < m implies !crlf_at(s, i) by {
        if crlf_at(s, i) {
            if i + 1 < m {
                assert(crlf_at(body, i - 1));
            } else {
                assert(s[i + 1] == 13);
            }
        }
    }
    lemma_first_crlf_at(s, 1, m);
    assert(s.subrange(1, m) =~= body);
}

proof fn lemma_digit_run_prefix(d: Seq<u8>, s: Seq<u8>)
    requires
        all_digits(d),
        s.len() > 0,
        !is_digit(s[0]),
    ensures
        digit_run(d + s) == d.len(),
    decreases d.len(),
{
    if d.len() == 0 {
        assert(d + s =~= s);
    } else {
        assert((d + s).drop_first() =~= d.drop_first() + s);
        assert(is_digit(d[0]));
        lemma_digit_run_prefix(d.drop_first(), s);
    }
}

/// List bodies decode back into the bytes of their entries.
pub proof fn lemma_decode_list_body(es: Seq<Seq<char>>)
    ensures
        decode_entries(list_body(es)) == Some(es.map_values(|e: Seq<char>| text_bytes(e))),
    decreases es.len(),
{
    if es.len() == 0 {
        assert(es.map_values(|e: Seq<char>| text_bytes(e)) =~= Seq::<Seq<u8>>::empty());
    } else {
        let e = es[0];
        let rest = es.drop_first();
        lemma_decode_list_body(rest);
        let t = text_bytes(e);
        let d = decimal(t.len());
        lemma_decimal(t.len());
        let line = list_body(es);
        let tail = seq![LENGTH_MARK] + t + list_body(rest);
        assert(line =~= d + tail);
        lemma_digit_run_prefix(d, tail);
        let k = d.len() as int;
        assert(line[k] == LENGTH_MARK);
        assert(line.take(k) =~= d);
        let n = t.len() as int;
        assert(line.subrange(k + 1, k + 1 + n) =~= t);
        assert(line.skip(k + 1 + n) =~= list_body(rest));
        assert(seq![t] + rest.map_values(|e: Seq<char>| text_bytes(e))
            =~= es.map_values(|e: Seq<char>| text_bytes(e)));
    }
}

/// Any sequence of entries without an embedded CRLF, the empty one included,
/// comes back unchanged from a list body.
pub proof fn lemma_list_round_trip(es: Seq<Seq<char>>)
    requires
        forall|i: int| 0 <= i < es.len() ==> !has_crlf(text_bytes(#[trigger] es[i])),
    ensures
        decode_line(LIST_BYTE, list_body(es)) == Ok::<CommandView, FrameParseError>(CommandView::List(es)),
{
    lemma_decode_list_body(es);
    let bs = es.map_values(|e: Seq<char>| text_bytes(e));
    assert(all_valid_utf8(bs));
    assert(bs.map_values(|b: Seq<u8>| decode_utf8(b)) =~= es);
}

/// Encoding a command the framing can carry and decoding the bytes gives the
/// same command back, and `check` reports the whole encoding as one frame.
pub proof fn lemma_encode_decode(c: CommandView)
    requires
        encodable(c),
    ensures
        check_spec(encode_spec(c)) == Ok::<nat, FrameParseError>(encode_spec(c).len()),
        parse_spec(encode_spec(c)) == Ok::<CommandView, FrameParseError>(c),
{
    let s = encode_spec(c);
    match c {
        CommandView::Create(t) => {
            lemma_line_frame(CREATE_BYTE, text_bytes(t));
        },
        CommandView::List(es) => {
            lemma_list_body_shape(es);
            lemma_line_frame(LIST_BYTE, list_body(es));
            lemma_list_round_trip(es);
        },
        CommandView::Id(n) => {
            lemma_decimal(n as nat);
            lemma_digits_no_crlf(decimal(n as nat));
            lemma_line_frame(ID_BYTE, decimal(n as nat));
        },
        CommandView::Disconnect(n) => {
            lemma_decimal(n as nat);
            lemma_digits_no_crlf(decimal(n as nat));
            lemma_line_frame(DISCONNECT_BYTE, decimal(n as nat));
        },
        _ => {},
    }
}

/// Every strict prefix of an encoded frame is incomplete to `check`; the whole
/// frame then parses back to the command.
pub proof fn lemma_prefix_incomplete(c: CommandView, j: int)
    requires
        encodable(c),
        0 <= j < encode_spec(c).len(),
    ensures
        check_spec(encode_spec(c).take(j)) == Err::<nat, FrameParseError>(FrameParseError::Incomplete),
        parse_spec(encode_spec(c)) == Ok::<CommandView, FrameParseError>(c),
{
    lemma_encode_decode(c);
    let s = encode_spec(c);
    let p = s.take(j);
    if j > 0 {
        assert(p[0] == s[0]);
        crate::protocol::lemma_first_crlf(s, 1);
        crate::protocol::lemma_first_crlf(p, 1);
        match first_crlf(p, 1) {
            Some(m) => {
                assert(crlf_at(s, m));
                assert(m + 1 < j);
            },
            None => {},
        }
    }
}

} // verus!
