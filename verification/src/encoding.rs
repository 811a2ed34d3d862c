//! Reply framing: the byte-exact encodings of the four reply shapes (simple
//! string, bulk string, null bulk, array of bulks) and of the error reply,
//! together with the round-trip law: decoding an encoded value yields the
//! value back.

use vstd::prelude::*;

use crate::ascii::{
    all_digits, dec_digits, digits_to_nat, is_digit, lemma_dec_digits, push_decimal, CR, DOLLAR,
    LF, MINUS, ONE, PLUS, STAR,
};
use crate::response::{
    crlf_at, first_crlf, is_null_marker, lemma_first_crlf, lemma_parse_frame_wf, parse_elems,
    parse_frame, ElemsOut, FrameOut, RespData, Value,
};

verus! {

broadcast use
    vstd::std_specs::vec::axiom_vec_index_decreases,
    vstd::std_specs::vec::axiom_vec_decreases_to_view,
    vstd::seq::axiom_seq_index_decreases;

pub open spec fn crlf() -> Seq<u8> {
    seq![CR, LF]
}

/// `+payload\r\n`
pub open spec fn simple_string_bytes(payload: Seq<u8>) -> Seq<u8> {
    seq![PLUS] + payload + crlf()
}

/// `$len\r\npayload\r\n`
pub open spec fn bulk_bytes(payload: Seq<u8>) -> Seq<u8> {
    seq![DOLLAR] + dec_digits(payload.len()) + crlf() + payload + crlf()
}

/// `$-1\r\n`
pub open spec fn null_bulk_bytes() -> Seq<u8> {
    seq![DOLLAR, MINUS, ONE, CR, LF]
}

/// The canonical encoding of a value: strings as bulk strings, arrays as
/// `*n\r\n` followed by the encodings of the elements.
pub open spec fn encoded(d: RespData) -> Seq<u8>
    decreases d, 0int,
{
    match d {
        RespData::Str(b) => bulk_bytes(b),
        RespData::Arr(items) => seq![STAR] + dec_digits(items.len()) + crlf() + encoded_list(
            items,
        ),
    }
}

/// The concatenated encodings of a sequence of values.
pub open spec fn encoded_list(items: Seq<RespData>) -> Seq<u8>
    decreases items, 1int,
{
    if items.len() == 0 {
        Seq::empty()
    } else {
        encoded(items.first()) + encoded_list(items.drop_first())
    }
}

/// The views of a list of byte vectors.
pub open spec fn views_of(list: Seq<Vec<u8>>) -> Seq<Seq<u8>> {
    Seq::new(list.len(), |i: int| list[i]@)
}

/// `*n\r\n` followed by `n` bulk strings.
pub open spec fn bulk_list_bytes(items: Seq<Seq<u8>>) -> Seq<u8> {
    seq![STAR] + dec_digits(items.len()) + crlf() + bulk_concat(items)
}

pub open spec fn bulk_concat(items: Seq<Seq<u8>>) -> Seq<u8>
    decreases items.len(),
{
    if items.len() == 0 {
        Seq::empty()
    } else {
        bulk_concat(items.drop_last()) + bulk_bytes(items.last())
    }
}

/// `-ERR unknown command\r\n`
pub open spec fn err_unknown_bytes() -> Seq<u8> {
    seq![MINUS, 69u8, 82, 82, 32, 117, 110, 107, 110, 111, 119, 110, 32, 99, 111, 109, 109, 97,
        110, 100, CR, LF]
}

/// Appends a byte slice onto the end of a vector.
pub fn push_bytes(out: &mut Vec<u8>, s: &[u8])
    ensures
        final(out)@ == old(out)@ + s@,
{
    let mut i: usize = 0;
    while i < s.len()
        invariant
            0 <= i <= s@.len(),
            out@ =~= old(out)@ + s@.take(i as int),
        decreases s@.len() - i,
    {
        out.push(s[i]);
        assert(out@ =~= old(out)@ + s@.take(i + 1));
        i = i + 1;
    }
    assert(out@ =~= old(out)@ + s@);
}

/// Frames a payload as a bulk string reply.
pub fn to_bulk_string(s: &[u8]) -> (r: Vec<u8>)
    ensures
        r@ == bulk_bytes(s@),
{
    let mut out: Vec<u8> = Vec::new();
    out.push(DOLLAR);
    push_decimal(&mut out, s.len() as u64);
    out.push(CR);
    out.push(LF);
    push_bytes(&mut out, s);
    out.push(CR);
    out.push(LF);
    assert(out@ =~= bulk_bytes(s@));
    out
}

/// Frames a list of payloads as an array of bulk strings.
pub fn to_list_of_bulk_strings(list: &Vec<Vec<u8>>) -> (r: Vec<u8>)
    ensures
        r@ == bulk_list_bytes(views_of(list@)),
{
    let mut out: Vec<u8> = Vec::new();
    out.push(STAR);
    push_decimal(&mut out, list.len() as u64);
    out.push(CR);
    out.push(LF);
    let ghost head = out@;
    let mut i: usize = 0;
    while i < list.len()
        invariant
            0 <= i <= list@.len(),
            head == seq![STAR] + dec_digits(list@.len() as nat) + crlf(),
            out@ == head + bulk_concat(views_of(list@).take(i as int)),
        decreases list@.len() - i,
    {
        let bulk = to_bulk_string(list[i].as_slice());
        push_bytes(&mut out, bulk.as_slice());
        proof {
            assert(views_of(list@).take(i + 1).drop_last() =~= views_of(list@).take(i as int));
            assert(views_of(list@).take(i + 1).last() == list@[i as int]@);
            assert(out@ =~= head + bulk_concat(views_of(list@).take(i + 1)));
        }
        i = i + 1;
    }
    proof {
        assert(views_of(list@).take(i as int) =~= views_of(list@));
        assert(out@ =~= bulk_list_bytes(views_of(list@)));
    }
    out
}

/// Frames a payload as a simple string reply.
pub fn encode_response_as_simple_string(response: &[u8]) -> (r: Vec<u8>)
    ensures
        r@ == simple_string_bytes(response@),
{
    let mut buffer: Vec<u8> = Vec::new();
    buffer.push(PLUS);
    push_bytes(&mut buffer, response);
    buffer.push(CR);
    buffer.push(LF);
    assert(buffer@ =~= simple_string_bytes(response@));
    buffer
}

/// The null-bulk reply `$-1\r\n`.
pub fn null_bulk() -> (r: Vec<u8>)
    ensures
        r@ == null_bulk_bytes(),
{
    let mut out: Vec<u8> = Vec::new();
    out.push(DOLLAR);
    out.push(MINUS);
    out.push(ONE);
    out.push(CR);
    out.push(LF);
    assert(out@ =~= null_bulk_bytes());
    out
}

/// The error reply `-ERR unknown command\r\n`.
pub fn err_unknown() -> (r: Vec<u8>)
    ensures
        r@ == err_unknown_bytes(),
{
    let mut out: Vec<u8> = Vec::new();
    out.push(MINUS);
    out.push(69);
    out.push(82);
    out.push(82);
    out.push(32);
    out.push(117);
    out.push(110);
    out.push(107);
    out.push(110);
    out.push(111);
    out.push(119);
    out.push(110);
    out.push(32);
    out.push(99);
    out.push(111);
    out.push(109);
    out.push(109);
    out.push(97);
    out.push(110);
    out.push(100);
    out.push(CR);
    out.push(LF);
    assert(out@ =~= err_unknown_bytes());
    out
}

/// A value that the wire can carry: every string and array length fits an
/// unsigned 64-bit integer. Every value built by the decoder satisfies this.
pub open spec fn fits(d: RespData) -> bool
    decreases d, 0int,
{
    match d {
        RespData::Str(b) => b.len() <= u64::MAX,
        RespData::Arr(items) => items.len() <= u64::MAX && fits_list(items),
    }
}

pub open spec fn fits_list(items: Seq<RespData>) -> bool
    decreases items, 1int,
{
    items.len() == 0 || (fits(items.first()) && fits_list(items.drop_first()))
}

/// The model of any in-memory value fits the wire.
pub proof fn lemma_value_fits(v: Value)
    ensures
        fits(v.model()),
    decreases v, 0int,
{
    match v {
        Value::String(b) => {
            vstd::std_specs::vec::axiom_spec_len(&b);
        }
        Value::Array(items) => {
            vstd::std_specs::vec::axiom_spec_len(&items);
            lemma_list_fits(items@);
            crate::response::lemma_model_list(items@);
        }
    }
}

/// Appending a value to a list appends its encoding.
pub proof fn lemma_encoded_list_snoc(ms: Seq<RespData>, x: RespData)
    ensures
        encoded_list(ms.push(x)) == encoded_list(ms) + encoded(x),
    decreases ms,
{
    if ms.len() == 0 {
        assert(ms.push(x).drop_first() =~= Seq::<RespData>::empty());
        assert(ms.push(x).first() == x);
        assert(encoded_list(Seq::<RespData>::empty()) =~= Seq::<u8>::empty());
        assert(encoded_list(ms.push(x)) =~= encoded(x));
        assert(encoded_list(ms) + encoded(x) =~= encoded(x));
    } else {
        assert(ms.push(x).drop_first() =~= ms.drop_first().push(x));
        lemma_encoded_list_snoc(ms.drop_first(), x);
        assert(encoded_list(ms.push(x)) =~= encoded_list(ms) + encoded(x));
    }
}

/// Encodes a value canonically: strings as bulk strings, arrays as `*n\r\n`
/// followed by the encoded elements.
pub fn encode_value(v: &Value) -> (r: Vec<u8>)
    ensures
        r@ == encoded(v.model()),
    decreases v,
{
    match v {
        Value::String(b) => to_bulk_string(b.as_slice()),
        Value::Array(items) => {
            let ghost ms = Value::model_list(items@);
            proof {
                crate::response::lemma_model_list(items@);
            }
            let mut out: Vec<u8> = Vec::new();
            out.push(STAR);
            push_decimal(&mut out, items.len() as u64);
            out.push(CR);
            out.push(LF);
            let ghost head = out@;
            let mut i: usize = 0;
            proof {
                assert(ms.take(0) =~= Seq::<RespData>::empty());
                assert(out@ =~= head + encoded_list(ms.take(0)));
            }
            while i < items.len()
                invariant
                    *v == Value::Array(*items),
                    0 <= i <= items@.len(),
                    ms == Value::model_list(items@),
                    ms.len() == items@.len(),
                    forall|j: int| 0 <= j < items@.len() ==> #[trigger] ms[j] == items@[j].model(),
                    head == seq![STAR] + dec_digits(items@.len() as nat) + crlf(),
                    out@ == head + encoded_list(ms.take(i as int)),
                decreases items@.len() - i,
            {
                proof {
                    vstd::std_specs::vec::axiom_vec_index_decreases(*items, i as int);
                    assert(v->Array_0 == *items);
                    assert(decreases_to!(*v => v->Array_0));
                }
                let piece = encode_value(&items[i]);
                push_bytes(&mut out, piece.as_slice());
                proof {
                    assert(ms.take(i + 1) =~= ms.take(i as int).push(ms[i as int]));
                    lemma_encoded_list_snoc(ms.take(i as int), ms[i as int]);
                    assert(out@ =~= head + encoded_list(ms.take(i + 1)));
                }
                i = i + 1;
            }
            proof {
                assert(ms.take(i as int) =~= ms);
                assert(out@ =~= encoded(v.model()));
            }
            out
        }
    }
}

/// When a CRLF stands at `i` and none stands earlier, the scan finds it.
pub proof fn lemma_first_crlf_is(s: Seq<u8>, i: int)
    requires
        crlf_at(s, i),
        forall|j: int| 0 <= j < i ==> !crlf_at(s, j),
    ensures
        first_crlf(s) == Some(i),
{
    lemma_first_crlf(s);
    match first_crlf(s) {
        Some(i2) => {
            if i2 < i {
                assert(!crlf_at(s, i2));
            } else if i2 > i {
                assert(!crlf_at(s, i));
            }
        }
        None => {
            assert(!crlf_at(s, i));
        }
    }
}

/// Round trip for the data model: a frame encoding a value, followed by
/// anything, decodes to exactly that value, consuming exactly the frame.
pub proof fn lemma_round_trip(d: RespData, rest: Seq<u8>)
    requires
        fits(d),
    ensures
        parse_frame(encoded(d) + rest) == FrameOut::Found(d, encoded(d).len() as int),
    decreases d, 0int,
{
    let s = encoded(d) + rest;
    match d {
        RespData::Str(b) => {
            let dd = dec_digits(b.len());
            lemma_dec_digits(b.len());
            let i = dd.len() as int;
            let s1 = s.skip(1);
            assert(s1 =~= dd + crlf() + b + crlf() + rest);
            assert(s[0] == DOLLAR);
            assert forall|j: int| 0 <= j < i implies !crlf_at(s1, j) by {
                assert(is_digit(dd[j]));
                assert(s1[j] == dd[j]);
            }
            assert(s1[i] == CR && s1[i + 1] == LF);
            assert(crlf_at(s1, i));
            lemma_first_crlf_is(s1, i);
            let line = s1.take(i);
            assert(line =~= dd);
            assert(is_digit(dd[0]));
            assert(!is_null_marker(line));
            let header = 3 + i;
            let len = b.len() as int;
            assert(s.len() == header + len + 2 + rest.len());
            assert(s[header + len] == CR && s[header + len + 1] == LF) by {
                assert(s1[i + 2 + len] == CR && s1[i + 2 + len + 1] == LF);
            }
            assert(s.subrange(header, header + len) =~= b);
            assert(parse_frame(s) == FrameOut::Found(RespData::Str(b), header + len + 2));
            assert(encoded(d).len() == header + len + 2);
        }
        RespData::Arr(items) => {
            let dd = dec_digits(items.len());
            lemma_dec_digits(items.len());
            let i = dd.len() as int;
            let s1 = s.skip(1);
            assert(s1 =~= dd + crlf() + encoded_list(items) + rest);
            assert(s[0] == STAR);
            assert forall|j: int| 0 <= j < i implies !crlf_at(s1, j) by {
                assert(is_digit(dd[j]));
                assert(s1[j] == dd[j]);
            }
            assert(s1[i] == CR && s1[i + 1] == LF);
            assert(crlf_at(s1, i));
            lemma_first_crlf_is(s1, i);
            let line = s1.take(i);
            assert(line =~= dd);
            let header = 3 + i;
            assert(header <= s.len());
            assert(s.skip(header) =~= encoded_list(items) + rest);
            lemma_round_trip_list(items, rest);
            assert(parse_elems(s.skip(header), items.len()) == ElemsOut::Found(
                items,
                encoded_list(items).len() as int,
            ));
            assert(parse_frame(s) == FrameOut::Found(
                RespData::Arr(items),
                header + encoded_list(items).len(),
            ));
            assert(encoded(d).len() == header + encoded_list(items).len());
        }
    }
}

pub proof fn lemma_round_trip_list(items: Seq<RespData>, rest: Seq<u8>)
    requires
        fits_list(items),
    ensures
        parse_elems(encoded_list(items) + rest, items.len()) == ElemsOut::Found(
            items,
            encoded_list(items).len() as int,
        ),
    decreases items, 1int,
{
    let s = encoded_list(items) + rest;
    if items.len() == 0 {
        assert(parse_elems(s, 0) == ElemsOut::Found(Seq::<RespData>::empty(), 0));
        assert(Seq::<RespData>::empty() =~= items);
        assert(encoded_list(items).len() == 0);
    } else {
        let first = items.first();
        let tail = items.drop_first();
        let tail_rest = encoded_list(tail) + rest;
        assert(s =~= encoded(first) + tail_rest);
        lemma_round_trip(first, tail_rest);
        let c = encoded(first).len() as int;
        lemma_parse_frame_wf(s);
        assert(1 <= c <= s.len());
        assert(s.skip(c) =~= tail_rest);
        lemma_round_trip_list(tail, rest);
        assert(parse_elems(s.skip(c), (items.len() - 1) as nat) == ElemsOut::Found(
            tail,
            encoded_list(tail).len() as int,
        ));
        assert(seq![first] + tail =~= items);
        assert(parse_elems(s, items.len()) == ElemsOut::Found(
            items,
            c + encoded_list(tail).len(),
        ));
        assert(encoded_list(items).len() == c + encoded_list(tail).len());
    }
}

/// The round-trip law for in-memory values: decoding the encoding of any
/// value finds a value with the same model, consuming the whole encoding.
pub proof fn lemma_encode_decode(v: Value)
    ensures
        parse_frame(encoded(v.model())) == FrameOut::Found(
            v.model(),
            encoded(v.model()).len() as int,
        ),
{
    lemma_value_fits(v);
    lemma_round_trip(v.model(), Seq::empty());
    assert(encoded(v.model()) + Seq::<u8>::empty() =~= encoded(v.model()));
}

pub proof fn lemma_list_fits(items: Seq<Value>)
    ensures
        fits_list(Value::model_list(items)),
        Value::model_list(items).len() == items.len(),
    decreases items, 1int,
{
    crate::response::lemma_model_list(items);
    if items.len() > 0 {
        lemma_value_fits(items[0]);
        lemma_list_fits(items.drop_first());
        crate::response::lemma_model_list(items.drop_first());
        assert(Value::model_list(items).first() == items[0].model());
        assert(Value::model_list(items).drop_first() =~= Value::model_list(items.drop_first()))
            by {
            crate::response::lemma_model_list(items);
            crate::response::lemma_model_list(items.drop_first());
        }
    }
}

} // verus!
