//! RESP request decoding: the `Value` data type, its ghost model, a total
//! specification-level parser for the wire grammar, and the executable
//! `RespParser` proved to follow it.
//!
//! The grammar accepted on input has three frame kinds: simple strings
//! (`+payload\r\n`), bulk strings (`$len\r\npayload\r\n`, with `$-1\r\n` as
//! the null sentinel), and arrays (`*n\r\n` followed by `n` frames). A buffer
//! that ends before a frame completes is reported as incomplete with the
//! cursor unchanged; anything else that does not fit the grammar is reported
//! as malformed.

use vstd::prelude::*;

use crate::ascii::{all_digits, digits_to_nat, parse_u64, CR, DOLLAR, LF, MINUS, ONE, PLUS, STAR};

verus! {

broadcast use
    vstd::std_specs::vec::axiom_vec_index_decreases,
    vstd::std_specs::vec::axiom_vec_decreases_to_view,
    vstd::seq::axiom_seq_index_decreases;

/// A value of the RESP wire protocol: a byte string or an array of nested
/// values.
#[derive(Debug, PartialEq, Eq)]
pub enum Value {
    String(Vec<u8>),
    Array(Vec<Value>),
}

/// Ghost model of a RESP value, over mathematical sequences.
pub enum RespData {
    Str(Seq<u8>),
    Arr(Seq<RespData>),
}

impl Value {
    /// The ghost model of this value.
    pub open spec fn model(self) -> RespData
        decreases self,
    {
        match self {
            Value::String(b) => RespData::Str(b@),
            Value::Array(items) => RespData::Arr(Value::model_list(items@)),
        }
    }

    /// The ghost models of a sequence of values, element by element.
    pub open spec fn model_list(items: Seq<Value>) -> Seq<RespData>
        decreases items,
    {
        if items.len() == 0 {
            Seq::empty()
        } else {
            Value::model_list(items.drop_last()).push(items.last().model())
        }
    }
}

/// `model_list` is the pointwise map of `model`.
pub proof fn lemma_model_list(items: Seq<Value>)
    ensures
        Value::model_list(items).len() == items.len(),
        forall|i: int|
            0 <= i < items.len() ==> #[trigger] Value::model_list(items)[i] == items[i].model(),
    decreases items,
{
    if items.len() > 0 {
        lemma_model_list(items.drop_last());
    }
}

/// A CRLF pair starts at index `i` of `s`.
pub open spec fn crlf_at(s: Seq<u8>, i: int) -> bool {
    0 <= i && i + 2 <= s.len() && s[i] == CR && s[i + 1] == LF
}

/// The outcome of parsing one frame from the front of a buffer.
pub enum FrameOut {
    /// A complete frame denoting a value, and the bytes it occupies.
    Found(RespData, int),
    /// A complete null-bulk sentinel frame, and the bytes it occupies.
    FoundNull(int),
    /// The buffer ends before the frame is complete.
    Partial,
    /// The buffer does not follow the grammar.
    Bad,
}

/// The outcome of parsing `n` consecutive frames.
pub enum ElemsOut {
    Found(Seq<RespData>, int),
    Partial,
    Bad,
}

/// The line before the first CRLF of `s` is the null-bulk length marker `-1`.
pub open spec fn is_null_marker(line: Seq<u8>) -> bool {
    line.len() == 2 && line[0] == MINUS && line[1] == ONE
}

/// Parses one frame from the front of `s`.
pub open spec fn parse_frame(s: Seq<u8>) -> FrameOut
    decreases s.len(), 0int,
{
    if s.len() == 0 {
        FrameOut::Partial
    } else if s[0] == PLUS {
        match first_crlf(s.skip(1)) {
            Some(i) => FrameOut::Found(RespData::Str(s.skip(1).take(i)), 3 + i),
            None => FrameOut::Partial,
        }
    } else if s[0] == DOLLAR {
        match first_crlf(s.skip(1)) {
            Some(i) => {
                let line = s.skip(1).take(i);
                if is_null_marker(line) {
                    FrameOut::FoundNull(3 + i)
                } else if line.len() > 0 && all_digits(line) && digits_to_nat(line) <= u64::MAX {
                    let len = digits_to_nat(line) as int;
                    let header = 3 + i;
                    if s.len() < header + len + 2 {
                        FrameOut::Partial
                    } else if s[header + len] == CR && s[header + len + 1] == LF {
                        FrameOut::Found(
                            RespData::Str(s.subrange(header, header + len)),
                            header + len + 2,
                        )
                    } else {
                        FrameOut::Bad
                    }
                } else {
                    FrameOut::Bad
                }
            }
            None => FrameOut::Partial,
        }
    } else if s[0] == STAR {
        match first_crlf(s.skip(1)) {
            Some(i) => {
                let line = s.skip(1).take(i);
                if line.len() > 0 && all_digits(line) && digits_to_nat(line) <= u64::MAX {
                    let n = digits_to_nat(line);
                    let header = 3 + i;
                    if 0 <= i && header <= s.len() {
                        match parse_elems(s.skip(header), n) {
                            ElemsOut::Found(items, c) => FrameOut::Found(
                                RespData::Arr(items),
                                header + c,
                            ),
                            ElemsOut::Partial => FrameOut::Partial,
                            ElemsOut::Bad => FrameOut::Bad,
                        }
                    } else {
                        FrameOut::Bad
                    }
                } else {
                    FrameOut::Bad
                }
            }
            None => FrameOut::Partial,
        }
    } else {
        FrameOut::Bad
    }
}

/// Parses `n` consecutive frames from the front of `s`.
pub open spec fn parse_elems(s: Seq<u8>, n: nat) -> ElemsOut
    decreases s.len(), 1int,
{
    if n == 0 {
        ElemsOut::Found(Seq::empty(), 0)
    } else {
        match parse_frame(s) {
            FrameOut::Found(v, c) => {
                if 1 <= c && c <= s.len() {
                    match parse_elems(s.skip(c), (n - 1) as nat) {
                        ElemsOut::Found(rest, c2) => ElemsOut::Found(seq![v] + rest, c + c2),
                        ElemsOut::Partial => ElemsOut::Partial,
                        ElemsOut::Bad => ElemsOut::Bad,
                    }
                } else {
                    ElemsOut::Bad
                }
            }
            FrameOut::FoundNull(_) => ElemsOut::Bad,
            FrameOut::Partial => ElemsOut::Partial,
            FrameOut::Bad => ElemsOut::Bad,
        }
    }
}

/// Index of the first CRLF pair in `s`, if any.
pub open spec fn first_crlf(s: Seq<u8>) -> Option<int>
    decreases s.len(),
{
    if s.len() < 2 {
        None
    } else if s[0] == CR && s[1] == LF {
        Some(0)
    } else {
        match first_crlf(s.skip(1)) {
            Some(i) => Some(i + 1),
            None => None,
        }
    }
}

/// `first_crlf` finds the first CRLF pair and nothing earlier.
pub proof fn lemma_first_crlf(s: Seq<u8>)
    ensures
        match first_crlf(s) {
            Some(i) => crlf_at(s, i) && forall|j: int| 0 <= j < i ==> !crlf_at(s, j),
            None => forall|j: int| !crlf_at(s, j),
        },
    decreases s.len(),
{
    if s.len() < 2 {
    } else if s[0] == CR && s[1] == LF {
    } else {
        lemma_first_crlf(s.skip(1));
        assert(forall|j: int| 1 <= j ==> crlf_at(s, j) == crlf_at(s.skip(1), j - 1));
        assert(!crlf_at(s, 0));
    }
}

/// Every complete frame occupies at least one byte and fits in the buffer,
/// and `n` parsed elements are `n` models.
pub proof fn lemma_parse_frame_wf(s: Seq<u8>)
    ensures
        parse_frame(s) matches FrameOut::Found(_, c) ==> 1 <= c <= s.len(),
        parse_frame(s) matches FrameOut::FoundNull(c) ==> 1 <= c <= s.len(),
    decreases s.len(), 0int,
{
    if s.len() == 0 {
    } else if s[0] == PLUS || s[0] == DOLLAR {
        match first_crlf(s.skip(1)) {
            Some(i) => {
                lemma_first_crlf(s.skip(1));
                assert(crlf_at(s.skip(1), i));
            }
            None => {}
        }
    } else if s[0] == STAR {
        match first_crlf(s.skip(1)) {
            Some(i) => {
                lemma_first_crlf(s.skip(1));
                assert(crlf_at(s.skip(1), i));
                let line = s.skip(1).take(i);
                if line.len() > 0 && all_digits(line) {
                    let header = 3 + i;
                    if header <= s.len() {
                        lemma_parse_elems_wf(s.skip(header), digits_to_nat(line));
                    }
                }
            }
            None => {}
        }
    } else {
    }
}

pub proof fn lemma_parse_elems_wf(s: Seq<u8>, n: nat)
    ensures
        parse_elems(s, n) matches ElemsOut::Found(items, c) ==> 0 <= c <= s.len() && items.len()
            == n,
    decreases s.len(), 1int,
{
    if n > 0 {
        lemma_parse_frame_wf(s);
        match parse_frame(s) {
            FrameOut::Found(v, c) => {
                if 1 <= c && c <= s.len() {
                    lemma_parse_elems_wf(s.skip(c), (n - 1) as nat);
                }
            }
            _ => {}
        }
    }
}

/// Glues a parsed prefix of elements onto the outcome for the remaining ones.
pub open spec fn elems_combine(items: Seq<RespData>, c: int, o: ElemsOut) -> ElemsOut {
    match o {
        ElemsOut::Found(rest, c2) => ElemsOut::Found(items + rest, c + c2),
        ElemsOut::Partial => ElemsOut::Partial,
        ElemsOut::Bad => ElemsOut::Bad,
    }
}

/// What the decoder reports for the front of a buffer.
pub enum DecodeOutcome {
    /// A complete frame denoting this value.
    Complete(Value),
    /// A complete `$-1\r\n` null-bulk frame, which denotes no value.
    NullFrame,
    /// The buffer ends before the frame completes; read more bytes.
    Incomplete,
    /// The buffer does not follow the grammar.
    Malformed,
}

/// An incremental decoder over a byte buffer.
pub struct RespParser<'a> {
    buf: &'a [u8],
    pos: usize,
}

impl<'a> RespParser<'a> {
    /// The whole buffer.
    pub closed spec fn sbuf(self) -> Seq<u8> {
        self.buf@
    }

    /// The cursor.
    pub closed spec fn spos(self) -> int {
        self.pos as int
    }

    pub open spec fn wf(self) -> bool {
        0 <= self.spos() <= self.sbuf().len()
    }

    /// The bytes not yet consumed.
    pub open spec fn rem(self) -> Seq<u8> {
        self.sbuf().skip(self.spos())
    }

    pub fn new(buf: &'a [u8]) -> (r: Self)
        ensures
            r.sbuf() == buf@,
            r.spos() == 0,
            r.wf(),
    {
        RespParser { buf, pos: 0 }
    }

    /// Scans for the first CRLF pair at or after the cursor. On success the
    /// returned slice is the line before it and the cursor moves past the
    /// CRLF; otherwise the cursor is unchanged.
    fn until_crlf(&mut self) -> (r: Option<&'a [u8]>)
        requires
            old(self).wf(),
        ensures
            final(self).sbuf() == old(self).sbuf(),
            final(self).wf(),
            match r {
                Some(line) => {
                    &&& first_crlf(old(self).rem()) == Some(line@.len() as int)
                    &&& line@ == old(self).rem().take(line@.len() as int)
                    &&& final(self).spos() == old(self).spos() + line@.len() + 2
                },
                None => {
                    &&& first_crlf(old(self).rem()) is None
                    &&& final(self).spos() == old(self).spos()
                },
            },
    {
        let buf = self.buf;
        let start = self.pos;
        let mut k: usize = start;
        while k < buf.len() && k + 1 < buf.len()
            invariant
                start <= k,
                start <= buf@.len(),
                buf@ == old(self).sbuf(),
                start == old(self).spos(),
                self.sbuf() == old(self).sbuf(),
                self.spos() == old(self).spos(),
                k <= buf@.len(),
                forall|j: int| 0 <= j < k - start ==> !crlf_at(old(self).rem(), j),
            decreases buf@.len() - k,
        {
            if buf[k] == CR && buf[k + 1] == LF {
                proof {
                    lemma_first_crlf(old(self).rem());
                    assert(old(self).rem()[k - start] == buf@[k as int]);
                    assert(old(self).rem()[k - start + 1] == buf@[k + 1]);
                    assert(crlf_at(old(self).rem(), k - start));
                    assert(first_crlf(old(self).rem()) == Some(k - start));
                }
                let line = &buf[start..k];
                self.pos = k + 2;
                proof {
                    assert(line@ =~= old(self).rem().take(k - start));
                }
                return Some(line);
            }
            proof {
                assert(!crlf_at(old(self).rem(), k - start));
            }
            k = k + 1;
        }
        proof {
            lemma_first_crlf(old(self).rem());
            assert(forall|j: int| #![auto] j >= k - start ==> !crlf_at(old(self).rem(), j));
            assert(first_crlf(old(self).rem()) is None);
        }
        None
    }

    /// Decodes one frame starting at the cursor. On `Complete` and
    /// `NullFrame` the cursor moves past the frame; otherwise it is restored.
    fn parse_value(&mut self) -> (r: DecodeOutcome)
        requires
            old(self).wf(),
        ensures
            final(self).sbuf() == old(self).sbuf(),
            final(self).wf(),
            final(self).spos() >= old(self).spos(),
            match r {
                DecodeOutcome::Complete(v) => parse_frame(old(self).rem()) == FrameOut::Found(
                    v.model(),
                    final(self).spos() - old(self).spos(),
                ),
                DecodeOutcome::NullFrame => parse_frame(old(self).rem()) == FrameOut::FoundNull(
                    final(self).spos() - old(self).spos(),
                ),
                DecodeOutcome::Incomplete => (parse_frame(old(self).rem()) is Partial)
                    && final(self).spos() == old(self).spos(),
                DecodeOutcome::Malformed => (parse_frame(old(self).rem()) is Bad)
                    && final(self).spos() == old(self).spos(),
            },
        decreases old(self).sbuf().len() - old(self).spos(), 0int,
    {
        let ghost rem0 = old(self).rem();
        let start = self.pos;
        if self.pos >= self.buf.len() {
            proof {
                assert(rem0.len() == 0);
            }
            return DecodeOutcome::Incomplete;
        }
        let b = self.buf[self.pos];
        proof {
            assert(rem0[0] == b);
        }
        self.pos = self.pos + 1;
        proof {
            assert(self.rem() =~= rem0.skip(1));
        }
        if b == PLUS {
            match self.until_crlf() {
                Some(line) => {
                    let v = Value::String(crate::ascii::copy_bytes(line));
                    proof {
                        assert(v.model() == RespData::Str(rem0.skip(1).take(line@.len() as int)));
                    }
                    DecodeOutcome::Complete(v)
                }
                None => {
                    self.pos = start;
                    DecodeOutcome::Incomplete
                }
            }
        } else if b == DOLLAR {
            match self.until_crlf() {
                Some(line) => {
                    let ghost i = line@.len() as int;
                    if line.len() == 2 && line[0] == MINUS && line[1] == ONE {
                        proof {
                            assert(is_null_marker(rem0.skip(1).take(i)));
                        }
                        DecodeOutcome::NullFrame
                    } else {
                        match parse_u64(line) {
                            Some(len) => {
                                let avail: u64 = (self.buf.len() - self.pos) as u64;
                                if avail < len || avail - len < 2 {
                                    self.pos = start;
                                    proof {
                                        assert(rem0.len() < 3 + i + len + 2);
                                    }
                                    DecodeOutcome::Incomplete
                                } else {
                                    let len_us = len as usize;
                                    let payload_start = self.pos;
                                    let payload_end = self.pos + len_us;
                                    if self.buf[payload_end] == CR && self.buf[payload_end + 1]
                                        == LF {
                                        let v = Value::String(
                                            crate::ascii::copy_bytes(
                                                &self.buf[payload_start..payload_end],
                                            ),
                                        );
                                        self.pos = payload_end + 2;
                                        proof {
                                            assert(rem0[3 + i + len] == CR);
                                            assert(rem0[3 + i + len + 1] == LF);
                                            assert(v.model() == RespData::Str(
                                                rem0.subrange(3 + i, 3 + i + len),
                                            )) by {
                                                assert(self.sbuf().subrange(
                                                    payload_start as int,
                                                    payload_end as int,
                                                ) =~= rem0.subrange(3 + i, 3 + i + len));
                                            }
                                        }
                                        DecodeOutcome::Complete(v)
                                    } else {
                                        proof {
                                            assert(rem0[3 + i + len] != CR || rem0[3 + i + len
                                                + 1] != LF);
                                        }
                                        self.pos = start;
                                        DecodeOutcome::Malformed
                                    }
                                }
                            }
                            None => {
                                self.pos = start;
                                DecodeOutcome::Malformed
                            }
                        }
                    }
                }
                None => {
                    self.pos = start;
                    DecodeOutcome::Incomplete
                }
            }
        } else if b == STAR {
            match self.until_crlf() {
                Some(line) => {
                    let ghost i = line@.len() as int;
                    match parse_u64(line) {
                        Some(n) => {
                            proof {
                                lemma_first_crlf(rem0.skip(1));
                                assert(crlf_at(rem0.skip(1), i));
                                assert(3 + i <= rem0.len());
                                assert(self.rem() =~= rem0.skip(3 + i));
                            }
                            match self.parse_array(n, Ghost(rem0), Ghost(start as int)) {
                                DecodeOutcome::Complete(v) => DecodeOutcome::Complete(v),
                                DecodeOutcome::NullFrame => {
                                    proof {
                                        assert(false);
                                    }
                                    DecodeOutcome::Malformed
                                }
                                DecodeOutcome::Incomplete => {
                                    self.pos = start;
                                    DecodeOutcome::Incomplete
                                }
                                DecodeOutcome::Malformed => {
                                    self.pos = start;
                                    DecodeOutcome::Malformed
                                }
                            }
                        }
                        None => {
                            self.pos = start;
                            DecodeOutcome::Malformed
                        }
                    }
                }
                None => {
                    self.pos = start;
                    DecodeOutcome::Incomplete
                }
            }
        } else {
            self.pos = start;
            DecodeOutcome::Malformed
        }
    }

    /// Decodes the `n` elements of an array frame whose header has just been
    /// consumed. `rem0` is the unconsumed input at the frame start `start`.
    fn parse_array(&mut self, n: u64, Ghost(rem0): Ghost<Seq<u8>>, Ghost(start): Ghost<int>) -> (r:
        DecodeOutcome)
        requires
            old(self).wf(),
            0 <= start <= old(self).spos(),
            rem0 == old(self).sbuf().skip(start),
            parse_frame(rem0) == (match parse_elems(old(self).rem(), n as nat) {
                ElemsOut::Found(items, c) => FrameOut::Found(
                    RespData::Arr(items),
                    old(self).spos() - start + c,
                ),
                ElemsOut::Partial => FrameOut::Partial,
                ElemsOut::Bad => FrameOut::Bad,
            }),
        ensures
            final(self).sbuf() == old(self).sbuf(),
            final(self).wf(),
            final(self).spos() >= old(self).spos(),
            match r {
                DecodeOutcome::Complete(v) => parse_frame(rem0) == FrameOut::Found(
                    v.model(),
                    final(self).spos() - start,
                ),
                DecodeOutcome::NullFrame => false,
                DecodeOutcome::Incomplete => parse_frame(rem0) is Partial,
                DecodeOutcome::Malformed => parse_frame(rem0) is Bad,
            },
        decreases old(self).sbuf().len() - old(self).spos(), 1int,
    {
        let ghost pos_h = old(self).spos();
        let ghost rem_h = old(self).rem();
        let mut arr: Vec<Value> = Vec::new();
        let mut k: u64 = 0;
        proof {
            assert(elems_combine(
                Value::model_list(arr@),
                0,
                parse_elems(rem_h, (n - k) as nat),
            ) == parse_elems(rem_h, n as nat)) by {
                match parse_elems(rem_h, n as nat) {
                    ElemsOut::Found(rest, c2) => {
                        assert(Value::model_list(arr@) + rest =~= rest);
                    }
                    _ => {}
                }
            }
        }
        while k < n
            invariant
                self.wf(),
                self.sbuf() == old(self).sbuf(),
                pos_h == old(self).spos(),
                pos_h <= self.spos(),
                0 <= start <= pos_h,
                0 <= k <= n,
                rem_h == old(self).sbuf().skip(pos_h),
                rem0 == old(self).sbuf().skip(start),
                parse_frame(rem0) == (match parse_elems(rem_h, n as nat) {
                    ElemsOut::Found(items, c) => FrameOut::Found(
                        RespData::Arr(items),
                        pos_h - start + c,
                    ),
                    ElemsOut::Partial => FrameOut::Partial,
                    ElemsOut::Bad => FrameOut::Bad,
                }),
                parse_elems(rem_h, n as nat) == elems_combine(
                    Value::model_list(arr@),
                    self.spos() - pos_h,
                    parse_elems(self.rem(), (n - k) as nat),
                ),
            decreases n - k,
        {
            let ghost rem_k = self.rem();
            let ghost pos_k = self.spos();
            let ghost arr_models = Value::model_list(arr@);
            let out = self.parse_value();
            match out {
                DecodeOutcome::Complete(v) => {
                    proof {
                        lemma_parse_frame_wf(rem_k);
                        let c = self.spos() - pos_k;
                        assert(rem_k.skip(c) =~= self.rem());
                        assert(parse_elems(rem_k, (n - k) as nat) == elems_combine(
                            seq![v.model()],
                            c,
                            parse_elems(self.rem(), (n - k - 1) as nat),
                        ));
                        assert(elems_combine(
                            arr_models,
                            pos_k - pos_h,
                            elems_combine(
                                seq![v.model()],
                                c,
                                parse_elems(self.rem(), (n - k - 1) as nat),
                            ),
                        ) == elems_combine(
                            arr_models.push(v.model()),
                            self.spos() - pos_h,
                            parse_elems(self.rem(), (n - k - 1) as nat),
                        )) by {
                            match parse_elems(self.rem(), (n - k - 1) as nat) {
                                ElemsOut::Found(rest, c2) => {
                                    assert(arr_models + (seq![v.model()] + rest)
                                        =~= arr_models.push(v.model()) + rest);
                                }
                                _ => {}
                            }
                        }
                    }
                    let ghost arr_before = arr@;
                    arr.push(v);
                    proof {
                        assert(arr@.drop_last() =~= arr_before);
                        assert(Value::model_list(arr@) == arr_models.push(arr@.last().model()));
                    }
                    k = k + 1;
                }
                DecodeOutcome::NullFrame => {
                    return DecodeOutcome::Malformed;
                }
                DecodeOutcome::Incomplete => {
                    return DecodeOutcome::Incomplete;
                }
                DecodeOutcome::Malformed => {
                    return DecodeOutcome::Malformed;
                }
            }
        }
        proof {
            assert(parse_elems(self.rem(), 0) == ElemsOut::Found(Seq::<RespData>::empty(), 0));
            assert(Value::model_list(arr@) + Seq::<RespData>::empty() =~= Value::model_list(
                arr@,
            ));
            assert(parse_elems(rem_h, n as nat) == ElemsOut::Found(
                Value::model_list(arr@),
                self.spos() - pos_h,
            ));
        }
        DecodeOutcome::Complete(Value::Array(arr))
    }

    /// Decodes the first frame at the cursor, as the connection handler
    /// consumes it: the decoded value, or `None` for a null, incomplete or
    /// malformed frame, together with the cursor after the attempt.
    pub fn parse(&mut self) -> (r: (Option<Value>, usize))
        requires
            old(self).wf(),
        ensures
            final(self).sbuf() == old(self).sbuf(),
            final(self).wf(),
            r.1 == final(self).spos(),
            match r.0 {
                Some(v) => parse_frame(old(self).rem()) == FrameOut::Found(
                    v.model(),
                    final(self).spos() - old(self).spos(),
                ),
                None => !(parse_frame(old(self).rem()) is Found),
            },
    {
        match self.parse_value() {
            DecodeOutcome::Complete(v) => {
                let p = self.pos;
                (Some(v), p)
            }
            _ => {
                let p = self.pos;
                (None, p)
            }
        }
    }
}

/// Decodes one frame from the front of `buf`, returning the outcome and the
/// number of bytes consumed (zero unless a complete frame was found).
pub fn decode_frame(buf: &[u8]) -> (r: (DecodeOutcome, usize))
    ensures
        match r.0 {
            DecodeOutcome::Complete(v) => parse_frame(buf@) == FrameOut::Found(
                v.model(),
                r.1 as int,
            ),
            DecodeOutcome::NullFrame => parse_frame(buf@) == FrameOut::FoundNull(r.1 as int),
            DecodeOutcome::Incomplete => (parse_frame(buf@) is Partial) && r.1 == 0,
            DecodeOutcome::Malformed => (parse_frame(buf@) is Bad) && r.1 == 0,
        },
{
    let mut p = RespParser::new(buf);
    proof {
        assert(p.rem() =~= buf@);
    }
    let out = p.parse_value();
    let consumed = p.pos;
    (out, consumed)
}

} // verus!
