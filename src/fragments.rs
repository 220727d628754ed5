//! What holds of feeding a stream in fragments: a recognizer or a transition that no longer
//! waits for input stays as it is whatever follows, and feeding in two calls hands over the
//! events of one.
use vstd::prelude::*;

use crate::lexer::{byte, in_class, literal, many0, many1, one_of, opt_byte, run_end, ByteClass, Cursor};
use crate::parser::{
    ends_message, initial_model, model_wf, opt_seq, prepend, rank, run, shift, shift_header, shift_request, shift_response, step,
    with_state, FeedResult, BodyTypeState, ChunkedState, Event, ExpectBody, ParserModel,
    ParserState, ParserType, Step,
};
use crate::parsers::{
    Span,
    chunk_header_spec, chunk_param_spec, chunk_params_spec, empty_line_spec, header_spec,
    quoted_end, request_line_spec, span_in, response_line_spec, value_scan, ChunkParam, Parsed,
};

verus! {

/// A run of a class that ends inside `s` ends at the same place in `s + t`.
proof fn lemma_run_end_stable(s: Seq<u8>, t: Seq<u8>, i: int, c: ByteClass)
    requires
        0 <= i <= s.len(),
    ensures
        i <= run_end(s, i, c) <= s.len(),
        run_end(s, i, c) < s.len() ==> run_end(s + t, i, c) == run_end(s, i, c),
    decreases s.len() - i,
{
    if i < s.len() {
        assert((s + t)[i] == s[i]);
        if in_class(c, s[i]) {
            lemma_run_end_stable(s, t, i + 1, c);
        }
    }
}

/// Zero or more bytes of a class, once followed by another byte, stay so whatever follows.
pub broadcast proof fn lemma_many0_stable(s: Seq<u8>, t: Seq<u8>, i: int, c: ByteClass)
    requires
        0 <= i <= s.len(),
        s.len() <= usize::MAX,
    ensures
        #![trigger many0(s + t, i, c)]
        many0(s, i, c) matches Cursor::At(e) ==> i <= e < s.len(),
        !(many0(s, i, c) is Incomplete) ==> many0(s + t, i, c) == many0(s, i, c),
{
    lemma_run_end_stable(s, t, i, c);
}

/// One or more bytes of a class, once followed by another byte, stay so whatever follows.
pub broadcast proof fn lemma_many1_stable(s: Seq<u8>, t: Seq<u8>, i: int, c: ByteClass)
    requires
        0 <= i <= s.len(),
        s.len() <= usize::MAX,
    ensures
        #![trigger many1(s + t, i, c)]
        many1(s, i, c) matches Cursor::At(e) ==> i < e < s.len(),
        !(many1(s, i, c) is Incomplete) ==> many1(s + t, i, c) == many1(s, i, c),
{
    lemma_run_end_stable(s, t, i, c);
}

/// A byte of a class, once there or refused, stays so whatever follows.
pub broadcast proof fn lemma_one_of_stable(s: Seq<u8>, t: Seq<u8>, i: int, c: ByteClass)
    requires
        0 <= i <= s.len(),
        s.len() <= usize::MAX,
    ensures
        #![trigger one_of(s + t, i, c)]
        one_of(s, i, c) matches Cursor::At(e) ==> e == i + 1 <= s.len(),
        !(one_of(s, i, c) is Incomplete) ==> one_of(s + t, i, c) == one_of(s, i, c),
{
    if i < s.len() {
        assert((s + t)[i] == s[i]);
    }
}

/// A given byte, once there or refused, stays so whatever follows.
pub broadcast proof fn lemma_byte_stable(s: Seq<u8>, t: Seq<u8>, i: int, b: u8)
    requires
        0 <= i <= s.len(),
        s.len() <= usize::MAX,
    ensures
        #![trigger byte(s + t, i, b)]
        byte(s, i, b) matches Cursor::At(e) ==> e == i + 1 <= s.len(),
        !(byte(s, i, b) is Incomplete) ==> byte(s + t, i, b) == byte(s, i, b),
{
    if i < s.len() {
        assert((s + t)[i] == s[i]);
    }
}

/// An optional byte, once seen or not, stays so whatever follows.
pub broadcast proof fn lemma_opt_byte_stable(s: Seq<u8>, t: Seq<u8>, i: int, b: u8)
    requires
        0 <= i <= s.len(),
        s.len() <= usize::MAX,
    ensures
        #![trigger opt_byte(s + t, i, b)]
        opt_byte(s, i, b) matches Cursor::At(e) ==> i <= e <= s.len(),
        !(opt_byte(s, i, b) is Incomplete) ==> opt_byte(s + t, i, b) == opt_byte(s, i, b),
{
    if i < s.len() {
        assert((s + t)[i] == s[i]);
    }
}

/// A literal, once matched or refused, stays so whatever follows.
pub broadcast proof fn lemma_literal_stable(s: Seq<u8>, t: Seq<u8>, i: int, pat: Seq<u8>)
    requires
        0 <= i <= s.len(),
        s.len() <= usize::MAX,
    ensures
        #![trigger literal(s + t, i, pat)]
        literal(s, i, pat) matches Cursor::At(e) ==> i <= e <= s.len(),
        !(literal(s, i, pat) is Incomplete) ==> literal(s + t, i, pat) == literal(s, i, pat),
{
    let n = if s.len() - i < pat.len() { s.len() - i } else { pat.len() as int };
    let u = s + t;
    let n2 = if u.len() - i < pat.len() { u.len() - i } else { pat.len() as int };
    if !(literal(s, i, pat) is Incomplete) {
        if s.subrange(i, i + n) != pat.subrange(0, n) {
            assert(!(s.subrange(i, i + n) =~= pat.subrange(0, n)));
            let k = choose|k: int| 0 <= k < n && s.subrange(i, i + n)[k] != pat.subrange(0, n)[k];
            assert(u.subrange(i, i + n2)[k] == s[i + k]);
            assert(u.subrange(i, i + n2)[k] != pat.subrange(0, n2)[k]);
        } else {
            assert(n == pat.len());
            assert(u.subrange(i, i + n2) =~= s.subrange(i, i + n));
        }
    }
}

/// The end of a header value, once found, stays where it is whatever follows.
pub broadcast proof fn lemma_value_scan_stable(s: Seq<u8>, t: Seq<u8>, j: int, end: int)
    requires
        0 <= end <= j,
        s.len() <= usize::MAX,
        !(value_scan(s, j, end) is Incomplete),
    ensures
        #[trigger] value_scan(s + t, j, end) == value_scan(s, j, end),
        value_scan(s, j, end) matches Parsed::Done(lf, e) ==> j <= lf < s.len() && end <= e <= lf,
    decreases s.len() - j,
{
    let u = s + t;
    if j < s.len() {
        assert(u[j] == s[j]);
        if s[j] == 10 {
            if j + 1 < s.len() {
                assert(u[j + 1] == s[j + 1]);
                if s[j + 1] == 32 || s[j + 1] == 9 {
                    lemma_value_scan_stable(s, t, j + 2, end);
                }
            }
        } else if s[j] == 32 || s[j] == 9 || s[j] == 13 {
            lemma_value_scan_stable(s, t, j + 1, end);
        } else {
            lemma_value_scan_stable(s, t, j + 1, j + 1);
        }
    }
}

/// The end of a quoted string, once found, stays where it is whatever follows.
pub broadcast proof fn lemma_quoted_end_stable(s: Seq<u8>, t: Seq<u8>, j: int)
    requires
        0 <= j,
        s.len() <= usize::MAX,
        !(quoted_end(s, j) is Incomplete),
    ensures
        #[trigger] quoted_end(s + t, j) == quoted_end(s, j),
        quoted_end(s, j) matches Cursor::At(q) ==> j <= q < s.len(),
    decreases s.len() - j,
{
    let u = s + t;
    if j < s.len() {
        assert(u[j] == s[j]);
        if s[j] == 92 {
            if j + 1 < s.len() {
                lemma_quoted_end_stable(s, t, j + 2);
            }
        } else if s[j] != 34 && crate::parsers::is_qdtext(s[j]) {
            lemma_quoted_end_stable(s, t, j + 1);
        }
    }
}

/// The recognizer parts that stay as they are once they no longer wait for input.
pub broadcast group group_cursor_stable {
    lemma_many0_stable,
    lemma_many1_stable,
    lemma_one_of_stable,
    lemma_byte_stable,
    lemma_opt_byte_stable,
    lemma_literal_stable,
    lemma_value_scan_stable,
    lemma_quoted_end_stable,
}

/// Whether a blank line is there, once known, does not change with what follows.
pub proof fn lemma_empty_line_stable(s: Seq<u8>, t: Seq<u8>)
    requires
        s.len() <= usize::MAX,
        !(empty_line_spec(s) is Incomplete),
    ensures
        empty_line_spec(s + t) == empty_line_spec(s),
        empty_line_spec(s) matches Parsed::Done(n, _) ==> 0 < n <= s.len(),
{
    reveal(empty_line_spec);
    broadcast use group_cursor_stable;
}

/// A request line, once recognized or refused, stays so whatever follows.
pub proof fn lemma_request_line_stable(s: Seq<u8>, t: Seq<u8>)
    requires
        s.len() <= usize::MAX,
        !(request_line_spec(s) is Incomplete),
    ensures
        request_line_spec(s + t) == request_line_spec(s),
        request_line_spec(s) matches Parsed::Done(n, l) ==> 0 < n <= s.len() && span_in(l.method, 0, n as int)
            && span_in(l.path, 0, n as int) && span_in(l.major, 0, n as int) && span_in(l.minor, 0, n as int),
{
    reveal(request_line_spec);
    broadcast use group_cursor_stable;
}

/// A status line, once recognized or refused, stays so whatever follows.
pub proof fn lemma_response_line_stable(s: Seq<u8>, t: Seq<u8>)
    requires
        s.len() <= usize::MAX,
        !(response_line_spec(s) is Incomplete),
    ensures
        response_line_spec(s + t) == response_line_spec(s),
        response_line_spec(s) matches Parsed::Done(n, l) ==> 0 < n <= s.len() && span_in(l.major, 0, n as int)
            && span_in(l.minor, 0, n as int) && span_in(l.phrase, 0, n as int),
{
    reveal(response_line_spec);
    broadcast use group_cursor_stable;
}

/// A header field, once recognized or refused, stays so whatever follows.
pub proof fn lemma_header_stable(s: Seq<u8>, t: Seq<u8>)
    requires
        s.len() <= usize::MAX,
        !(header_spec(s) is Incomplete),
    ensures
        header_spec(s + t) == header_spec(s),
        header_spec(s) matches Parsed::Done(n, h) ==> 0 < n <= s.len() && span_in(h.name, 0, n as int)
            && span_in(h.value, 0, n as int),
{
    reveal(header_spec);
    broadcast use group_cursor_stable;
}

/// A chunk parameter, once recognized or refused, stays so whatever follows.
proof fn lemma_chunk_param_stable(s: Seq<u8>, t: Seq<u8>, i: int)
    requires
        0 <= i <= s.len(),
        s.len() <= usize::MAX,
        !(chunk_param_spec(s, i) is Incomplete),
    ensures
        chunk_param_spec(s + t, i) == chunk_param_spec(s, i),
        chunk_param_spec(s, i) matches Parsed::Done(f, _) ==> i < f < s.len(),
{
    broadcast use group_cursor_stable;
    if i < s.len() {
        assert((s + t)[i] == s[i]);
    }
}

/// A list of chunk parameters, once ended or refused, stays so whatever follows.
proof fn lemma_chunk_params_stable(s: Seq<u8>, t: Seq<u8>, i: int, acc: Seq<ChunkParam>)
    requires
        0 <= i <= s.len(),
        s.len() <= usize::MAX,
        !(chunk_params_spec(s, i, acc) is Incomplete),
    ensures
        chunk_params_spec(s + t, i, acc) == chunk_params_spec(s, i, acc),
        chunk_params_spec(s, i, acc) matches Parsed::Done(k, _) ==> i <= k < s.len(),
    decreases s.len() - i,
{
    if i < s.len() {
        assert((s + t)[i] == s[i]);
        if s[i] == 59 {
            lemma_chunk_param_stable(s, t, i);
            if let Parsed::Done(f, p) = chunk_param_spec(s, i) {
                lemma_chunk_params_stable(s, t, f as int, acc.push(p));
            }
        }
    }
}

/// A chunk header, once recognized or refused, stays so whatever follows.
pub proof fn lemma_chunk_header_stable(s: Seq<u8>, t: Seq<u8>)
    requires
        s.len() <= usize::MAX,
        !(chunk_header_spec(s) is Incomplete),
    ensures
        chunk_header_spec(s + t) == chunk_header_spec(s),
        chunk_header_spec(s) matches Parsed::Done(n, _) ==> 0 < n <= s.len(),
{
    reveal(chunk_header_spec);
    broadcast use group_cursor_stable;
    if let Cursor::At(h) = many1(s, 0, ByteClass::HexDigit) {
        assert((s + t).subrange(0, h as int) =~= s.subrange(0, h as int));
        if let Cursor::At(p) = many0(s, h as int, ByteClass::Blank) {
            if crate::integer_decoder::hex_decode_spec(s.subrange(0, h as int)) is Ok {
                lemma_chunk_params_stable(s, t, p as int, seq![]);
            }
        }
    }
}

/// Outside body data, a transition that does not wait for more input is the same whatever
/// bytes follow the input: fragmenting a message cannot change a start line, a header, a
/// chunk header or a line end that has been read whole.
pub proof fn lemma_step_stable(m: ParserModel, s: Seq<u8>, t: Seq<u8>, pos: int, kind: ParserType, answer: ExpectBody)
    requires
        0 <= pos <= s.len(),
        s.len() <= usize::MAX,
        !(step(m, s, pos, kind, answer) is Stop),
        !(m.state matches ParserState::Body(BodyTypeState::Length(_))),
        !(m.state matches ParserState::Body(BodyTypeState::Chunked(ChunkedState::Data(_)))),
        m.state != ParserState::Body(BodyTypeState::EOF),
    ensures
        step(m, s + t, pos, kind, answer) == step(m, s, pos, kind, answer),
        step(m, s, pos, kind, answer) matches Step::Next(_, _, e) ==> !(e matches Some(Event::Chunk(_))),
{
    reveal(step);
    let u = s + t;
    let rest = s.subrange(pos, s.len() as int);
    assert(u.subrange(pos, u.len() as int) =~= rest + t);
    match m.state {
        ParserState::FirstLine => match kind {
            ParserType::Request => lemma_request_line_stable(rest, t),
            ParserType::Response => lemma_response_line_stable(rest, t),
        },
        ParserState::Headers => {
            lemma_header_stable(rest, t);
            if let Parsed::Done(n, h) = header_spec(rest) {
                assert((rest + t).subrange(h.name.start as int, h.name.end as int)
                    =~= rest.subrange(h.name.start as int, h.name.end as int));
                assert((rest + t).subrange(h.value.start as int, h.value.end as int)
                    =~= rest.subrange(h.value.start as int, h.value.end as int));
            }
        },
        ParserState::HeaderEnd => lemma_empty_line_stable(rest, t),
        ParserState::Body(BodyTypeState::Chunked(ChunkedState::Header)) => lemma_chunk_header_stable(rest, t),
        ParserState::Body(BodyTypeState::Chunked(ChunkedState::DataEnd)) => lemma_empty_line_stable(rest, t),
        _ => {},
    }
}

/// A run whose first transition waits for input emits nothing and does not fail.
proof fn lemma_run_ends_unsettled(m: ParserModel, s: Seq<u8>, pos: int, kind: ParserType, answer: ExpectBody)
    requires
        0 <= pos <= s.len(),
        step(m, s, pos, kind, answer) is Stop,
    ensures
        run(m, s, pos, kind, answer).result is Ok,
        run(m, s, pos, kind, answer).events == Seq::<Event>::empty(),
{
}

/// In a body phase at the end of the input, the parser waits for more.
proof fn lemma_body_waits_at_end(m: ParserModel, s: Seq<u8>, kind: ParserType, answer: ExpectBody)
    requires
        in_body_data(m),
    ensures
        step(m, s, s.len() as int, kind, answer) is Stop,
{
    reveal(step);
}

/// Once a fragment holds the end of a message, or an error, the bytes that follow it change
/// nothing of the run over it: the same events, the same state, the same bytes consumed.
pub proof fn lemma_run_settled(m: ParserModel, s: Seq<u8>, t: Seq<u8>, pos: int, kind: ParserType, answer: ExpectBody)
    requires
        0 <= pos <= s.len(),
        s.len() + t.len() <= usize::MAX,
        run(m, s, pos, kind, answer).result is Err || ends_message(run(m, s, pos, kind, answer).events),
    ensures
        run(m, s + t, pos, kind, answer) == run(m, s, pos, kind, answer),
    decreases s.len() - pos, rank(m.state),
{
    let u = s + t;
    let st = step(m, s, pos, kind, answer);
    if st is Stop {
        lemma_run_ends_unsettled(m, s, pos, kind, answer);
        return;
    }
    if let Step::Next(m2, next, e) = st {
        if in_body_data(m) && next == s.len() && in_body_data(m2) {
            lemma_body_step_moves(m, s, pos, kind, answer);
            lemma_body_waits_at_end(m2, s, kind, answer);
            lemma_run_ends_unsettled(m2, s, s.len() as int, kind, answer);
            assert(run(m, s, pos, kind, answer) == prepend(opt_seq(e), run(m2, s, next as int, kind, answer)));
            assert(false);
        }
    }
    if in_body_data(m) {
        lemma_body_step_moves(m, s, pos, kind, answer);
        lemma_body_step_stable(m, s, t, pos, kind, answer);
    } else {
        lemma_step_stable(m, s, t, pos, kind, answer);
    }
    assert(step(m, u, pos, kind, answer) == st);
    if let Step::Next(m2, next, e) = st {
        if e != Some(Event::End) && next <= s.len() && (next > pos || (next == pos && rank(m2.state) < rank(m.state))) {
            let r2 = run(m2, s, next as int, kind, answer);
            if ends_message(run(m, s, pos, kind, answer).events) && r2.events.len() == 0 {
                assert(run(m, s, pos, kind, answer).events =~= opt_seq(e));
            }
            if ends_message(run(m, s, pos, kind, answer).events) && r2.events.len() > 0 {
                assert(run(m, s, pos, kind, answer).events.last() == r2.events.last());
            }
            lemma_run_settled(m2, s, t, next as int, kind, answer);
        }
    }
}

/// The parser is reading body bytes that the input so far did not hold to their end.
pub open spec fn in_body_data(m: ParserModel) -> bool {
    ||| m.state matches ParserState::Body(BodyTypeState::Length(_))
    ||| m.state matches ParserState::Body(BodyTypeState::Chunked(ChunkedState::Data(_)))
    ||| m.state == ParserState::Body(BodyTypeState::EOF)
}

/// The events `e1` of a run that stopped at `k` in state `m1`, then the events `e2` of the run
/// that continues it from `k`: a body chunk cut at `k` is joined with its other part.
pub open spec fn splice(e1: Seq<Event>, m1: ParserModel, k: int, e2: Seq<Event>) -> Seq<Event> {
    if e1.len() > 0 && e2.len() > 0 && in_body_data(m1) && e1.last() is Chunk && e2[0] is Chunk
        && e1.last()->Chunk_0.end == k && e2[0]->Chunk_0.start == k {
        e1.drop_last().push(Event::Chunk(Span { start: e1.last()->Chunk_0.start, end: e2[0]->Chunk_0.end }))
            + e2.drop_first()
    } else {
        e1 + e2
    }
}

/// Events before a nonempty first part play no role in the join.
proof fn lemma_splice_prefix(a: Seq<Event>, b: Seq<Event>, m1: ParserModel, k: int, c: Seq<Event>)
    requires
        b.len() > 0,
    ensures
        splice(a + b, m1, k, c) == a + splice(b, m1, k, c),
{
    let ab = a + b;
    assert(ab.last() == b.last());
    if c.len() > 0 && in_body_data(m1) && b.last() is Chunk && c[0] is Chunk && b.last()->Chunk_0.end == k
        && c[0]->Chunk_0.start == k {
        assert(ab.drop_last() =~= a + b.drop_last());
        let x = Event::Chunk(Span { start: b.last()->Chunk_0.start, end: c[0]->Chunk_0.end });
        assert(ab.drop_last().push(x) + c.drop_first() =~= a + (b.drop_last().push(x) + c.drop_first()));
    } else {
        assert(ab + c =~= a + (b + c));
    }
}

/// A body transition on `s` that reads to the end of `s`, then what `s + t` gives from there,
/// is the transition that `s + t` gives, its chunk joined.
proof fn lemma_cut_chunk(m: ParserModel, s: Seq<u8>, t: Seq<u8>, pos: int, kind: ParserType, answer: ExpectBody)
    requires
        0 <= pos < s.len(),
        s.len() + t.len() <= usize::MAX,
        in_body_data(m),
        step(m, s, pos, kind, answer) matches Step::Next(m2, p, _) && p == s.len() && in_body_data(m2),
    ensures
        ({
            let r1 = run(m, s, pos, kind, answer);
            let r2 = run(r1.model, s + t, s.len() as int, kind, answer);
            &&& r1.result == Ok::<usize, crate::errors::HttpParserError>(s.len() as usize)
            &&& !ends_message(r1.events)
            &&& run(m, s + t, pos, kind, answer)
                == (FeedResult { result: r2.result, events: splice(r1.events, r1.model, s.len() as int, r2.events),
                    model: r2.model })
        }),
{
    reveal(step);
    let u = s + t;
    let r1 = run(m, s, pos, kind, answer);
    let m1 = r1.model;
    if let Step::Next(m2, p, e) = step(m, s, pos, kind, answer) {
        assert(step(m2, s, s.len() as int, kind, answer) is Stop);
        assert(e is Some);
        let tail = run(m2, s, s.len() as int, kind, answer);
        assert(tail == FeedResult { result: Ok::<usize, crate::errors::HttpParserError>(s.len() as usize),
            events: Seq::<Event>::empty(), model: m2 });
        assert(r1 == prepend(opt_seq(e), tail));
        assert(r1.events =~= seq![e->Some_0]);
        assert(m1 == m2);
        let r2 = run(m1, u, s.len() as int, kind, answer);
        if t.len() == 0 {
            assert(u =~= s);
            assert(step(m1, u, s.len() as int, kind, answer) is Stop);
            assert(r2.events =~= Seq::<Event>::empty());
            assert(splice(r1.events, m1, s.len() as int, r2.events) =~= r1.events);
        } else {
            match step(m, u, pos, kind, answer) {
                Step::Next(m3, next3, e3) => {
                    match step(m1, u, s.len() as int, kind, answer) {
                        Step::Next(m4, next4, e4) => {
                            assert(m3 == m4);
                            assert(next3 == next4);
                            let rest = run(m4, u, next4 as int, kind, answer);
                            assert(r2 == prepend(opt_seq(e4), rest));
                            assert(run(m, u, pos, kind, answer) == prepend(opt_seq(e3), rest));
                            let joined = splice(r1.events, m1, s.len() as int, r2.events);
                            assert(r2.events[0] == e4->Some_0);
                            assert(r2.events.drop_first() =~= rest.events);
                            assert(joined =~= opt_seq(e3) + rest.events);
                        },
                        _ => {},
                    }
                },
                _ => {},
            }
        }
    }
}

/// A body transition that does not wait reads at least one byte and hands it over.
proof fn lemma_body_step_moves(m: ParserModel, s: Seq<u8>, pos: int, kind: ParserType, answer: ExpectBody)
    requires
        0 <= pos <= s.len(),
        in_body_data(m),
        !(step(m, s, pos, kind, answer) is Stop),
    ensures
        pos < s.len(),
        step(m, s, pos, kind, answer) is Next,
        step(m, s, pos, kind, answer) matches Step::Next(_, _, e) ==> (e matches Some(Event::Chunk(_))),
{
    reveal(step);
}

/// A body transition that does not read to the end of `s` is the same on `s + t`.
proof fn lemma_body_step_stable(m: ParserModel, s: Seq<u8>, t: Seq<u8>, pos: int, kind: ParserType, answer: ExpectBody)
    requires
        0 <= pos <= s.len(),
        s.len() + t.len() <= usize::MAX,
        in_body_data(m),
        step(m, s, pos, kind, answer) matches Step::Next(m2, next, _) && !(next == s.len() && in_body_data(m2)),
    ensures
        step(m, s + t, pos, kind, answer) == step(m, s, pos, kind, answer),
{
    reveal(step);
}

/// A run never ends before the position it started from.
proof fn lemma_run_moves_on(m: ParserModel, s: Seq<u8>, pos: int, kind: ParserType, answer: ExpectBody)
    requires
        0 <= pos <= s.len(),
        s.len() <= usize::MAX,
    ensures
        run(m, s, pos, kind, answer).result matches Ok(k) ==> pos <= k,
    decreases s.len() - pos, rank(m.state),
{
    if let Step::Next(m2, next, e) = step(m, s, pos, kind, answer) {
        if e == Some(Event::End) {
            reveal(step);
        } else if next <= s.len() && (next > pos || (next == pos && rank(m2.state) < rank(m.state))) {
            lemma_run_moves_on(m2, s, next as int, kind, answer);
        }
    }
}

/// A run never ends past its input.
proof fn lemma_ok_within(m: ParserModel, s: Seq<u8>, pos: int, kind: ParserType, answer: ExpectBody)
    requires
        0 <= pos <= s.len(),
        s.len() <= usize::MAX,
    ensures
        run(m, s, pos, kind, answer).result matches Ok(k) ==> k <= s.len(),
    decreases s.len() - pos, rank(m.state),
{
    if let Step::Next(m2, next, e) = step(m, s, pos, kind, answer) {
        if e == Some(Event::End) {
            reveal(step);
        } else if next <= s.len() && (next > pos || (next == pos && rank(m2.state) < rank(m.state))) {
            lemma_ok_within(m2, s, next as int, kind, answer);
        }
    }
}

/// A chunk that a body transition hands over whole is never the part of a chunk cut where
/// the run stops.
proof fn lemma_full_chunk_not_cut(m: ParserModel, s: Seq<u8>, pos: int, kind: ParserType, answer: ExpectBody)
    requires
        0 <= pos <= s.len(),
        s.len() <= usize::MAX,
        in_body_data(m),
        step(m, s, pos, kind, answer) matches Step::Next(m2, next, e) && !(next == s.len() && in_body_data(m2)),
        run(m, s, pos, kind, answer).result is Ok,
        in_body_data(run(m, s, pos, kind, answer).model),
        run(m, s, pos, kind, answer).events.len() == 1,
    ensures
        step(m, s, pos, kind, answer)->Next_2 matches Some(Event::Chunk(sp))
            ==> (sp.end as int) < run(m, s, pos, kind, answer).result->Ok_0,
{
    reveal(step);
    reveal(crate::parsers::empty_line_spec);
    if let Step::Next(m2, next, e) = step(m, s, pos, kind, answer) {
        let r = run(m2, s, next as int, kind, answer);
        assert(run(m, s, pos, kind, answer) == prepend(opt_seq(e), r));
        if let Step::Next(m3, next3, e3) = step(m2, s, next as int, kind, answer) {
            lemma_run_moves_on(m3, s, next3 as int, kind, answer);
        }
    }
}

/// Feeding `s` and then, from where that stopped, `s + t`, gives the events of feeding
/// `s + t` at once, with a body chunk cut at the end of `s` in two parts; the same bytes are
/// consumed and the parser ends in the same state. (Where the run over `s` ends a message or
/// fails, `lemma_run_settled` says that `t` changes nothing.)
pub proof fn lemma_feed_in_two(m: ParserModel, s: Seq<u8>, t: Seq<u8>, pos: int, kind: ParserType, answer: ExpectBody)
    requires
        0 <= pos <= s.len(),
        s.len() + t.len() <= usize::MAX,
        run(m, s, pos, kind, answer).result is Ok,
        !ends_message(run(m, s, pos, kind, answer).events),
    ensures
        ({
            let r1 = run(m, s, pos, kind, answer);
            let k = r1.result->Ok_0 as int;
            let r2 = run(r1.model, s + t, k, kind, answer);
            run(m, s + t, pos, kind, answer)
                == (FeedResult { result: r2.result, events: splice(r1.events, r1.model, k, r2.events), model: r2.model })
        }),
    decreases s.len() - pos, rank(m.state),
{
    let u = s + t;
    let r1 = run(m, s, pos, kind, answer);
    let k = r1.result->Ok_0 as int;
    let r2 = run(r1.model, u, k, kind, answer);
    let st = step(m, s, pos, kind, answer);
    let stopped = FeedResult { result: Ok::<usize, crate::errors::HttpParserError>(pos as usize),
        events: Seq::<Event>::empty(), model: m };
    if r1 == stopped {
        assert(splice(r1.events, m, k, r2.events) =~= r2.events);
        return;
    }
    if let Step::Next(m2, next, e) = st {
        assert(e != Some(Event::End));
        assert(next <= s.len() && (next > pos || (next == pos && rank(m2.state) < rank(m.state))));
        if in_body_data(m) && next == s.len() && in_body_data(m2) {
            lemma_body_step_moves(m, s, pos, kind, answer);
            lemma_cut_chunk(m, s, t, pos, kind, answer);
            return;
        }
        if in_body_data(m) {
            lemma_body_step_stable(m, s, t, pos, kind, answer);
        } else {
            lemma_step_stable(m, s, t, pos, kind, answer);
        }
        assert(step(m, u, pos, kind, answer) == st);
        let r1b = run(m2, s, next as int, kind, answer);
        assert(r1 == prepend(opt_seq(e), r1b));
        if r1b.events.len() > 0 {
            assert(r1.events.last() == r1b.events.last());
        }
        lemma_feed_in_two(m2, s, t, next as int, kind, answer);
        assert(run(m, u, pos, kind, answer) == prepend(opt_seq(e), run(m2, u, next as int, kind, answer)));
        if r1b.events.len() > 0 {
            lemma_splice_prefix(opt_seq(e), r1b.events, r1.model, k, r2.events);
        } else {
            assert(r1.events =~= opt_seq(e));
            if in_body_data(m) && e is Some && e->Some_0 is Chunk && in_body_data(r1.model) {
                lemma_full_chunk_not_cut(m, s, pos, kind, answer);
                assert(e->Some_0->Chunk_0.end < k);
            }
            assert(splice(r1.events, r1.model, k, r2.events) =~= opt_seq(e) + r2.events);
        }
    }
}

/// `e` with its parts moved `d` bytes on.
pub open spec fn shift_event(e: Event, d: int) -> Event {
    match e {
        Event::RequestLine(l) => Event::RequestLine(shift_request(l, d)),
        Event::ResponseLine(l) => Event::ResponseLine(shift_response(l, d)),
        Event::Header(h) => Event::Header(shift_header(h, d)),
        Event::Chunk(sp) => Event::Chunk(shift(sp, d)),
        _ => e,
    }
}

/// The events `evs` with their parts moved `d` bytes on.
pub open spec fn shift_events(evs: Seq<Event>, d: int) -> Seq<Event> {
    evs.map_values(|e: Event| shift_event(e, d))
}

/// The run `r` over a suffix of an input seen from the whole input, `d` bytes on.
pub open spec fn shift_feed(r: FeedResult, d: int) -> FeedResult {
    FeedResult {
        result: match r.result {
            Ok(n) => Ok((n + d) as usize),
            Err(e) => Err(e),
        },
        events: shift_events(r.events, d),
        model: r.model,
    }
}

/// The transition `st` over a suffix of an input seen from the whole input, `d` bytes on.
pub open spec fn shift_step(st: Step, d: int) -> Step {
    match st {
        Step::Next(m, p, e) => Step::Next(m, (p + d) as usize, match e {
            Some(x) => Some(shift_event(x, d)),
            None => None,
        }),
        Step::Stop => Step::Stop,
        Step::Fail(e, err) => Step::Fail(match e {
            Some(x) => Some(shift_event(x, d)),
            None => None,
        }, err),
    }
}

/// One transition over the bytes from `pos` of `s` is the transition over `s` moved on.
proof fn lemma_step_shift(m: ParserModel, s: Seq<u8>, pos: int, q: int, kind: ParserType, answer: ExpectBody)
    requires
        0 <= pos <= s.len(),
        0 <= q <= s.len() - pos,
        s.len() <= usize::MAX,
    ensures
        step(m, s, pos + q, kind, answer) == shift_step(step(m, s.subrange(pos, s.len() as int), q, kind, answer), pos),
        step(m, s.subrange(pos, s.len() as int), q, kind, answer) matches Step::Next(_, p, _) ==> q <= p <= s.len() - pos,
{
    reveal(step);
    let r = s.subrange(pos, s.len() as int);
    let rest = s.subrange(pos + q, s.len() as int);
    assert(r.subrange(q, r.len() as int) =~= rest);
    let e = Seq::<u8>::empty();
    assert(rest + e =~= rest);
    match m.state {
        ParserState::FirstLine => match kind {
            ParserType::Request => if !(request_line_spec(rest) is Incomplete) {
                lemma_request_line_stable(rest, e);
            },
            ParserType::Response => if !(response_line_spec(rest) is Incomplete) {
                lemma_response_line_stable(rest, e);
            },
        },
        ParserState::Headers => if !(header_spec(rest) is Incomplete) {
            lemma_header_stable(rest, e);
        },
        ParserState::HeaderEnd => if !(empty_line_spec(rest) is Incomplete) {
            lemma_empty_line_stable(rest, e);
        },
        ParserState::Body(BodyTypeState::Chunked(ChunkedState::Header)) => if !(chunk_header_spec(rest) is Incomplete) {
            lemma_chunk_header_stable(rest, e);
        },
        ParserState::Body(BodyTypeState::Chunked(ChunkedState::DataEnd)) => if !(empty_line_spec(rest) is Incomplete) {
            lemma_empty_line_stable(rest, e);
        },
        _ => {},
    }
}

/// The parser reads its input from its position on: a run over the bytes from `pos` of `s`
/// is the run over `s` from `pos`, its positions moved `pos` bytes on.
pub proof fn lemma_run_shift(m: ParserModel, s: Seq<u8>, pos: int, q: int, kind: ParserType, answer: ExpectBody)
    requires
        0 <= pos <= s.len(),
        0 <= q <= s.len() - pos,
        s.len() <= usize::MAX,
    ensures
        run(m, s, pos + q, kind, answer) == shift_feed(run(m, s.subrange(pos, s.len() as int), q, kind, answer), pos),
    decreases s.len() - pos - q, rank(m.state),
{
    let r = s.subrange(pos, s.len() as int);
    lemma_step_shift(m, s, pos, q, kind, answer);
    let rs = run(m, s, pos + q, kind, answer);
    let rr = run(m, r, q, kind, answer);
    match step(m, r, q, kind, answer) {
        Step::Stop => {
            assert(shift_events(rr.events, pos) =~= rs.events);
        },
        Step::Fail(e, err) => {
            assert(shift_events(rr.events, pos) =~= rs.events);
        },
        Step::Next(m2, p, e) => {
            if e == Some(Event::End) {
                assert(shift_events(rr.events, pos) =~= rs.events);
            } else {
                if e is Some {
                    assert(shift_event(e->Some_0, pos) != Event::End);
                }
                let se = match e {
                    Some(x) => Some(shift_event(x, pos)),
                    None => None,
                };
                assert(shift_events(opt_seq(e), pos) =~= opt_seq(se));
                if p <= r.len() && (p > q || (p == q && rank(m2.state) < rank(m.state))) {
                    lemma_run_shift(m2, s, pos, p as int, kind, answer);
                    let tail = run(m2, r, p as int, kind, answer);
                    assert(rr == prepend(opt_seq(e), tail));
                    assert(rs == prepend(opt_seq(se), run(m2, s, pos + p, kind, answer)));
                    assert(shift_events(opt_seq(e) + tail.events, pos) =~= shift_events(opt_seq(e), pos) + shift_events(tail.events, pos));
                    assert(shift_events(rr.events, pos) =~= rs.events);
                } else {
                    assert(shift_events(rr.events, pos) =~= rs.events);
                }
            }
        },
    }
}

/// Fragmentation invariance. Feed `s`, then feed what that call left of `s` followed by `t`:
/// the two calls hand over the events of one call on `s + t`, in the same order and over the
/// same bytes, except that a run of body bytes cut at the end of `s` comes in two chunks; they
/// consume the same bytes and leave the parser in the same state. Where the call on `s` ends
/// a message or fails, the call on `s + t` does the same. Applied again, this holds for any
/// number of fragments.
pub proof fn lemma_fragmentation_invariance(m: ParserModel, s: Seq<u8>, t: Seq<u8>, kind: ParserType, answer: ExpectBody)
    requires
        s.len() + t.len() <= usize::MAX,
    ensures
        ({
            let r1 = run(m, s, 0, kind, answer);
            let whole = run(m, s + t, 0, kind, answer);
            &&& (r1.result is Err || ends_message(r1.events)) ==> whole == r1
            &&& (r1.result is Ok && !ends_message(r1.events)) ==> ({
                let k = r1.result->Ok_0 as int;
                let r2 = shift_feed(run(r1.model, (s + t).subrange(k, (s.len() + t.len()) as int), 0, kind, answer), k);
                whole == (FeedResult { result: r2.result, events: splice(r1.events, r1.model, k, r2.events), model: r2.model })
            })
        }),
{
    let r1 = run(m, s, 0, kind, answer);
    if r1.result is Err || ends_message(r1.events) {
        lemma_run_settled(m, s, t, 0, kind, answer);
    } else {
        let k = r1.result->Ok_0 as int;
        lemma_run_moves_on(m, s, 0, kind, answer);
        lemma_feed_in_two(m, s, t, 0, kind, answer);
        lemma_ok_within(m, s, 0, kind, answer);
        lemma_run_shift(r1.model, s + t, k, 0, kind, answer);
    }
}

/// A transition keeps the kind of the parser, and the end of a message leaves it as new.
proof fn lemma_step_keeps_kind(m: ParserModel, s: Seq<u8>, pos: int, kind: ParserType, answer: ExpectBody)
    ensures
        step(m, s, pos, kind, answer) matches Step::Next(m2, _, e) ==> m2.parser_type == m.parser_type
            && (e == Some(Event::End) ==> m2 == initial_model(m.parser_type)),
        step(m, s, pos, kind, answer) matches Step::Fail(e, _) ==> e != Some(Event::End),
{
    reveal(step);
}

/// A run that ends a message leaves the parser as a new one of its kind.
proof fn lemma_run_ends_fresh(m: ParserModel, s: Seq<u8>, pos: int, kind: ParserType, answer: ExpectBody)
    requires
        0 <= pos <= s.len(),
        ends_message(run(m, s, pos, kind, answer).events),
    ensures
        run(m, s, pos, kind, answer).model == initial_model(m.parser_type),
    decreases s.len() - pos, rank(m.state),
{
    lemma_step_keeps_kind(m, s, pos, kind, answer);
    if let Step::Next(m2, next, e) = step(m, s, pos, kind, answer) {
        if e != Some(Event::End) && next <= s.len() && (next > pos || (next == pos && rank(m2.state) < rank(m.state))) {
            let r2 = run(m2, s, next as int, kind, answer);
            assert(run(m, s, pos, kind, answer) == prepend(opt_seq(e), r2));
            if r2.events.len() == 0 {
                assert(run(m, s, pos, kind, answer).events =~= opt_seq(e));
            } else {
                assert(run(m, s, pos, kind, answer).events.last() == r2.events.last());
            }
            lemma_run_ends_fresh(m2, s, next as int, kind, answer);
        }
    }
}

/// Pipelining. Where a call on `m1` reads a whole message to its end, a call on `m1 + m2`
/// hands over the same events and consumes the same bytes, and it leaves the parser as a new
/// one of its kind: the next call, on what is left, reads the next message as a new parser
/// would. The parser holds nothing else that could grow from one message to the next.
pub proof fn lemma_pipelining(m: ParserModel, m1: Seq<u8>, m2: Seq<u8>, kind: ParserType, answer: ExpectBody)
    requires
        m1.len() + m2.len() <= usize::MAX,
        ends_message(run(m, m1, 0, kind, answer).events),
    ensures
        run(m, m1 + m2, 0, kind, answer) == run(m, m1, 0, kind, answer),
        run(m, m1, 0, kind, answer).model == initial_model(m.parser_type),
{
    lemma_run_settled(m, m1, m2, 0, kind, answer);
    lemma_run_ends_fresh(m, m1, 0, kind, answer);
}

/// A transition other than the end of a message stays within the input and either consumes
/// bytes or moves down the phases.
proof fn lemma_step_progress(m: ParserModel, s: Seq<u8>, pos: int, kind: ParserType, answer: ExpectBody)
    requires
        0 <= pos <= s.len(),
        s.len() <= usize::MAX,
        model_wf(m),
    ensures
        step(m, s, pos, kind, answer) matches Step::Next(m2, p, e) ==> pos <= p <= s.len()
            && (e == Some(Event::End) || p > pos || rank(m2.state) < rank(m.state)) && model_wf(m2),
{
    reveal(step);
    let rest = s.subrange(pos, s.len() as int);
    let e = Seq::<u8>::empty();
    match m.state {
        ParserState::FirstLine => match kind {
            ParserType::Request => if !(request_line_spec(rest) is Incomplete) {
                lemma_request_line_stable(rest, e);
            },
            ParserType::Response => if !(response_line_spec(rest) is Incomplete) {
                lemma_response_line_stable(rest, e);
            },
        },
        ParserState::Headers => if !(header_spec(rest) is Incomplete) {
            lemma_header_stable(rest, e);
        },
        ParserState::HeaderEnd => if !(empty_line_spec(rest) is Incomplete) {
            lemma_empty_line_stable(rest, e);
        },
        ParserState::Body(BodyTypeState::Chunked(ChunkedState::Header)) => if !(chunk_header_spec(rest) is Incomplete) {
            lemma_chunk_header_stable(rest, e);
        },
        ParserState::Body(BodyTypeState::Chunked(ChunkedState::DataEnd)) => if !(empty_line_spec(rest) is Incomplete) {
            lemma_empty_line_stable(rest, e);
        },
        _ => {},
    }
}

/// Whole units. Where a run neither fails nor ends a message, it stopped where the next
/// transition waits for more input: the bytes it leaves begin with a unit that is not yet
/// complete (a start line, a header line, a blank line, a chunk-size line or body bytes still
/// to come), and every event it handed over lies before them. In particular, where it stopped
/// among headers, what it leaves begins with a header line that is not complete, and none of
/// the headers before it will be handed over again.
pub proof fn lemma_run_stops_at_partial_unit(m: ParserModel, s: Seq<u8>, pos: int, kind: ParserType, answer: ExpectBody)
    requires
        0 <= pos <= s.len(),
        s.len() <= usize::MAX,
        model_wf(m),
        run(m, s, pos, kind, answer).result is Ok,
        !ends_message(run(m, s, pos, kind, answer).events),
    ensures
        ({
            let r = run(m, s, pos, kind, answer);
            let k = r.result->Ok_0 as int;
            &&& pos <= k <= s.len()
            &&& step(r.model, s, k, kind, answer) is Stop
            &&& r.model.state == ParserState::Headers ==> header_spec(s.subrange(k, s.len() as int)) is Incomplete
        }),
    decreases s.len() - pos, rank(m.state),
{
    let r = run(m, s, pos, kind, answer);
    lemma_step_progress(m, s, pos, kind, answer);
    if let Step::Next(m2, next, e) = step(m, s, pos, kind, answer) {
        if e != Some(Event::End) {
            let r2 = run(m2, s, next as int, kind, answer);
            assert(r == prepend(opt_seq(e), r2));
            if r2.events.len() > 0 {
                assert(r.events.last() == r2.events.last());
            }
            lemma_run_stops_at_partial_unit(m2, s, next as int, kind, answer);
        }
    }
    let k = r.result->Ok_0 as int;
    if r.model.state == ParserState::Headers {
        reveal(step);
    }
}

/// The bytes of `parts`, one after the other.
pub open spec fn concat(parts: Seq<Seq<u8>>) -> Seq<u8>
    decreases parts.len(),
{
    if parts.len() == 0 { Seq::empty() } else { parts[0] + concat(parts.drop_first()) }
}

proof fn lemma_concat_skip(parts: Seq<Seq<u8>>, i: int)
    requires
        0 <= i < parts.len(),
    ensures
        concat(parts.skip(i)) == parts[i] + concat(parts.skip(i + 1)),
        concat(parts.skip(i)).len() <= concat(parts).len(),
    decreases i,
{
    assert(parts.skip(i).drop_first() =~= parts.skip(i + 1));
    if i > 0 {
        lemma_concat_skip(parts, i - 1);
    } else {
        assert(parts.skip(0) =~= parts);
    }
}

/// Pipelining of any number of messages. Let each of `msgs` be one whole message, read to its
/// end by a new parser of type `t`. Fed all of them back to back, such a parser takes them one
/// per call: the call on `msgs[i]` and all that follows it hands over the events of `msgs[i]`
/// alone, consumes exactly its bytes, leaves the messages after it, and leaves the parser as
/// a new one, so that nothing carries over from one message to the next.
pub proof fn lemma_pipelining_all(t: ParserType, msgs: Seq<Seq<u8>>, answer: ExpectBody)
    requires
        concat(msgs).len() <= usize::MAX,
        forall|i: int| 0 <= i < msgs.len() ==> ({
            let r = #[trigger] run(initial_model(t), msgs[i], 0, t, answer);
            r.result == Ok::<usize, crate::errors::HttpParserError>(msgs[i].len() as usize) && ends_message(r.events)
        }),
    ensures
        forall|i: int| 0 <= i < msgs.len() ==> ({
            let r = #[trigger] run(initial_model(t), concat(msgs.skip(i)), 0, t, answer);
            &&& r == run(initial_model(t), msgs[i], 0, t, answer)
            &&& r.model == initial_model(t)
            &&& concat(msgs.skip(i)).subrange(msgs[i].len() as int, concat(msgs.skip(i)).len() as int)
                == concat(msgs.skip(i + 1))
        }),
{
    assert forall|i: int| 0 <= i < msgs.len() implies ({
        let r = #[trigger] run(initial_model(t), concat(msgs.skip(i)), 0, t, answer);
        &&& r == run(initial_model(t), msgs[i], 0, t, answer)
        &&& r.model == initial_model(t)
        &&& concat(msgs.skip(i)).subrange(msgs[i].len() as int, concat(msgs.skip(i)).len() as int)
            == concat(msgs.skip(i + 1))
    }) by {
        lemma_concat_skip(msgs, i);
        let r = run(initial_model(t), msgs[i], 0, t, answer);
        assert(r.result == Ok::<usize, crate::errors::HttpParserError>(msgs[i].len() as usize) && ends_message(r.events));
        lemma_pipelining(initial_model(t), msgs[i], concat(msgs.skip(i + 1)), t, answer);
        assert((msgs[i] + concat(msgs.skip(i + 1))).subrange(msgs[i].len() as int, concat(msgs.skip(i)).len() as int)
            =~= concat(msgs.skip(i + 1)));
    }
}

/// A run from a sound state ends in a sound state.
proof fn lemma_run_keeps_wf(m: ParserModel, s: Seq<u8>, pos: int, kind: ParserType, answer: ExpectBody)
    requires
        0 <= pos <= s.len(),
        s.len() <= usize::MAX,
        model_wf(m),
    ensures
        model_wf(run(m, s, pos, kind, answer).model),
    decreases s.len() - pos, rank(m.state),
{
    lemma_step_progress(m, s, pos, kind, answer);
    if let Step::Next(m2, next, e) = step(m, s, pos, kind, answer) {
        if e != Some(Event::End) {
            lemma_run_keeps_wf(m2, s, next as int, kind, answer);
        }
    }
}

/// The calls of a caller that receives `whole` in fragments ending at `cuts`: each call reads
/// the input received so far from where the last one stopped (seen from the whole input, see
/// `lemma_run_shift`), until one fails or ends a message; the events of the calls one after the
/// other, a body chunk cut at a fragment's end joined with its other part.
pub open spec fn feed_cuts(m: ParserModel, whole: Seq<u8>, pos: int, cuts: Seq<int>, kind: ParserType, answer: ExpectBody) -> FeedResult
    decreases cuts.len(),
{
    if cuts.len() == 0 || !(0 <= cuts[0] <= whole.len()) {
        FeedResult { result: Ok(pos as usize), events: Seq::empty(), model: m }
    } else {
        let r1 = run(m, whole.subrange(0, cuts[0]), pos, kind, answer);
        if r1.result is Err || ends_message(r1.events) {
            r1
        } else {
            let k = r1.result->Ok_0 as int;
            let rest = feed_cuts(r1.model, whole, k, cuts.drop_first(), kind, answer);
            FeedResult { result: rest.result, events: splice(r1.events, r1.model, k, rest.events), model: rest.model }
        }
    }
}

/// Fragmentation invariance, for any number of fragments: receiving `whole` in fragments that
/// end at `cuts` and feeding each call what the last one left followed by the new fragment
/// hands over the events of one call on `whole`, in the same order and over the same bytes,
/// body bytes cut by a fragment's end joined again; the same bytes are consumed and the parser
/// ends in the same state.
pub proof fn lemma_fragments(m: ParserModel, whole: Seq<u8>, pos: int, cuts: Seq<int>, kind: ParserType, answer: ExpectBody)
    requires
        whole.len() <= usize::MAX,
        model_wf(m),
        cuts.len() > 0,
        cuts.last() == whole.len(),
        0 <= pos <= cuts[0],
        forall|i: int, j: int| 0 <= i <= j < cuts.len() ==> cuts[i] <= cuts[j],
    ensures
        feed_cuts(m, whole, pos, cuts, kind, answer) == run(m, whole, pos, kind, answer),
    decreases cuts.len(),
{
    let c0 = cuts[0];
    assert(cuts[0] <= cuts[cuts.len() - 1]);
    assert(0 <= c0 <= whole.len());
    let s = whole.subrange(0, c0);
    let t = whole.subrange(c0, whole.len() as int);
    assert(s + t =~= whole);
    let r1 = run(m, s, pos, kind, answer);
    if r1.result is Err || ends_message(r1.events) {
        lemma_run_settled(m, s, t, pos, kind, answer);
    } else {
        let k = r1.result->Ok_0 as int;
        lemma_feed_in_two(m, s, t, pos, kind, answer);
        lemma_ok_within(m, s, pos, kind, answer);
        lemma_run_moves_on(m, s, pos, kind, answer);
        lemma_run_keeps_wf(m, s, pos, kind, answer);
        if cuts.len() == 1 {
            assert(s =~= whole);
            lemma_run_stops_at_partial_unit(m, s, pos, kind, answer);
            assert(run(r1.model, whole, k, kind, answer)
                == FeedResult { result: Ok::<usize, crate::errors::HttpParserError>(k as usize), events: Seq::<Event>::empty(), model: r1.model });
            assert(cuts.drop_first().len() == 0);
            assert(feed_cuts(r1.model, whole, k, cuts.drop_first(), kind, answer)
                == FeedResult { result: Ok::<usize, crate::errors::HttpParserError>(k as usize), events: Seq::<Event>::empty(), model: r1.model });
        } else {
            let tail = cuts.drop_first();
            assert forall|i: int, j: int| 0 <= i <= j < tail.len() implies tail[i] <= tail[j] by {
                assert(cuts[i + 1] <= cuts[j + 1]);
            }
            assert(cuts[0] <= cuts[1]);
            lemma_fragments(r1.model, whole, k, tail, kind, answer);
        }
    }
}

} // verus!
