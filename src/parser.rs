//! The parser's state machine: one transition as a spec function, the run of transitions that
//! one call makes, and the executable parser proved to follow them.
use vstd::prelude::*;

use crate::classify::{body_type_from_header, body_type_spec};
use crate::errors::HttpParserError;
use crate::parsers::{
    chunk_header_spec, chunk_size_line, empty_line, empty_line_spec, header, header_spec,
    request_line, request_line_spec, response_line, response_line_spec, span_in, HeaderSpans,
    Parsed, RequestLineSpans, ResponseLineSpans, Span,
};
use vstd::slice::slice_subrange;

verus! {

/// What a call of the parser returns, or why it failed.
pub type HttpParserResult<T> = Result<T, HttpParserError>;

/// How the body of a message is delimited.
#[derive(Debug, Clone, Copy, PartialEq, Eq, Structural)]
pub enum BodyType {
    /// `Content-Length`: this many bytes.
    Length(usize),
    /// `Transfer-Encoding: chunked`.
    Chunked,
    /// The body runs until the stream closes (responses only).
    EOF,
    /// No body.
    NoBody,
}

/// What the sink says of a body once the headers are in.
#[derive(Debug, Clone, Copy, PartialEq, Eq, Structural)]
pub enum ExpectBody {
    /// Read the body that the framing announces.
    Maybe,
    /// There is no body, whatever the framing says (a response to HEAD, a 204 or a 304).
    No,
}

/// Whether a parser reads requests or responses.
#[derive(Debug, Clone, Copy, PartialEq, Eq, Structural)]
pub enum ParserType {
    Request,
    Response,
}

/// Where a chunked body stands.
#[derive(Debug, Clone, Copy, PartialEq, Eq, Structural)]
pub enum ChunkedState {
    /// Before a chunk-size line.
    Header,
    /// Inside a chunk, with this many bytes left.
    Data(usize),
    /// After a chunk's data, before the line end that closes it.
    DataEnd,
}

/// Where a body stands.
#[derive(Debug, Clone, Copy, PartialEq, Eq, Structural)]
pub enum BodyTypeState {
    /// This many bytes of a `Content-Length` body are left.
    Length(usize),
    Chunked(ChunkedState),
    /// Every byte until the stream closes belongs to the body.
    EOF,
    NoBody,
}

/// The phase of the message being read.
#[derive(Debug, Clone, Copy, PartialEq, Eq, Structural)]
pub enum ParserState {
    FirstLine,
    Headers,
    HeaderEnd,
    Body(BodyTypeState),
    Done,
}

/// The scalar state of a parser.
#[derive(Debug, Clone, Copy, PartialEq, Eq, Structural)]
pub struct ParserModel {
    pub body_type: BodyType,
    pub state: ParserState,
    /// The last chunk has been read: the headers now read are trailers.
    pub body_finished: bool,
    pub expect_body: ExpectBody,
    pub parser_type: ParserType,
}

/// What the parser hands a sink, with the parts of the input it covers.
#[derive(Debug, Clone, Copy, PartialEq, Eq, Structural)]
pub enum Event {
    RequestLine(RequestLineSpans),
    ResponseLine(ResponseLineSpans),
    Header(HeaderSpans),
    HeadersFinished(BodyType, ExpectBody),
    Chunk(Span),
    End,
}

/// One transition: the next state, how far the input is consumed, and the event emitted;
/// or more input is needed; or the input is refused, after an event perhaps.
pub enum Step {
    Next(ParserModel, usize, Option<Event>),
    Stop,
    Fail(Option<Event>, HttpParserError),
}

/// What one call of `parse_request` or `parse_response` comes to.
pub struct FeedResult {
    /// How many bytes were consumed, or why the input was refused.
    pub result: Result<usize, HttpParserError>,
    pub events: Seq<Event>,
    pub model: ParserModel,
}

/// The framing assumed before any header says otherwise: none for a request, up to the end
/// of the stream for a response.
pub open spec fn initial_body_type(t: ParserType) -> BodyType {
    match t {
        ParserType::Request => BodyType::NoBody,
        ParserType::Response => BodyType::EOF,
    }
}

/// The state of a parser that has just been built.
pub open spec fn initial_model(t: ParserType) -> ParserModel {
    ParserModel {
        body_type: initial_body_type(t),
        state: ParserState::FirstLine,
        body_finished: false,
        expect_body: ExpectBody::Maybe,
        parser_type: t,
    }
}

/// The body phase that follows the headers.
pub open spec fn initial_body_state(b: BodyType, e: ExpectBody) -> BodyTypeState {
    match e {
        ExpectBody::No => BodyTypeState::NoBody,
        ExpectBody::Maybe => match b {
            BodyType::Chunked => BodyTypeState::Chunked(ChunkedState::Header),
            BodyType::Length(n) => if n == 0 { BodyTypeState::NoBody } else { BodyTypeState::Length(n) },
            BodyType::EOF => BodyTypeState::EOF,
            BodyType::NoBody => BodyTypeState::NoBody,
        },
    }
}

/// `sp` moved `d` bytes on: a span of a suffix taken as a span of the whole input.
pub open spec fn shift(sp: Span, d: int) -> Span {
    Span { start: (sp.start + d) as usize, end: (sp.end + d) as usize }
}

pub open spec fn shift_request(l: RequestLineSpans, d: int) -> RequestLineSpans {
    RequestLineSpans {
        method: shift(l.method, d),
        path: shift(l.path, d),
        major: shift(l.major, d),
        minor: shift(l.minor, d),
    }
}

pub open spec fn shift_response(l: ResponseLineSpans, d: int) -> ResponseLineSpans {
    ResponseLineSpans { major: shift(l.major, d), minor: shift(l.minor, d), code: l.code, phrase: shift(l.phrase, d) }
}

pub open spec fn shift_header(h: HeaderSpans, d: int) -> HeaderSpans {
    HeaderSpans { name: shift(h.name, d), value: shift(h.value, d) }
}

/// `m` in the phase `st`.
pub open spec fn with_state(m: ParserModel, st: ParserState) -> ParserModel {
    ParserModel { state: st, ..m }
}

/// Body bytes counted down from `n`: as many as the input has, up to `n`; once `n` are
/// through, the phase `then` follows.
pub open spec fn counted_step(m: ParserModel, s: Seq<u8>, pos: int, n: usize, then: ParserState, more: ParserState) -> Step {
    let avail = s.len() - pos;
    if avail == 0 {
        Step::Stop
    } else if avail < n {
        Step::Next(with_state(m, more), s.len() as usize, Some(Event::Chunk(Span { start: pos as usize, end: s.len() as usize })))
    } else {
        Step::Next(with_state(m, then), (pos + n) as usize, Some(Event::Chunk(Span { start: pos as usize, end: (pos + n) as usize })))
    }
}

/// One transition of a parser in state `m` on the input `s` from `pos`, where `kind` says
/// which start line is read and `answer` is what the sink says once the headers are in.
#[verifier::opaque]
pub open spec fn step(m: ParserModel, s: Seq<u8>, pos: int, kind: ParserType, answer: ExpectBody) -> Step {
    let rest = s.subrange(pos, s.len() as int);
    match m.state {
        ParserState::FirstLine => match kind {
            ParserType::Request => match request_line_spec(rest) {
                Parsed::Done(n, l) => Step::Next(
                    with_state(m, ParserState::Headers),
                    (pos + n) as usize,
                    Some(Event::RequestLine(shift_request(l, pos))),
                ),
                Parsed::Incomplete => Step::Stop,
                Parsed::Error => Step::Fail(None, HttpParserError::BadFirstLine),
            },
            ParserType::Response => match response_line_spec(rest) {
                Parsed::Done(n, l) => Step::Next(
                    with_state(m, ParserState::Headers),
                    (pos + n) as usize,
                    Some(Event::ResponseLine(shift_response(l, pos))),
                ),
                Parsed::Incomplete => Step::Stop,
                Parsed::Error => Step::Fail(None, HttpParserError::BadFirstLine),
            },
        },
        ParserState::Headers => match header_spec(rest) {
            Parsed::Done(n, h) => {
                let ev = Some(Event::Header(shift_header(h, pos)));
                match body_type_spec(
                    rest.subrange(h.name.start as int, h.name.end as int),
                    rest.subrange(h.value.start as int, h.value.end as int),
                ) {
                    Ok(Some(b)) => Step::Next(ParserModel { body_type: b, ..m }, (pos + n) as usize, ev),
                    Ok(None) => Step::Next(m, (pos + n) as usize, ev),
                    Err(e) => Step::Fail(ev, HttpParserError::BadHeaderValue(e)),
                }
            },
            Parsed::Incomplete => Step::Stop,
            Parsed::Error => Step::Next(with_state(m, ParserState::HeaderEnd), pos as usize, None),
        },
        ParserState::HeaderEnd => match empty_line_spec(rest) {
            Parsed::Done(n, _) => if m.body_finished {
                Step::Next(with_state(m, ParserState::Done), (pos + n) as usize, None)
            } else {
                Step::Next(
                    ParserModel {
                        expect_body: answer,
                        state: ParserState::Body(initial_body_state(m.body_type, answer)),
                        ..m
                    },
                    (pos + n) as usize,
                    Some(Event::HeadersFinished(m.body_type, answer)),
                )
            },
            Parsed::Incomplete => Step::Stop,
            Parsed::Error => Step::Fail(None, HttpParserError::BadHeader),
        },
        ParserState::Body(BodyTypeState::Length(n)) => counted_step(
            m, s, pos, n, ParserState::Done, ParserState::Body(BodyTypeState::Length((n - (s.len() - pos)) as usize))),
        ParserState::Body(BodyTypeState::Chunked(ChunkedState::Header)) => match chunk_header_spec(rest) {
            Parsed::Done(n, (size, _)) => if size == 0 {
                Step::Next(ParserModel { body_finished: true, state: ParserState::Headers, ..m }, (pos + n) as usize, None)
            } else {
                Step::Next(
                    with_state(m, ParserState::Body(BodyTypeState::Chunked(ChunkedState::Data(size)))),
                    (pos + n) as usize,
                    None,
                )
            },
            Parsed::Incomplete => Step::Stop,
            Parsed::Error => Step::Fail(None, HttpParserError::BadBodyChunkHeader),
        },
        ParserState::Body(BodyTypeState::Chunked(ChunkedState::Data(n))) => counted_step(
            m, s, pos, n,
            ParserState::Body(BodyTypeState::Chunked(ChunkedState::DataEnd)),
            ParserState::Body(BodyTypeState::Chunked(ChunkedState::Data((n - (s.len() - pos)) as usize)))),
        ParserState::Body(BodyTypeState::Chunked(ChunkedState::DataEnd)) => match empty_line_spec(rest) {
            Parsed::Done(n, _) => Step::Next(
                with_state(m, ParserState::Body(BodyTypeState::Chunked(ChunkedState::Header))),
                (pos + n) as usize,
                None,
            ),
            Parsed::Incomplete => Step::Stop,
            Parsed::Error => Step::Fail(None, HttpParserError::BadBodyChunkHeader),
        },
        ParserState::Body(BodyTypeState::EOF) => if s.len() == pos {
            Step::Stop
        } else {
            Step::Next(m, s.len() as usize, Some(Event::Chunk(Span { start: pos as usize, end: s.len() as usize })))
        },
        ParserState::Body(BodyTypeState::NoBody) => Step::Next(with_state(m, ParserState::Done), pos as usize, None),
        ParserState::Done => Step::Next(initial_model(m.parser_type), pos as usize, Some(Event::End)),
    }
}

/// Orders the phases so that a transition that consumes nothing moves down.
pub open spec fn rank(st: ParserState) -> nat {
    match st {
        ParserState::FirstLine => 5,
        ParserState::Headers => 4,
        ParserState::HeaderEnd => 3,
        ParserState::Body(BodyTypeState::NoBody) => 1,
        ParserState::Body(_) => 2,
        ParserState::Done => 0,
    }
}

/// The event, if there is one, as a sequence.
pub open spec fn opt_seq(e: Option<Event>) -> Seq<Event> {
    match e {
        Some(x) => seq![x],
        None => seq![],
    }
}

/// `r` with the events `evs` before its own.
pub open spec fn prepend(evs: Seq<Event>, r: FeedResult) -> FeedResult {
    FeedResult { result: r.result, events: evs + r.events, model: r.model }
}

/// Transitions from state `m` at `pos` of `s`, one after the other, until one needs more input
/// or fails, or the message ends. A transition that consumes nothing and does not move down
/// the phases ends the run too.
pub open spec fn run(m: ParserModel, s: Seq<u8>, pos: int, kind: ParserType, answer: ExpectBody) -> FeedResult
    decreases s.len() - pos, rank(m.state),
{
    let stop = FeedResult { result: Ok(pos as usize), events: seq![], model: m };
    if pos < 0 || pos > s.len() {
        stop
    } else {
        match step(m, s, pos, kind, answer) {
            Step::Stop => stop,
            Step::Fail(e, err) => FeedResult { result: Err(err), events: opt_seq(e), model: m },
            Step::Next(m2, next, e) => if e == Some(Event::End) {
                FeedResult { result: Ok(next), events: seq![Event::End], model: m2 }
            } else if next <= s.len() && (next > pos || (next == pos && rank(m2.state) < rank(m.state))) {
                prepend(opt_seq(e), run(m2, s, next as int, kind, answer))
            } else {
                stop
            },
        }
    }
}

/// A parser's state is sound: a counted body phase has bytes left to read.
pub open spec fn model_wf(m: ParserModel) -> bool {
    &&& (m.state matches ParserState::Body(BodyTypeState::Length(n)) ==> n > 0)
    &&& (m.state matches ParserState::Body(BodyTypeState::Chunked(ChunkedState::Data(n))) ==> n > 0)
}

/// The parts of `e` lie within `lo..hi`.
pub open spec fn event_in(e: Event, lo: int, hi: int) -> bool {
    match e {
        Event::RequestLine(l) => span_in(l.method, lo, hi) && span_in(l.path, lo, hi)
            && span_in(l.major, lo, hi) && span_in(l.minor, lo, hi),
        Event::ResponseLine(l) => span_in(l.major, lo, hi) && span_in(l.minor, lo, hi) && span_in(l.phrase, lo, hi),
        Event::Header(h) => span_in(h.name, lo, hi) && span_in(h.value, lo, hi),
        Event::Chunk(sp) => span_in(sp, lo, hi) && sp.start < sp.end,
        _ => true,
    }
}

/// Every event of `evs` lies within `lo..hi`.
pub open spec fn events_in(evs: Seq<Event>, lo: int, hi: int) -> bool {
    forall|i: int| 0 <= i < evs.len() ==> event_in(#[trigger] evs[i], lo, hi)
}

/// No event of `evs` ends a message.
pub open spec fn no_end(evs: Seq<Event>) -> bool {
    forall|i: int| 0 <= i < evs.len() ==> #[trigger] evs[i] != Event::End
}

proof fn lemma_prepend_assoc(a: Seq<Event>, b: Seq<Event>, r: FeedResult)
    ensures
        prepend(a, prepend(b, r)) == prepend(a + b, r),
{
    assert(a + (b + r.events) =~= (a + b) + r.events);
}

proof fn lemma_prepend_empty_right(a: Seq<Event>, r: FeedResult)
    requires
        r.events == Seq::<Event>::empty(),
    ensures
        prepend(a, r) == (FeedResult { result: r.result, events: a, model: r.model }),
{
    assert(a + r.events =~= a);
}

proof fn lemma_prepend_empty(r: FeedResult)
    ensures
        prepend(seq![], r) == r,
{
    assert(Seq::<Event>::empty() + r.events =~= r.events);
}

/// The outcome of a call that consumed `input` and handed the sink `events`, leaving the
/// parser in state `model`, is what `f` says.
pub open spec fn feed_agrees(
    f: FeedResult,
    input: Seq<u8>,
    r: Result<&[u8], HttpParserError>,
    events: Seq<Event>,
    model: ParserModel,
) -> bool {
    &&& f.events == events
    &&& f.model == model
    &&& match (r, f.result) {
        (Ok(rest), Ok(n)) => rest@ == input.subrange(n as int, input.len() as int),
        (Err(e), Err(e2)) => e == e2,
        _ => false,
    }
}

/// Every event lies within the input, and within the consumed part of it where the call
/// succeeded; the part returned is a suffix of the input.
pub open spec fn feed_bounds(input: Seq<u8>, r: Result<&[u8], HttpParserError>, events: Seq<Event>) -> bool {
    &&& events_in(events, 0, input.len() as int)
    &&& (r matches Ok(rest) ==> rest@.len() <= input.len()
        && rest@ == input.subrange(input.len() - rest@.len(), input.len() as int)
        && events_in(events, 0, input.len() - rest@.len()))
}

/// The last of `events` ends a message.
pub open spec fn ends_message(events: Seq<Event>) -> bool {
    events.len() > 0 && events.last() == Event::End
}

/// A request line, its parts borrowed from the parser's input.
#[derive(Debug, PartialEq, Eq)]
pub struct RequestLine<'r> {
    pub method: &'r [u8],
    pub path: &'r [u8],
    /// The major and minor version digits.
    pub version: (&'r [u8], &'r [u8]),
}

/// A status line, its parts borrowed from the parser's input.
#[derive(Debug, PartialEq, Eq)]
pub struct ResponseLine<'r> {
    /// The major and minor version digits.
    pub version: (&'r [u8], &'r [u8]),
    pub code: u16,
    pub phrase: &'r [u8],
}

/// The events of a message. Each slice is borrowed from the input of the call that emits it,
/// for that callback only. The parser is passed along to be looked at.
pub trait HttpMessageCallbacks {
    fn on_header(&mut self, parser: &HttpParser, name: &[u8], value: &[u8]);

    /// The headers are in: says whether to read the body that `body_type` announces.
    fn on_headers_finished(&mut self, parser: &HttpParser, body_type: BodyType) -> ExpectBody;

    /// A run of body bytes, never empty.
    fn on_chunk(&mut self, parser: &HttpParser, data: &[u8]);

    /// The message is complete, once per message.
    fn on_end(&mut self, parser: &HttpParser);
}

pub trait HttpRequestCallbacks: HttpMessageCallbacks {
    fn on_request_line(&mut self, parser: &HttpParser, request: &RequestLine);
}

pub trait HttpResponseCallbacks: HttpMessageCallbacks {
    fn on_response_line(&mut self, parser: &HttpParser, response: &ResponseLine);
}

/// What one transition of the executable parser came to.
enum Progress {
    Next(usize),
    Stop,
    Fail(HttpParserError),
}

spec fn as_step(r: Progress, m: ParserModel, e: Option<Event>) -> Step {
    match r {
        Progress::Next(p) => Step::Next(m, p, e),
        Progress::Stop => Step::Stop,
        Progress::Fail(err) => Step::Fail(e, err),
    }
}

/// The headers of the message are behind: the next headers read, if any, are trailers.
pub open spec fn past_headers(m: ParserModel) -> bool {
    m.state is Body || m.state == ParserState::Done || m.body_finished
}

/// The transition from `m` asks the sink whether a body follows.
pub open spec fn asks_sink(m: ParserModel) -> bool {
    m.state == ParserState::HeaderEnd && !m.body_finished
}

/// The state of the parser for one stream of messages, all requests or all responses.
///
/// Feed it bytes with `parse_request` or `parse_response`: each call consumes a prefix of its
/// input, hands the events in it to a sink, and returns the rest, which must be fed again,
/// with what follows it in the stream, once more bytes are at hand. A call returns after the
/// end of a message, so that the next message of a pipeline starts with a new call. A body
/// delimited by the end of the stream never ends here: the caller ends it when the stream
/// closes. When a message has both `Content-Length` and `Transfer-Encoding`, the later of the
/// two decides the framing.
pub struct HttpParser {
    /// The framing announced by the headers read so far.
    pub body_type: BodyType,
    current_state: ParserState,
    body_finished: bool,
    expect_body: ExpectBody,
    parser_type: ParserType,
    events: Ghost<Seq<Event>>,
    answer: Ghost<ExpectBody>,
}

impl HttpParser {
    /// The parser's scalar state.
    pub closed spec fn model(&self) -> ParserModel {
        ParserModel {
            body_type: self.body_type,
            state: self.current_state,
            body_finished: self.body_finished,
            expect_body: self.expect_body,
            parser_type: self.parser_type,
        }
    }

    /// The events that the last call handed the sink, in order.
    pub closed spec fn last_events(&self) -> Seq<Event> {
        self.events@
    }

    /// What the sink answered to `on_headers_finished` in the last call that asked it.
    pub closed spec fn last_answer(&self) -> ExpectBody {
        self.answer@
    }

    /// The parser's state is sound (see `model_wf`).
    pub open spec fn wf(&self) -> bool {
        model_wf(self.model())
    }

    /// Builds a parser for requests or for responses.
    pub fn new(parser_type: ParserType) -> (r: HttpParser)
        ensures
            r.model() == initial_model(parser_type),
            r.last_events() == Seq::<Event>::empty(),
            r.wf(),
    {
        HttpParser {
            body_type: match parser_type {
                ParserType::Request => BodyType::NoBody,
                ParserType::Response => BodyType::EOF,
            },
            current_state: ParserState::FirstLine,
            body_finished: false,
            expect_body: ExpectBody::Maybe,
            parser_type,
            events: Ghost(Seq::empty()),
            answer: Ghost(ExpectBody::Maybe),
        }
    }

    fn start_body(body_type: BodyType, expect: ExpectBody) -> (r: BodyTypeState)
        ensures
            r == initial_body_state(body_type, expect),
    {
        match expect {
            ExpectBody::No => BodyTypeState::NoBody,
            ExpectBody::Maybe => match body_type {
                BodyType::Chunked => BodyTypeState::Chunked(ChunkedState::Header),
                BodyType::Length(n) => if n == 0 { BodyTypeState::NoBody } else { BodyTypeState::Length(n) },
                BodyType::EOF => BodyTypeState::EOF,
                BodyType::NoBody => BodyTypeState::NoBody,
            },
        }
    }

    /// Hands the sink up to `n` body bytes from `pos`; once `n` are through, `then` follows.
    fn counted<T: HttpMessageCallbacks>(
        &mut self,
        cb: &mut T,
        input: &[u8],
        pos: usize,
        n: usize,
        then: ParserState,
        more: ParserState,
    ) -> (r: (Progress, Ghost<Option<Event>>))
        requires
            pos <= input@.len(),
            n > 0,
        ensures
            counted_step(old(self).model(), input@, pos as int, n, then, more) == as_step(r.0, final(self).model(), r.1@),
            final(self).events@ == old(self).events@ + opt_seq(r.1@),
            final(self).answer == old(self).answer,
            r.0 is Stop ==> final(self).model() == old(self).model(),
            r.0 is Stop <==> r.1@ is None,
            r.1@ matches Some(e) ==> e is Chunk,
            r.0 matches Progress::Next(p) ==> pos < p <= input@.len(),
            r.0 matches Progress::Next(p) ==> (r.1@ matches Some(e) ==> event_in(e, pos as int, p as int)),
            !(r.0 is Fail),
    {
        let avail = input.len() - pos;
        if avail == 0 {
            return (Progress::Stop, Ghost(None));
        }
        if avail < n {
            cb.on_chunk(&*self, slice_subrange(input, pos, input.len()));
            self.current_state = more;
            let ghost ev = Event::Chunk(Span { start: pos, end: input.len() });
            self.events = Ghost(self.events@.push(ev));
            assert(self.events@ =~= old(self).events@ + opt_seq(Some(ev)));
            (Progress::Next(input.len()), Ghost(Some(ev)))
        } else {
            cb.on_chunk(&*self, slice_subrange(input, pos, pos + n));
            self.current_state = then;
            let ghost ev = Event::Chunk(Span { start: pos, end: (pos + n) as usize });
            self.events = Ghost(self.events@.push(ev));
            assert(self.events@ =~= old(self).events@ + opt_seq(Some(ev)));
            (Progress::Next(pos + n), Ghost(Some(ev)))
        }
    }
    /// What one transition from `old` to `new` on `s` from `pos` must come to: the transition
    /// that `step` gives, with the answer that the sink gave if it was asked, and the bounds
    /// that the run of transitions relies on.
    spec fn step_post(
        old: HttpParser,
        new: HttpParser,
        s: Seq<u8>,
        pos: int,
        kind: ParserType,
        r: Progress,
        ev: Option<Event>,
    ) -> bool {
        &&& forall|a: ExpectBody| (asks_sink(old.model()) ==> a == new.answer@)
            ==> #[trigger] step(old.model(), s, pos, kind, a) == as_step(r, new.model(), ev)
        &&& (!asks_sink(old.model()) ==> new.answer == old.answer)
        &&& new.events@ == old.events@ + opt_seq(ev)
        &&& new.wf()
        &&& new.model().parser_type == old.model().parser_type
        &&& (!(r is Next) ==> new.model() == old.model())
        &&& ((ev == Some(Event::End)) == (old.model().state == ParserState::Done))
        &&& (r matches Progress::Next(p) ==> pos <= p <= s.len() && (old.model().state == ParserState::Done
            || p > pos || rank(new.model().state) < rank(old.model().state)))
        &&& (ev matches Some(e) ==> event_in(e, pos, s.len() as int))
        &&& (r matches Progress::Next(p) ==> (ev matches Some(e) ==> event_in(e, pos, p as int)))
        &&& (r is Stop ==> ev is None)
        &&& (old.model().state == ParserState::Done ==> new.model() == initial_model(old.model().parser_type))
        &&& ((r is Next && old.model().state != ParserState::Done) ==> new.model().state != ParserState::FirstLine)
        &&& ((r is Next && old.model().state != ParserState::Done && (past_headers(old.model()) || asks_sink(old.model())))
            ==> past_headers(new.model()))
    }

    fn header_step<T: HttpMessageCallbacks>(&mut self, cb: &mut T, input: &[u8], pos: usize, kind: Ghost<ParserType>)
        -> (r: (Progress, Ghost<Option<Event>>))
        requires
            old(self).wf(),
            pos <= input@.len(),
            old(self).model().state == ParserState::Headers,
        ensures
            Self::step_post(*old(self), *final(self), input@, pos as int, kind@, r.0, r.1@),
    {
        reveal(step);
        let rest = slice_subrange(input, pos, input.len());
        match header(rest) {
            Parsed::Done(n, h) => {
                let name = slice_subrange(rest, h.name.start, h.name.end);
                let value = slice_subrange(rest, h.value.start, h.value.end);
                cb.on_header(&*self, name, value);
                let ghost ev = Event::Header(shift_header(h, pos as int));
                self.events = Ghost(self.events@.push(ev));
                assert(self.events@ =~= old(self).events@ + opt_seq(Some(ev)));
                match body_type_from_header(name, value) {
                    Ok(Some(b)) => {
                        self.body_type = b;
                        (Progress::Next(pos + n), Ghost(Some(ev)))
                    },
                    Ok(None) => (Progress::Next(pos + n), Ghost(Some(ev))),
                    Err(e) => (Progress::Fail(HttpParserError::BadHeaderValue(e)), Ghost(Some(ev))),
                }
            },
            Parsed::Incomplete => {
                assert(self.events@ =~= old(self).events@ + opt_seq(None));
                (Progress::Stop, Ghost(None))
            },
            Parsed::Error => {
                self.current_state = ParserState::HeaderEnd;
                assert(self.events@ =~= old(self).events@ + opt_seq(None));
                (Progress::Next(pos), Ghost(None))
            },
        }
    }

    fn header_end_step<T: HttpMessageCallbacks>(&mut self, cb: &mut T, input: &[u8], pos: usize, kind: Ghost<ParserType>)
        -> (r: (Progress, Ghost<Option<Event>>))
        requires
            old(self).wf(),
            pos <= input@.len(),
            old(self).model().state == ParserState::HeaderEnd,
        ensures
            Self::step_post(*old(self), *final(self), input@, pos as int, kind@, r.0, r.1@),
    {
        reveal(step);
        let rest = slice_subrange(input, pos, input.len());
        assert(self.events@ =~= old(self).events@ + opt_seq(None));
        match empty_line(rest) {
            Parsed::Done(n, _) => {
                if self.body_finished {
                    self.current_state = ParserState::Done;
                    (Progress::Next(pos + n), Ghost(None))
                } else {
                    let body_type = self.body_type;
                    let expect = cb.on_headers_finished(&*self, body_type);
                    self.expect_body = expect;
                    self.answer = Ghost(expect);
                    self.current_state = ParserState::Body(Self::start_body(body_type, expect));
                    let ghost ev = Event::HeadersFinished(body_type, expect);
                    self.events = Ghost(self.events@.push(ev));
                    assert(self.events@ =~= old(self).events@ + opt_seq(Some(ev)));
                    (Progress::Next(pos + n), Ghost(Some(ev)))
                }
            },
            Parsed::Incomplete => (Progress::Stop, Ghost(None)),
            Parsed::Error => (Progress::Fail(HttpParserError::BadHeader), Ghost(None)),
        }
    }

    fn chunk_header_step(&mut self, input: &[u8], pos: usize, kind: Ghost<ParserType>)
        -> (r: (Progress, Ghost<Option<Event>>))
        requires
            old(self).wf(),
            pos <= input@.len(),
            old(self).model().state == ParserState::Body(BodyTypeState::Chunked(ChunkedState::Header)),
        ensures
            Self::step_post(*old(self), *final(self), input@, pos as int, kind@, r.0, r.1@),
    {
        reveal(step);
        let rest = slice_subrange(input, pos, input.len());
        assert(self.events@ =~= old(self).events@ + opt_seq(None));
        match chunk_size_line(rest) {
            Parsed::Done(n, size) => {
                if size == 0 {
                    self.body_finished = true;
                    self.current_state = ParserState::Headers;
                } else {
                    self.current_state = ParserState::Body(BodyTypeState::Chunked(ChunkedState::Data(size)));
                }
                (Progress::Next(pos + n), Ghost(None))
            },
            Parsed::Incomplete => (Progress::Stop, Ghost(None)),
            Parsed::Error => (Progress::Fail(HttpParserError::BadBodyChunkHeader), Ghost(None)),
        }
    }

    fn data_end_step(&mut self, input: &[u8], pos: usize, kind: Ghost<ParserType>)
        -> (r: (Progress, Ghost<Option<Event>>))
        requires
            old(self).wf(),
            pos <= input@.len(),
            old(self).model().state == ParserState::Body(BodyTypeState::Chunked(ChunkedState::DataEnd)),
        ensures
            Self::step_post(*old(self), *final(self), input@, pos as int, kind@, r.0, r.1@),
    {
        reveal(step);
        let rest = slice_subrange(input, pos, input.len());
        assert(self.events@ =~= old(self).events@ + opt_seq(None));
        match empty_line(rest) {
            Parsed::Done(n, _) => {
                self.current_state = ParserState::Body(BodyTypeState::Chunked(ChunkedState::Header));
                (Progress::Next(pos + n), Ghost(None))
            },
            Parsed::Incomplete => (Progress::Stop, Ghost(None)),
            Parsed::Error => (Progress::Fail(HttpParserError::BadBodyChunkHeader), Ghost(None)),
        }
    }

    fn length_step<T: HttpMessageCallbacks>(&mut self, cb: &mut T, input: &[u8], pos: usize, kind: Ghost<ParserType>, n: usize)
        -> (r: (Progress, Ghost<Option<Event>>))
        requires
            old(self).wf(),
            pos <= input@.len(),
            old(self).model().state == ParserState::Body(BodyTypeState::Length(n)),
        ensures
            Self::step_post(*old(self), *final(self), input@, pos as int, kind@, r.0, r.1@),
    {
        reveal(step);
        let more = if input.len() - pos < n { n - (input.len() - pos) } else { 0 };
        let r = self.counted(cb, input, pos, n, ParserState::Done, ParserState::Body(BodyTypeState::Length(more)));
        proof {
            if r.0 is Stop {
                assert(self.events@ =~= old(self).events@ + opt_seq(None));
            }
        }
        r
    }

    fn data_step<T: HttpMessageCallbacks>(&mut self, cb: &mut T, input: &[u8], pos: usize, kind: Ghost<ParserType>, n: usize)
        -> (r: (Progress, Ghost<Option<Event>>))
        requires
            old(self).wf(),
            pos <= input@.len(),
            old(self).model().state == ParserState::Body(BodyTypeState::Chunked(ChunkedState::Data(n))),
        ensures
            Self::step_post(*old(self), *final(self), input@, pos as int, kind@, r.0, r.1@),
    {
        reveal(step);
        let more = if input.len() - pos < n { n - (input.len() - pos) } else { 0 };
        let r = self.counted(
            cb, input, pos, n,
            ParserState::Body(BodyTypeState::Chunked(ChunkedState::DataEnd)),
            ParserState::Body(BodyTypeState::Chunked(ChunkedState::Data(more))));
        proof {
            if r.0 is Stop {
                assert(self.events@ =~= old(self).events@ + opt_seq(None));
            }
        }
        r
    }

    fn eof_step<T: HttpMessageCallbacks>(&mut self, cb: &mut T, input: &[u8], pos: usize, kind: Ghost<ParserType>)
        -> (r: (Progress, Ghost<Option<Event>>))
        requires
            old(self).wf(),
            pos <= input@.len(),
            old(self).model().state == ParserState::Body(BodyTypeState::EOF),
        ensures
            Self::step_post(*old(self), *final(self), input@, pos as int, kind@, r.0, r.1@),
    {
        reveal(step);
        if pos == input.len() {
            assert(self.events@ =~= old(self).events@ + opt_seq(None));
            (Progress::Stop, Ghost(None))
        } else {
            cb.on_chunk(&*self, slice_subrange(input, pos, input.len()));
            let ghost ev = Event::Chunk(Span { start: pos, end: input.len() });
            self.events = Ghost(self.events@.push(ev));
            assert(self.events@ =~= old(self).events@ + opt_seq(Some(ev)));
            (Progress::Next(input.len()), Ghost(Some(ev)))
        }
    }

    fn end_step<T: HttpMessageCallbacks>(&mut self, cb: &mut T, input: &[u8], pos: usize, kind: Ghost<ParserType>)
        -> (r: (Progress, Ghost<Option<Event>>))
        requires
            old(self).wf(),
            pos <= input@.len(),
            old(self).model().state == ParserState::Done,
        ensures
            Self::step_post(*old(self), *final(self), input@, pos as int, kind@, r.0, r.1@),
    {
        reveal(step);
        cb.on_end(&*self);
        self.body_type = match self.parser_type {
            ParserType::Request => BodyType::NoBody,
            ParserType::Response => BodyType::EOF,
        };
        self.body_finished = false;
        self.current_state = ParserState::FirstLine;
        self.expect_body = ExpectBody::Maybe;
        self.events = Ghost(self.events@.push(Event::End));
        assert(self.events@ =~= old(self).events@ + opt_seq(Some(Event::End)));
        (Progress::Next(pos), Ghost(Some(Event::End)))
    }

    /// One transition from the current state on `input` from `pos`.
    fn one_step<T: HttpMessageCallbacks>(&mut self, cb: &mut T, input: &[u8], pos: usize, kind: Ghost<ParserType>)
        -> (r: (Progress, Ghost<Option<Event>>))
        requires
            old(self).wf(),
            pos <= input@.len(),
            old(self).model().state != ParserState::FirstLine,
        ensures
            Self::step_post(*old(self), *final(self), input@, pos as int, kind@, r.0, r.1@),
    {
        reveal(step);
        match self.current_state {
            ParserState::FirstLine => (Progress::Stop, Ghost(None)),
            ParserState::Headers => self.header_step(cb, input, pos, kind),
            ParserState::HeaderEnd => self.header_end_step(cb, input, pos, kind),
            ParserState::Body(BodyTypeState::Length(n)) => self.length_step(cb, input, pos, kind, n),
            ParserState::Body(BodyTypeState::Chunked(ChunkedState::Header)) => self.chunk_header_step(input, pos, kind),
            ParserState::Body(BodyTypeState::Chunked(ChunkedState::Data(n))) => self.data_step(cb, input, pos, kind, n),
            ParserState::Body(BodyTypeState::Chunked(ChunkedState::DataEnd)) => self.data_end_step(input, pos, kind),
            ParserState::Body(BodyTypeState::EOF) => self.eof_step(cb, input, pos, kind),
            ParserState::Body(BodyTypeState::NoBody) => {
                self.current_state = ParserState::Done;
                assert(self.events@ =~= old(self).events@ + opt_seq(None));
                (Progress::Next(pos), Ghost(None))
            },
            ParserState::Done => self.end_step(cb, input, pos, kind),
        }
    }
    /// Runs transitions from `start` until one needs more input or fails, or the message
    /// ends; `m0` is the state at the start of the call, on which the run so far began.
    fn drive<T: HttpMessageCallbacks>(
        &mut self,
        cb: &mut T,
        input: &[u8],
        start: usize,
        kind: Ghost<ParserType>,
        m0: Ghost<ParserModel>,
    ) -> (r: Result<usize, HttpParserError>)
        requires
            old(self).wf(),
            start <= input@.len(),
            old(self).model().state != ParserState::FirstLine,
            old(self).model().parser_type == m0@.parser_type,
            forall|a: ExpectBody| #[trigger] run(m0@, input@, 0, kind@, a)
                == prepend(old(self).events@, run(old(self).model(), input@, start as int, kind@, a)),
            events_in(old(self).events@, 0, start as int),
            no_end(old(self).events@),
        ensures
            final(self).wf(),
            run(m0@, input@, 0, kind@, final(self).answer@)
                == (FeedResult { result: r, events: final(self).events@, model: final(self).model() }),
            r matches Ok(n) ==> start <= n <= input@.len() && events_in(final(self).events@, 0, n as int),
            events_in(final(self).events@, 0, input@.len() as int),
            final(self).events@.len() > 0 && final(self).events@.last() == Event::End
                ==> final(self).model() == initial_model(m0@.parser_type),
    {
        let mut pos = start;
        let ghost mut answered = false;
        loop
            invariant
                self.wf(),
                start <= pos <= input@.len(),
                self.model().state != ParserState::FirstLine,
                self.model().parser_type == m0@.parser_type,
                answered ==> past_headers(self.model()),
                forall|a: ExpectBody| (answered ==> a == self.answer@) ==> #[trigger] run(m0@, input@, 0, kind@, a)
                    == prepend(self.events@, run(self.model(), input@, pos as int, kind@, a)),
                events_in(self.events@, 0, pos as int),
                no_end(self.events@),
            decreases input@.len() - pos, rank(self.model().state),
        {
            let ghost m1 = self.model();
            let ghost e1 = self.events@;
            let ghost ans1 = self.answer@;
            let was_done = matches!(self.current_state, ParserState::Done);
            let (progress, ev) = self.one_step(cb, input, pos, kind);
            let ghost answered2 = answered || asks_sink(m1);
            proof {
                assert forall|a: ExpectBody| (answered2 ==> a == self.answer@) implies #[trigger] run(m0@, input@, 0, kind@, a)
                    == prepend(e1, run(m1, input@, pos as int, kind@, a)) by {
                    if answered {
                        assert(self.answer@ == ans1);
                    }
                }
                assert forall|a: ExpectBody| (answered2 ==> a == self.answer@) implies
                    step(m1, input@, pos as int, kind@, a) == as_step(progress, self.model(), ev@) by {
                }
                assert(forall|i: int| 0 <= i < e1.len() ==> self.events@[i] == e1[i]);
                if ev@ is Some {
                    assert(self.events@[e1.len() as int] == ev@->Some_0);
                }
            }
            match progress {
                Progress::Next(p) => {
                    if was_done {
                        proof {
                            assert forall|a: ExpectBody| (answered2 ==> a == self.answer@) implies #[trigger] run(m0@, input@, 0, kind@, a)
                                == (FeedResult { result: Ok::<usize, HttpParserError>(p), events: self.events@, model: self.model() }) by {
                                assert(run(m1, input@, pos as int, kind@, a) == FeedResult {
                                    result: Ok::<usize, HttpParserError>(p), events: seq![Event::End], model: self.model() });
                            }
                        }
                        return Ok(p);
                    }
                    proof {
                        assert forall|a: ExpectBody| (answered2 ==> a == self.answer@) implies #[trigger] run(m0@, input@, 0, kind@, a)
                            == prepend(self.events@, run(self.model(), input@, p as int, kind@, a)) by {
                            assert(run(m1, input@, pos as int, kind@, a)
                                == prepend(opt_seq(ev@), run(self.model(), input@, p as int, kind@, a)));
                            lemma_prepend_assoc(e1, opt_seq(ev@), run(self.model(), input@, p as int, kind@, a));
                        }
                        answered = answered2;
                    }
                    pos = p;
                },
                Progress::Stop => {
                    proof {
                        assert(self.events@ =~= e1);
                        assert forall|a: ExpectBody| (answered2 ==> a == self.answer@) implies #[trigger] run(m0@, input@, 0, kind@, a)
                            == (FeedResult { result: Ok::<usize, HttpParserError>(pos), events: self.events@, model: self.model() }) by {
                            assert(step(m1, input@, pos as int, kind@, a) == Step::Stop);
                            assert(run(m1, input@, pos as int, kind@, a)
                                == FeedResult { result: Ok::<usize, HttpParserError>(pos), events: seq![], model: m1 });
                            lemma_prepend_empty_right(e1, run(m1, input@, pos as int, kind@, a));
                        }
                    }
                    return Ok(pos);
                },
                Progress::Fail(e) => {
                    return Err(e);
                },
            }
        }
    }

    fn request_line_step<T: HttpRequestCallbacks>(&mut self, cb: &mut T, input: &[u8], kind: Ghost<ParserType>)
        -> (r: (Progress, Ghost<Option<Event>>))
        requires
            old(self).wf(),
            old(self).model().state == ParserState::FirstLine,
            kind@ == ParserType::Request,
        ensures
            Self::step_post(*old(self), *final(self), input@, 0, kind@, r.0, r.1@),
    {
        reveal(step);
        assert(input@.subrange(0, input@.len() as int) =~= input@);
        match request_line(input) {
            Parsed::Done(n, l) => {
                let line = RequestLine {
                    method: slice_subrange(input, l.method.start, l.method.end),
                    path: slice_subrange(input, l.path.start, l.path.end),
                    version: (
                        slice_subrange(input, l.major.start, l.major.end),
                        slice_subrange(input, l.minor.start, l.minor.end),
                    ),
                };
                cb.on_request_line(&*self, &line);
                self.current_state = ParserState::Headers;
                let ghost ev = Event::RequestLine(l);
                assert(shift_request(l, 0) == l);
                self.events = Ghost(self.events@.push(ev));
                assert(self.events@ =~= old(self).events@ + opt_seq(Some(ev)));
                (Progress::Next(n), Ghost(Some(ev)))
            },
            Parsed::Incomplete => {
                assert(self.events@ =~= old(self).events@ + opt_seq(None));
                (Progress::Stop, Ghost(None))
            },
            Parsed::Error => {
                assert(self.events@ =~= old(self).events@ + opt_seq(None));
                (Progress::Fail(HttpParserError::BadFirstLine), Ghost(None))
            },
        }
    }

    fn response_line_step<T: HttpResponseCallbacks>(&mut self, cb: &mut T, input: &[u8], kind: Ghost<ParserType>)
        -> (r: (Progress, Ghost<Option<Event>>))
        requires
            old(self).wf(),
            old(self).model().state == ParserState::FirstLine,
            kind@ == ParserType::Response,
        ensures
            Self::step_post(*old(self), *final(self), input@, 0, kind@, r.0, r.1@),
    {
        reveal(step);
        assert(input@.subrange(0, input@.len() as int) =~= input@);
        match response_line(input) {
            Parsed::Done(n, l) => {
                let line = ResponseLine {
                    version: (
                        slice_subrange(input, l.major.start, l.major.end),
                        slice_subrange(input, l.minor.start, l.minor.end),
                    ),
                    code: l.code,
                    phrase: slice_subrange(input, l.phrase.start, l.phrase.end),
                };
                cb.on_response_line(&*self, &line);
                self.current_state = ParserState::Headers;
                let ghost ev = Event::ResponseLine(l);
                assert(shift_response(l, 0) == l);
                self.events = Ghost(self.events@.push(ev));
                assert(self.events@ =~= old(self).events@ + opt_seq(Some(ev)));
                (Progress::Next(n), Ghost(Some(ev)))
            },
            Parsed::Incomplete => {
                assert(self.events@ =~= old(self).events@ + opt_seq(None));
                (Progress::Stop, Ghost(None))
            },
            Parsed::Error => {
                assert(self.events@ =~= old(self).events@ + opt_seq(None));
                (Progress::Fail(HttpParserError::BadFirstLine), Ghost(None))
            },
        }
    }

    /// Goes on from the start line's transition `first` (nothing, where the parser was not at
    /// a start line) to the end of the call.
    fn finish_feed<'r, T: HttpMessageCallbacks>(
        &mut self,
        cb: &mut T,
        input: &'r [u8],
        first: Option<(Progress, Ghost<Option<Event>>)>,
        kind: Ghost<ParserType>,
        m0: Ghost<ParserModel>,
        before: Ghost<HttpParser>,
    ) -> (r: HttpParserResult<&'r [u8]>)
        requires
            old(self).wf(),
            m0@ == before@.model(),
            before@.events@ == Seq::<Event>::empty(),
            match first {
                Some((p, e)) => before@.model().state == ParserState::FirstLine
                    && Self::step_post(before@, *old(self), input@, 0, kind@, p, e@),
                None => before@.model().state != ParserState::FirstLine && *old(self) == before@,
            },
        ensures
            final(self).wf(),
            feed_agrees(run(m0@, input@, 0, kind@, final(self).last_answer()), input@, r,
                final(self).last_events(), final(self).model()),
            feed_bounds(input@, r, final(self).last_events()),
            ends_message(final(self).last_events()) ==> final(self).model() == initial_model(m0@.parser_type),
    {
        assert(input@.subrange(0, input@.len() as int) =~= input@);
        let start = match first {
            Some((Progress::Next(n), ev)) => {
                proof {
                    assert forall|a: ExpectBody| #[trigger] run(m0@, input@, 0, kind@, a)
                        == prepend(self.events@, run(self.model(), input@, n as int, kind@, a)) by {
                        assert(step(m0@, input@, 0, kind@, a) == Step::Next(self.model(), n, ev@));
                        assert(self.events@ =~= opt_seq(ev@));
                    }
                }
                n
            },
            Some((Progress::Stop, _)) => {
                proof {
                    assert(step(m0@, input@, 0, kind@, self.answer@) == Step::Stop);
                    assert(self.events@ =~= Seq::<Event>::empty());
                }
                return Ok(input);
            },
            Some((Progress::Fail(e), ev)) => {
                proof {
                    assert(step(m0@, input@, 0, kind@, self.answer@) == Step::Fail(ev@, e));
                    assert(self.events@ =~= opt_seq(ev@));
                }
                return Err(e);
            },
            None => {
                proof {
                    assert forall|a: ExpectBody| #[trigger] run(m0@, input@, 0, kind@, a)
                        == prepend(self.events@, run(self.model(), input@, 0, kind@, a)) by {
                        lemma_prepend_empty(run(self.model(), input@, 0, kind@, a));
                    }
                }
                0
            },
        };
        match self.drive(cb, input, start, kind, m0) {
            Ok(n) => Ok(slice_subrange(input, n, input.len())),
            Err(e) => Err(e),
        }
    }

    /// Feeds the parser bytes of a stream of requests (see `HttpParser`): consumes a prefix of
    /// `input`, hands the sink its events, and returns the rest, a suffix of `input`.
    pub fn parse_request<'r, T: HttpRequestCallbacks>(&mut self, cb: &mut T, input: &'r [u8])
        -> (r: HttpParserResult<&'r [u8]>)
        requires
            old(self).wf(),
        ensures
            final(self).wf(),
            feed_agrees(run(old(self).model(), input@, 0, ParserType::Request, final(self).last_answer()),
                input@, r, final(self).last_events(), final(self).model()),
            feed_bounds(input@, r, final(self).last_events()),
            ends_message(final(self).last_events()) ==> final(self).model() == initial_model(old(self).model().parser_type),
    {
        let ghost m0 = self.model();
        self.events = Ghost(Seq::empty());
        let ghost before = *self;
        let first = if matches!(self.current_state, ParserState::FirstLine) {
            Some(self.request_line_step(cb, input, Ghost(ParserType::Request)))
        } else {
            None
        };
        self.finish_feed(cb, input, first, Ghost(ParserType::Request), Ghost(m0), Ghost(before))
    }

    /// Feeds the parser bytes of a stream of responses (see `HttpParser`): consumes a prefix
    /// of `input`, hands the sink its events, and returns the rest, a suffix of `input`.
    pub fn parse_response<'r, T: HttpResponseCallbacks>(&mut self, cb: &mut T, input: &'r [u8])
        -> (r: HttpParserResult<&'r [u8]>)
        requires
            old(self).wf(),
        ensures
            final(self).wf(),
            feed_agrees(run(old(self).model(), input@, 0, ParserType::Response, final(self).last_answer()),
                input@, r, final(self).last_events(), final(self).model()),
            feed_bounds(input@, r, final(self).last_events()),
            ends_message(final(self).last_events()) ==> final(self).model() == initial_model(old(self).model().parser_type),
    {
        let ghost m0 = self.model();
        self.events = Ghost(Seq::empty());
        let ghost before = *self;
        let first = if matches!(self.current_state, ParserState::FirstLine) {
            Some(self.response_line_step(cb, input, Ghost(ParserType::Response)))
        } else {
            None
        };
        self.finish_feed(cb, input, first, Ghost(ParserType::Response), Ghost(m0), Ghost(before))
    }
}

} // verus!
