use std::collections::HashMap;
use std::str;

use stream_http::{
    dec_buf_to_int, BodyType, ExpectBody, HttpHeaderParseError, HttpMessageCallbacks, HttpParser,
    HttpParserError, HttpRequestCallbacks, HttpResponseCallbacks, IntegerDecodeError, ParserType,
    RequestLine, ResponseLine,
};

#[derive(PartialEq, Eq, Debug)]
struct TestRequestHttpCallback {
    method: String,
    path: String,
    version: (usize, usize),
    headers: HashMap<String, String>,
    chunks: String,
    finished: bool,
}

impl TestRequestHttpCallback {
    fn new() -> TestRequestHttpCallback {
        TestRequestHttpCallback {
            method: String::new(),
            path: String::new(),
            version: (0, 0),
            headers: HashMap::new(),
            chunks: String::new(),
            finished: false,
        }
    }
}

impl HttpRequestCallbacks for TestRequestHttpCallback {
    fn on_request_line(&mut self, _: &HttpParser, request: &RequestLine) {
        self.method = String::from_utf8(request.method.to_owned()).unwrap();
        self.path = String::from_utf8(request.path.to_owned()).unwrap();
        self.version = (
            dec_buf_to_int(request.version.0).unwrap(),
            dec_buf_to_int(request.version.1).unwrap(),
        );
    }
}

impl HttpMessageCallbacks for TestRequestHttpCallback {
    fn on_header(&mut self, _: &HttpParser, name: &[u8], value: &[u8]) {
        self.headers.insert(String::from_utf8(name.to_owned()).unwrap(), String::from_utf8(value.to_owned()).unwrap());
    }
    fn on_headers_finished(&mut self, _: &HttpParser, _: BodyType) -> ExpectBody {
        ExpectBody::Maybe
    }
    fn on_chunk(&mut self, _: &HttpParser, data: &[u8]) {
        self.chunks.push_str(str::from_utf8(data).unwrap());
    }
    fn on_end(&mut self, _: &HttpParser) {
        self.finished = true;
    }
}

#[derive(PartialEq, Eq, Debug)]
struct TestResponseHttpCallback {
    version: (usize, usize),
    code: u16,
    phrase: String,
    headers: HashMap<String, String>,
    chunks: String,
    finished: bool,
    expect_body: ExpectBody,
}

impl TestResponseHttpCallback {
    fn new(expect_body: ExpectBody) -> TestResponseHttpCallback {
        TestResponseHttpCallback {
            version: (0, 0),
            code: 0,
            phrase: String::new(),
            headers: HashMap::new(),
            chunks: String::new(),
            finished: false,
            expect_body,
        }
    }
}

impl HttpResponseCallbacks for TestResponseHttpCallback {
    fn on_response_line(&mut self, _: &HttpParser, response: &ResponseLine) {
        self.version = (
            dec_buf_to_int(response.version.0).unwrap(),
            dec_buf_to_int(response.version.1).unwrap(),
        );
        self.code = response.code;
        self.phrase = String::from_utf8(response.phrase.to_owned()).unwrap();
    }
}

impl HttpMessageCallbacks for TestResponseHttpCallback {
    fn on_header(&mut self, _: &HttpParser, name: &[u8], value: &[u8]) {
        self.headers.insert(String::from_utf8(name.to_owned()).unwrap(), String::from_utf8(value.to_owned()).unwrap());
    }
    fn on_headers_finished(&mut self, _: &HttpParser, _: BodyType) -> ExpectBody {
        self.expect_body
    }
    fn on_chunk(&mut self, _: &HttpParser, data: &[u8]) {
        self.chunks.push_str(str::from_utf8(data).unwrap());
    }
    fn on_end(&mut self, _: &HttpParser) {
        self.finished = true;
    }
}

/// Every event, in order, with the bytes it carried.
#[derive(PartialEq, Eq, Debug, Clone)]
enum Ev {
    Request(Vec<u8>, Vec<u8>, Vec<u8>, Vec<u8>),
    Response(Vec<u8>, Vec<u8>, u16, Vec<u8>),
    Header(Vec<u8>, Vec<u8>),
    HeadersFinished(BodyType),
    Chunk(Vec<u8>),
    End,
}

struct Recorder {
    events: Vec<Ev>,
    answer: ExpectBody,
}

impl Recorder {
    fn new(answer: ExpectBody) -> Recorder {
        Recorder { events: Vec::new(), answer }
    }

    /// The events, with adjacent body chunks joined.
    fn joined(&self) -> Vec<Ev> {
        let mut out: Vec<Ev> = Vec::new();
        for e in &self.events {
            if let (Some(Ev::Chunk(prev)), Ev::Chunk(more)) = (out.last_mut(), e) {
                prev.extend_from_slice(more);
                continue;
            }
            out.push(e.clone());
        }
        out
    }
}

impl HttpRequestCallbacks for Recorder {
    fn on_request_line(&mut self, _: &HttpParser, r: &RequestLine) {
        self.events.push(Ev::Request(r.method.to_vec(), r.path.to_vec(), r.version.0.to_vec(), r.version.1.to_vec()));
    }
}

impl HttpResponseCallbacks for Recorder {
    fn on_response_line(&mut self, _: &HttpParser, r: &ResponseLine) {
        self.events.push(Ev::Response(r.version.0.to_vec(), r.version.1.to_vec(), r.code, r.phrase.to_vec()));
    }
}

impl HttpMessageCallbacks for Recorder {
    fn on_header(&mut self, _: &HttpParser, name: &[u8], value: &[u8]) {
        self.events.push(Ev::Header(name.to_vec(), value.to_vec()));
    }
    fn on_headers_finished(&mut self, _: &HttpParser, body_type: BodyType) -> ExpectBody {
        self.events.push(Ev::HeadersFinished(body_type));
        self.answer
    }
    fn on_chunk(&mut self, _: &HttpParser, data: &[u8]) {
        assert!(!data.is_empty());
        self.events.push(Ev::Chunk(data.to_vec()));
    }
    fn on_end(&mut self, _: &HttpParser) {
        self.events.push(Ev::End);
    }
}

fn map(pairs: &[(&str, &str)]) -> HashMap<String, String> {
    pairs.iter().map(|(k, v)| (k.to_string(), v.to_string())).collect()
}

fn request(method: &str, path: &str, version: (usize, usize), headers: HashMap<String, String>, chunks: &str) -> TestRequestHttpCallback {
    TestRequestHttpCallback {
        method: method.to_owned(),
        path: path.to_owned(),
        version,
        headers,
        chunks: chunks.to_owned(),
        finished: true,
    }
}

/// Feeds the whole input three times over one parser, then, over a new parser, feeds it again
/// and again, each time with what the last call left, once per byte of the input.
fn check_request(input: &[u8], expected: &TestRequestHttpCallback) {
    let mut http_parser = HttpParser::new(ParserType::Request);
    for _ in 0..3 {
        let mut cb = TestRequestHttpCallback::new();
        http_parser.parse_request(&mut cb, input).unwrap();
        assert_eq!(expected, &cb);
    }
    let mut http_parser = HttpParser::new(ParserType::Request);
    for _ in 0..3 {
        let mut cb = TestRequestHttpCallback::new();
        let mut curr_input = input;
        for _ in 1..input.len() + 1 {
            curr_input = http_parser.parse_request(&mut cb, curr_input).unwrap();
        }
        assert_eq!(expected, &cb);
    }
}

fn check_response(input: &[u8], expected: &TestResponseHttpCallback) {
    let mut http_parser = HttpParser::new(ParserType::Response);
    for _ in 0..3 {
        let mut cb = TestResponseHttpCallback::new(expected.expect_body);
        http_parser.parse_response(&mut cb, input).unwrap();
        assert_eq!(expected, &cb);
    }
    let mut http_parser = HttpParser::new(ParserType::Response);
    for _ in 0..3 {
        let mut cb = TestResponseHttpCallback::new(expected.expect_body);
        let mut curr_input = input;
        for _ in 1..input.len() + 1 {
            curr_input = http_parser.parse_response(&mut cb, curr_input).unwrap();
        }
        assert_eq!(expected, &cb);
    }
}

/// Feeds `input` in pieces of `size` bytes, keeping what each call leaves in front of the
/// next piece, as a caller reading from a socket would.
fn feed_in_pieces(parser_type: ParserType, input: &[u8], size: usize, answer: ExpectBody) -> Recorder {
    let mut parser = HttpParser::new(parser_type);
    let mut sink = Recorder::new(answer);
    let mut pending: Vec<u8> = Vec::new();
    for piece in input.chunks(size) {
        pending.extend_from_slice(piece);
        loop {
            let before = pending.len();
            let rest = match parser_type {
                ParserType::Request => parser.parse_request(&mut sink, &pending).unwrap(),
                ParserType::Response => parser.parse_response(&mut sink, &pending).unwrap(),
            };
            assert!(pending.ends_with(rest));
            pending = rest.to_vec();
            if pending.len() == before || pending.is_empty() {
                break;
            }
        }
    }
    sink
}

fn feed_whole(parser_type: ParserType, input: &[u8], answer: ExpectBody) -> Recorder {
    feed_in_pieces(parser_type, input, input.len().max(1), answer)
}

fn b(s: &str) -> Vec<u8> {
    s.as_bytes().to_vec()
}

const SCENARIO_A: &[u8] = b"GET /test_url/ HTTP/1.0\r\nContent-Length: 5\r\n\r\nHello";

#[test]
fn test_consumer() {
    let mut cb = TestRequestHttpCallback::new();
    let mut http_parser = HttpParser::new(ParserType::Request);
    http_parser.parse_request(&mut cb, SCENARIO_A).unwrap();

    assert_eq!("GET", cb.method);
    assert_eq!("/test_url/", &cb.path);
    assert_eq!((1, 0), cb.version);

    assert_eq!(1, cb.headers.len());
    for (name, value) in &cb.headers {
        assert_eq!("Content-Length", name);
        assert_eq!("5", value);
    }

    assert_eq!("Hello", cb.chunks);
    assert!(cb.finished);
}

fn chunked_expected() -> TestRequestHttpCallback {
    request("GET", "/test_url/", (1, 0), map(&[("Transfer-Encoding", "chunked"), ("TestName", "TestValue")]), "Hello")
}

#[test]
fn chunked_trailing() {
    check_request(b"GET /test_url/ HTTP/1.0\nTransfer-Encoding: chunked\n\n5\nHello\n0\nTestName: TestValue\n\n", &chunked_expected());
}

#[test]
fn chunked_no_trailing() {
    check_request(b"GET /test_url/ HTTP/1.0\nTransfer-Encoding: chunked\nTestName: TestValue\n\n5\nHello\n0\n\n", &chunked_expected());
}

#[test]
fn chunked_multi_chunked() {
    check_request(b"GET /test_url/ HTTP/1.0\nTransfer-Encoding: chunked\nTestName: TestValue\n\n2\nHe\n3\nllo\n0\n\n", &chunked_expected());
}

#[test]
fn chunked_params() {
    check_request(
        b"GET /test_url/ HTTP/1.0\nTransfer-Encoding: chunked\nTestName: TestValue\n\n5;foo=bar;another=param;no_val_param;q=\"Quoted Param\"\nHello\n0\n\n",
        &chunked_expected(),
    );
}

#[test]
fn github_request() {
    let input = b"GET /joyent/http-parser/ HTTP/1.1
Host: github.com
Connection: keep-alive
Cache-Control: max-age=0
Accept: text/html,application/xhtml+xml,application/xml;q=0.9,image/webp,*/*;q=0.8
User-Agent: Mozilla/5.0 (X11; Linux x86_64) AppleWebKit/537.36 (KHTML, like Gecko) Chrome/44.0.2403.9 Safari/537.36
Referer: https://github.com/joyent/http-parser
Accept-Encoding: gzip, deflate, sdch
Accept-Language: en-GB,en-US;q=0.8,en;q=0.6,nb;q=0.4

";
    let expected = request(
        "GET",
        "/joyent/http-parser/",
        (1, 1),
        map(&[
            ("Host", "github.com"),
            ("Connection", "keep-alive"),
            ("Cache-Control", "max-age=0"),
            ("Accept", "text/html,application/xhtml+xml,application/xml;q=0.9,image/webp,*/*;q=0.8"),
            ("User-Agent", "Mozilla/5.0 (X11; Linux x86_64) AppleWebKit/537.36 (KHTML, like Gecko) Chrome/44.0.2403.9 Safari/537.36"),
            ("Referer", "https://github.com/joyent/http-parser"),
            ("Accept-Encoding", "gzip, deflate, sdch"),
            ("Accept-Language", "en-GB,en-US;q=0.8,en;q=0.6,nb;q=0.4"),
        ]),
        "",
    );
    check_request(input, &expected);
}

#[test]
fn resp_chunked_trailing() {
    let expected = TestResponseHttpCallback {
        version: (1, 0),
        code: 200,
        phrase: "OK".to_owned(),
        headers: map(&[("Transfer-Encoding", "chunked"), ("TestName", "TestValue")]),
        chunks: "Hello".to_owned(),
        finished: true,
        expect_body: ExpectBody::Maybe,
    };
    check_response(b"HTTP/1.0 200 OK\nTransfer-Encoding: chunked\n\n5\nHello\n0\nTestName: TestValue\n\n", &expected);
}

#[test]
fn resp_head() {
    let expected = TestResponseHttpCallback {
        version: (1, 0),
        code: 200,
        phrase: "OK".to_owned(),
        headers: map(&[("Content-Length", "52"), ("TestName", "TestValue")]),
        chunks: "".to_owned(),
        finished: true,
        expect_body: ExpectBody::No,
    };
    check_response(b"HTTP/1.0 200 OK\nContent-Length: 52\nTestName: TestValue\n\n", &expected);
}

fn scenario_a_events() -> Vec<Ev> {
    vec![
        Ev::Request(b("GET"), b("/test_url/"), b("1"), b("0")),
        Ev::Header(b("Content-Length"), b("5")),
        Ev::HeadersFinished(BodyType::Length(5)),
        Ev::Chunk(b("Hello")),
        Ev::End,
    ]
}

#[test]
fn content_length_events() {
    assert_eq!(feed_whole(ParserType::Request, SCENARIO_A, ExpectBody::Maybe).events, scenario_a_events());
}

#[test]
fn byte_by_byte_matches_whole() {
    let sink = feed_in_pieces(ParserType::Request, SCENARIO_A, 1, ExpectBody::Maybe);
    assert_eq!(sink.joined(), scenario_a_events());
    assert_eq!(sink.events.iter().filter(|e| matches!(e, Ev::Chunk(_))).count(), 5);
}

#[test]
fn chunked_events() {
    let input = b"GET /test_url/ HTTP/1.0\nTransfer-Encoding: chunked\nTestName: TestValue\n\n2\nHe\n3\nllo\n0\n\n";
    assert_eq!(
        feed_whole(ParserType::Request, input, ExpectBody::Maybe).events,
        vec![
            Ev::Request(b("GET"), b("/test_url/"), b("1"), b("0")),
            Ev::Header(b("Transfer-Encoding"), b("chunked")),
            Ev::Header(b("TestName"), b("TestValue")),
            Ev::HeadersFinished(BodyType::Chunked),
            Ev::Chunk(b("He")),
            Ev::Chunk(b("llo")),
            Ev::End,
        ]
    );
}

#[test]
fn chunked_trailer_events() {
    let input = b"GET /test_url/ HTTP/1.0\nTransfer-Encoding: chunked\n\n5\nHello\n0\nTestName: TestValue\n\n";
    assert_eq!(
        feed_whole(ParserType::Request, input, ExpectBody::Maybe).events,
        vec![
            Ev::Request(b("GET"), b("/test_url/"), b("1"), b("0")),
            Ev::Header(b("Transfer-Encoding"), b("chunked")),
            Ev::HeadersFinished(BodyType::Chunked),
            Ev::Chunk(b("Hello")),
            Ev::Header(b("TestName"), b("TestValue")),
            Ev::End,
        ]
    );
}

#[test]
fn head_response_events() {
    let input = b"HTTP/1.0 200 OK\nContent-Length: 52\nTestName: TestValue\n\n";
    let mut parser = HttpParser::new(ParserType::Response);
    let mut sink = Recorder::new(ExpectBody::No);
    let rest = parser.parse_response(&mut sink, input).unwrap();
    assert!(rest.is_empty());
    assert_eq!(
        sink.events,
        vec![
            Ev::Response(b("1"), b("0"), 200, b("OK")),
            Ev::Header(b("Content-Length"), b("52")),
            Ev::Header(b("TestName"), b("TestValue")),
            Ev::HeadersFinished(BodyType::Length(52)),
            Ev::End,
        ]
    );
}

#[test]
fn every_split_gives_the_same_events() {
    let inputs: [&[u8]; 4] = [
        SCENARIO_A,
        b"GET /test_url/ HTTP/1.0\r\nTransfer-Encoding: chunked\r\nX: a\r\n  b\r\n\r\n5;q=\"x y\"\r\nHello\r\n10\r\n0123456789abcdef\r\n0\r\nT: v\r\n\r\n",
        b"GET / HTTP/1.1\r\nContent-Length: 0\r\n\r\n",
        b"GET /a HTTP/1.1\r\nContent-Length: 2\r\n\r\nhiGET /b HTTP/1.1\r\n\r\n",
    ];
    for input in inputs {
        let whole = feed_whole(ParserType::Request, input, ExpectBody::Maybe).joined();
        for size in 1..input.len() {
            assert_eq!(feed_in_pieces(ParserType::Request, input, size, ExpectBody::Maybe).joined(), whole, "size {}", size);
        }
    }
}

#[test]
fn split_between_cr_and_lf() {
    let input = b"GET / HTTP/1.1\r\nA: b\r\n\r\n";
    let mut parser = HttpParser::new(ParserType::Request);
    let mut sink = Recorder::new(ExpectBody::Maybe);
    let rest = parser.parse_request(&mut sink, &input[..15]).unwrap();
    assert_eq!(rest, b"GET / HTTP/1.1\r");
    assert!(sink.events.is_empty());
    let rest = parser.parse_request(&mut sink, &input[..]).unwrap();
    assert!(rest.is_empty());
    assert_eq!(sink.events.len(), 4);
}

#[test]
fn split_inside_obs_fold() {
    let input = b"GET / HTTP/1.1\r\nX: one\r\n two\r\n\r\n";
    let mut parser = HttpParser::new(ParserType::Request);
    let mut sink = Recorder::new(ExpectBody::Maybe);
    let rest = parser.parse_request(&mut sink, &input[..24]).unwrap();
    assert_eq!(rest, b"X: one\r\n");
    assert_eq!(sink.events.len(), 1);
    let mut again = rest.to_vec();
    again.extend_from_slice(&input[24..]);
    let rest = parser.parse_request(&mut sink, &again).unwrap();
    assert!(rest.is_empty());
    assert_eq!(sink.events[1], Ev::Header(b("X"), b("one\r\n two")));
    assert_eq!(sink.events.last(), Some(&Ev::End));
}

#[test]
fn split_inside_chunk_size_line() {
    let input = b"GET / HTTP/1.1\r\nTransfer-Encoding: chunked\r\n\r\n1";
    let mut parser = HttpParser::new(ParserType::Request);
    let mut sink = Recorder::new(ExpectBody::Maybe);
    let rest = parser.parse_request(&mut sink, input).unwrap();
    assert_eq!(rest, b"1");
    let mut again = rest.to_vec();
    again.extend_from_slice(b"0\r\n0123456789abcdef\r\n0\r\n\r\n");
    let rest = parser.parse_request(&mut sink, &again).unwrap();
    assert!(rest.is_empty());
    assert_eq!(sink.joined()[3], Ev::Chunk(b("0123456789abcdef")));
    assert_eq!(sink.events.last(), Some(&Ev::End));
}

#[test]
fn pipelined_requests() {
    let input = b"GET /a HTTP/1.1\r\nContent-Length: 2\r\n\r\nhiGET /b HTTP/1.1\r\n\r\n";
    let mut parser = HttpParser::new(ParserType::Request);
    let mut sink = Recorder::new(ExpectBody::Maybe);
    let rest = parser.parse_request(&mut sink, input).unwrap();
    assert_eq!(rest, b"GET /b HTTP/1.1\r\n\r\n");
    assert_eq!(sink.events.last(), Some(&Ev::End));
    let rest = parser.parse_request(&mut sink, rest).unwrap();
    assert!(rest.is_empty());
    assert_eq!(
        sink.events,
        vec![
            Ev::Request(b("GET"), b("/a"), b("1"), b("1")),
            Ev::Header(b("Content-Length"), b("2")),
            Ev::HeadersFinished(BodyType::Length(2)),
            Ev::Chunk(b("hi")),
            Ev::End,
            Ev::Request(b("GET"), b("/b"), b("1"), b("1")),
            Ev::HeadersFinished(BodyType::NoBody),
            Ev::End,
        ]
    );
}

#[test]
fn framing_resets_between_messages() {
    let mut parser = HttpParser::new(ParserType::Request);
    let mut sink = Recorder::new(ExpectBody::Maybe);
    parser.parse_request(&mut sink, b"POST / HTTP/1.1\r\nTransfer-Encoding: chunked\r\n\r\n0\r\n\r\n").unwrap();
    assert_eq!(parser.body_type, BodyType::NoBody);
    parser.parse_request(&mut sink, b"GET / HTTP/1.1\r\n\r\n").unwrap();
    assert_eq!(sink.events[sink.events.len() - 2], Ev::HeadersFinished(BodyType::NoBody));
}

#[test]
fn content_length_zero_ends_at_once() {
    let sink = feed_whole(ParserType::Request, b"GET / HTTP/1.1\r\nContent-Length: 0\r\n\r\nNEXT", ExpectBody::Maybe);
    assert_eq!(
        sink.events,
        vec![
            Ev::Request(b("GET"), b("/"), b("1"), b("1")),
            Ev::Header(b("Content-Length"), b("0")),
            Ev::HeadersFinished(BodyType::Length(0)),
            Ev::End,
        ]
    );
}

#[test]
fn response_with_empty_phrase() {
    let sink = feed_whole(ParserType::Response, b"HTTP/1.1 204 \r\n\r\n", ExpectBody::No);
    assert_eq!(
        sink.events,
        vec![Ev::Response(b("1"), b("1"), 204, b("")), Ev::HeadersFinished(BodyType::EOF), Ev::End]
    );
}

#[test]
fn response_until_close() {
    let mut parser = HttpParser::new(ParserType::Response);
    let mut sink = Recorder::new(ExpectBody::Maybe);
    let rest = parser.parse_response(&mut sink, b"HTTP/1.1 200 OK\r\n\r\nsome").unwrap();
    assert!(rest.is_empty());
    let rest = parser.parse_response(&mut sink, b" more").unwrap();
    assert!(rest.is_empty());
    assert_eq!(
        sink.events,
        vec![
            Ev::Response(b("1"), b("1"), 200, b("OK")),
            Ev::HeadersFinished(BodyType::EOF),
            Ev::Chunk(b("some")),
            Ev::Chunk(b(" more")),
        ]
    );
}

#[test]
fn framing_headers_ignore_case() {
    let lower = feed_whole(ParserType::Request, b"GET / HTTP/1.1\r\ntransfer-encoding: CHUNKED\r\n\r\n1\r\nx\r\n0\r\n\r\n", ExpectBody::Maybe);
    assert_eq!(lower.events[2], Ev::HeadersFinished(BodyType::Chunked));
    assert_eq!(lower.events[3], Ev::Chunk(b("x")));
    let upper = feed_whole(ParserType::Request, b"GET / HTTP/1.1\r\nCONTENT-LENGTH: 1\r\n\r\nx", ExpectBody::Maybe);
    assert_eq!(upper.events[2], Ev::HeadersFinished(BodyType::Length(1)));
}

#[test]
fn later_framing_header_wins() {
    let sink = feed_whole(
        ParserType::Request,
        b"GET / HTTP/1.1\r\nTransfer-Encoding: chunked\r\nContent-Length: 3\r\n\r\nabc",
        ExpectBody::Maybe,
    );
    assert_eq!(sink.events[3], Ev::HeadersFinished(BodyType::Length(3)));
}

fn request_error(input: &[u8]) -> HttpParserError {
    let mut parser = HttpParser::new(ParserType::Request);
    let mut sink = Recorder::new(ExpectBody::Maybe);
    parser.parse_request(&mut sink, input).unwrap_err()
}

#[test]
fn bad_first_line() {
    assert_eq!(request_error(b"GET /\r\n"), HttpParserError::BadFirstLine);
    let mut parser = HttpParser::new(ParserType::Response);
    let mut sink = Recorder::new(ExpectBody::Maybe);
    assert_eq!(parser.parse_response(&mut sink, b"HTTP/1.1 OK\r\n"), Err(HttpParserError::BadFirstLine));
    let mut parser = HttpParser::new(ParserType::Response);
    assert_eq!(parser.parse_response(&mut sink, b"HTTP/1.1 200\r\n\r\n"), Err(HttpParserError::BadFirstLine));
    let mut parser = HttpParser::new(ParserType::Response);
    assert_eq!(parser.parse_response(&mut sink, b"HTTP/1.1 20 OK\r\n"), Err(HttpParserError::BadFirstLine));
    assert!(sink.events.is_empty());
}

#[test]
fn bad_header() {
    assert_eq!(request_error(b"GET / HTTP/1.1\r\nno colon here\r\n\r\n"), HttpParserError::BadHeader);
}

#[test]
fn bad_content_length() {
    assert_eq!(
        request_error(b"GET / HTTP/1.1\r\nContent-Length: -5\r\n\r\n"),
        HttpParserError::BadHeaderValue(HttpHeaderParseError::ContentLength(IntegerDecodeError::InvalidChar(b'-')))
    );
    assert_eq!(
        request_error(b"GET / HTTP/1.1\r\nContent-Length: 12345678901234567890\r\n\r\n"),
        HttpParserError::BadHeaderValue(HttpHeaderParseError::ContentLength(IntegerDecodeError::TooLong(20)))
    );
}

#[test]
fn unrecognized_transfer_encoding() {
    assert_eq!(
        request_error(b"GET / HTTP/1.1\r\nTransfer-Encoding: gzip, chunked\r\n\r\n"),
        HttpParserError::BadHeaderValue(HttpHeaderParseError::UnrecognizedTransferEncoding)
    );
}

#[test]
fn bad_chunk_header() {
    assert_eq!(
        request_error(b"GET / HTTP/1.1\r\nTransfer-Encoding: chunked\r\n\r\nzz\r\n"),
        HttpParserError::BadBodyChunkHeader
    );
    assert_eq!(
        request_error(b"GET / HTTP/1.1\r\nTransfer-Encoding: chunked\r\n\r\n1\r\nxy\r\n"),
        HttpParserError::BadBodyChunkHeader
    );
}

#[test]
fn header_error_converts() {
    let e: HttpParserError = HttpHeaderParseError::UnrecognizedTransferEncoding.into();
    assert_eq!(e, HttpParserError::BadHeaderValue(HttpHeaderParseError::UnrecognizedTransferEncoding));
}

/// Records where each slice handed to it lies in memory.
struct AddressRecorder {
    ranges: Vec<(usize, usize)>,
}

impl AddressRecorder {
    fn note(&mut self, data: &[u8]) {
        let start = data.as_ptr() as usize;
        self.ranges.push((start, start + data.len()));
    }
}

impl HttpRequestCallbacks for AddressRecorder {
    fn on_request_line(&mut self, _: &HttpParser, r: &RequestLine) {
        self.note(r.method);
        self.note(r.path);
        self.note(r.version.0);
        self.note(r.version.1);
    }
}

impl HttpMessageCallbacks for AddressRecorder {
    fn on_header(&mut self, _: &HttpParser, name: &[u8], value: &[u8]) {
        self.note(name);
        self.note(value);
    }
    fn on_headers_finished(&mut self, _: &HttpParser, _: BodyType) -> ExpectBody {
        ExpectBody::Maybe
    }
    fn on_chunk(&mut self, _: &HttpParser, data: &[u8]) {
        self.note(data);
    }
    fn on_end(&mut self, _: &HttpParser) {}
}

#[test]
fn slices_lie_within_the_input() {
    let input = b"GET /x HTTP/1.1\r\nTransfer-Encoding: chunked\r\nA: b\r\n c\r\n\r\n3;p=\"q\"\r\nabc\r\n0\r\nT: u\r\n\r\n".to_vec();
    let mut parser = HttpParser::new(ParserType::Request);
    let mut sink = AddressRecorder { ranges: Vec::new() };
    let rest = parser.parse_request(&mut sink, &input).unwrap();
    assert!(rest.is_empty());
    let lo = input.as_ptr() as usize;
    let hi = lo + input.len();
    assert_eq!(sink.ranges.len(), 4 + 2 * 3 + 1);
    for (start, end) in sink.ranges {
        assert!(lo <= start && start <= end && end <= hi);
    }
}

#[test]
fn rest_is_a_suffix_after_whole_units() {
    let input = b"GET /a HTTP/1.1\r\nHost: x\r\nAccept: y";
    let mut parser = HttpParser::new(ParserType::Request);
    let mut sink = Recorder::new(ExpectBody::Maybe);
    let rest = parser.parse_request(&mut sink, input).unwrap();
    assert_eq!(rest, b"Accept: y");
    assert!(input.ends_with(rest));
    assert_eq!(
        sink.events,
        vec![Ev::Request(b("GET"), b("/a"), b("1"), b("1")), Ev::Header(b("Host"), b("x"))]
    );
}

#[test]
fn three_pipelined_requests_one_per_call() {
    let input = b"GET /a HTTP/1.1\r\n\r\nPOST /b HTTP/1.1\r\nTransfer-Encoding: chunked\r\n\r\n2\r\nhi\r\n0\r\n\r\nGET /c HTTP/1.1\r\nContent-Length: 1\r\n\r\nx";
    let mut parser = HttpParser::new(ParserType::Request);
    let mut rest: &[u8] = input;
    let mut ends = Vec::new();
    for _ in 0..3 {
        let mut sink = Recorder::new(ExpectBody::Maybe);
        rest = parser.parse_request(&mut sink, rest).unwrap();
        assert_eq!(sink.events.iter().filter(|e| **e == Ev::End).count(), 1);
        assert_eq!(sink.events.last(), Some(&Ev::End));
        assert_eq!(parser.body_type, BodyType::NoBody);
        ends.push(rest.len());
    }
    assert_eq!(ends, vec![input.len() - 19, 39, 0]);
}
