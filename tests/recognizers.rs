use stream_http::parsers::{
    chunk_header, chunk_size_line, empty_line, header, request_line, response_line, take_header_value,
    ChunkHeader, ChunkParam, HeaderSpans, Parsed, RequestLineSpans, Span,
};

fn text(input: &[u8], sp: Span) -> &[u8] {
    &input[sp.start..sp.end]
}

fn header_of(input: &[u8]) -> (&[u8], &[u8]) {
    match header(input) {
        Parsed::Done(_, HeaderSpans { name, value }) => (text(input, name), text(input, value)),
        other => panic!("not a header: {:?}", other),
    }
}

fn params_of(input: &[u8]) -> (usize, Vec<(Vec<u8>, Option<Vec<u8>>)>) {
    match chunk_header(input) {
        Parsed::Done(_, ChunkHeader { size, parameters }) => (
            size,
            parameters
                .iter()
                .map(|p: &ChunkParam| (text(input, p.name).to_vec(), p.value.map(|v| text(input, v).to_vec())))
                .collect(),
        ),
        other => panic!("not a chunk header: {:?}", other),
    }
}

#[test]
fn test_take_header() {
    let input = b"wibble\r\nabc";
    match take_header_value(input, 0) {
        Parsed::Done(lf, end) => {
            assert_eq!(&input[end..], &b"\r\nabc"[..]);
            assert_eq!(&input[..end], &b"wibble"[..]);
            assert_eq!(lf, 7);
        },
        other => panic!("{:?}", other),
    }
}

#[test]
fn take_header_value_refuses_an_empty_value() {
    assert_eq!(take_header_value(b"\r\nX", 0), Parsed::Error);
    assert_eq!(take_header_value(b"  \r\n \r\nX", 0), Parsed::Error);
    assert_eq!(take_header_value(b"a\r\n b \r\nX", 0), Parsed::Done(7, 5));
    assert_eq!(take_header_value(b"abc\r\n", 0), Parsed::Incomplete);
}

#[test]
fn test_request_line_incomplete() {
    let incomplete = [&b"G"[..], &b"GET"[..], &b"GET /"[..], &b"GET /asad/ HTTP/1.1"[..]];
    for i in incomplete.iter() {
        match request_line(i) {
            Parsed::Incomplete => {},
            d => panic!("Not incomplete: {:?}: {:?}", String::from_utf8_lossy(i), d),
        }
    }
}

#[test]
fn test_chunk_param_incomplete() {
    let incomplete = [&b"5;"[..], &b"5; fo"[..], &b"5; foo="[..]];
    for i in incomplete.iter() {
        match chunk_header(i) {
            Parsed::Incomplete => {},
            d => panic!("Not incomplete: {:?}: {:?}", String::from_utf8_lossy(i), d),
        }
    }
}

#[test]
fn request_line_forms() {
    for input in [&b"GET /test_url/ HTTP/1.0\r\n"[..], &b"GET /test_url/ HTTP/1.0\n"[..], &b"GET  /test_url/ \t HTTP/1.0\t  \n"[..]] {
        match request_line(input) {
            Parsed::Done(n, RequestLineSpans { method, path, major, minor }) => {
                assert_eq!(n, input.len());
                assert_eq!(text(input, method), b"GET");
                assert_eq!(text(input, path), b"/test_url/");
                assert_eq!(text(input, major), b"1");
                assert_eq!(text(input, minor), b"0");
            },
            other => panic!("{:?}", other),
        }
    }
}

#[test]
fn request_line_errors() {
    assert_eq!(request_line(b"GET\r\n"), Parsed::Error);
    assert_eq!(request_line(b" GET / HTTP/1.1\n"), Parsed::Error);
    assert_eq!(request_line(b"GET / HTTQ/1.1\n"), Parsed::Error);
    assert_eq!(request_line(b"GET / HTTP/x.1\n"), Parsed::Error);
    assert_eq!(request_line(b"GET / HTTP/1.1 x\n"), Parsed::Error);
}

#[test]
fn response_line_forms() {
    let input = b"HTTP/1.1 404 Not Found\r\nrest";
    match response_line(input) {
        Parsed::Done(n, l) => {
            assert_eq!(n, 24);
            assert_eq!(l.code, 404);
            assert_eq!(text(input, l.phrase), b"Not Found");
            assert_eq!(text(input, l.major), b"1");
            assert_eq!(text(input, l.minor), b"1");
        },
        other => panic!("{:?}", other),
    }
}

#[test]
fn response_line_empty_phrase() {
    for input in [&b"HTTP/1.1 204 \r\n"[..], &b"HTTP/1.1 204  \n"[..], &b"HTTP/1.1 204\t\n"[..]] {
        match response_line(input) {
            Parsed::Done(n, l) => {
                assert_eq!(n, input.len());
                assert_eq!(l.code, 204);
                assert_eq!(text(input, l.phrase), b"");
            },
            other => panic!("{:?}", other),
        }
    }
}

#[test]
fn response_line_errors() {
    assert_eq!(response_line(b"HTTP/1.1 2000 OK\n"), Parsed::Error);
    assert_eq!(response_line(b"HTTP/1.1 204\r\n"), Parsed::Error);
    assert_eq!(response_line(b"HTTP/1.1 204\n"), Parsed::Error);
    assert_eq!(response_line(b"HTTP/1.1 20 OK\r\n"), Parsed::Error);
    assert_eq!(response_line(b"HTTP/1.1 600 Odd\n"), Parsed::Error);
    assert_eq!(response_line(b"HTTP/1.1 099 Odd\n"), Parsed::Error);
    assert_eq!(response_line(b"HTTP/1.1 20"), Parsed::Incomplete);
    assert_eq!(response_line(b"HTTP/1.1 200 OK"), Parsed::Incomplete);
}

#[test]
fn header_forms() {
    for input in [
        &b"Content-Length: 52\r\nfoo..."[..],
        &b"Content-Length: 52\nfoo..."[..],
        &b"Content-Length   : 52\nfoo..."[..],
        &b"Content-Length\t:52\nfoo..."[..],
        &b"Content-Length: 52  \r\nfoo..."[..],
    ] {
        assert_eq!(header_of(input), (&b"Content-Length"[..], &b"52"[..]));
    }
}

#[test]
fn header_obs_fold() {
    let input = b"Content-Length: test\r\n and\r\n another\r\n\r\n";
    assert_eq!(header_of(input), (&b"Content-Length"[..], &b"test\r\n and\r\n another"[..]));
    match header(input) {
        Parsed::Done(n, _) => assert_eq!(n, input.len() - 2),
        other => panic!("{:?}", other),
    }
}

#[test]
fn header_needs_the_byte_after_its_line() {
    assert_eq!(header(b"Name: value\r\n"), Parsed::Incomplete);
    assert_eq!(header(b"Name: value\r\n "), Parsed::Incomplete);
    assert_eq!(header(b"Name"), Parsed::Incomplete);
    assert_eq!(header(b""), Parsed::Incomplete);
}

#[test]
fn header_errors() {
    assert_eq!(header(b"\r\n"), Parsed::Error);
    assert_eq!(header(b"\n"), Parsed::Error);
    assert_eq!(header(b"Name value\r\nX"), Parsed::Error);
    assert_eq!(header(b"Name:   \r\nX"), Parsed::Error);
    assert_eq!(header(b": value\r\nX"), Parsed::Error);
}

#[test]
fn empty_line_forms() {
    assert_eq!(empty_line(b"\r\n"), Parsed::Done(2, ()));
    assert_eq!(empty_line(b"\nX"), Parsed::Done(1, ()));
    assert_eq!(empty_line(b"\r"), Parsed::Incomplete);
    assert_eq!(empty_line(b""), Parsed::Incomplete);
    assert_eq!(empty_line(b"\rX"), Parsed::Error);
    assert_eq!(empty_line(b"X"), Parsed::Error);
}

#[test]
fn chunk_header_forms() {
    assert_eq!(params_of(b"F8\n"), (248, vec![]));
    assert_eq!(params_of(b"F8 \r\n"), (248, vec![]));
    let named = vec![(b"name".to_vec(), Some(b"val".to_vec()))];
    assert_eq!(params_of(b"F8;name=val\n"), (248, named.clone()));
    assert_eq!(params_of(b"F8 ; name = val \r\n"), (248, named));
}

#[test]
fn chunk_parameters() {
    let foo_bar = vec![(b"foo".to_vec(), Some(b"bar".to_vec()))];
    for input in [&b"1;foo = bar \n"[..], &b"1;foo=bar\n"[..], &b"1;foo=\"bar\"\n"[..]] {
        assert_eq!(params_of(input), (1, foo_bar.clone()));
    }
    let foo = vec![(b"foo".to_vec(), None)];
    for input in [&b"1;  foo \r\n"[..], &b"1;foo\n"[..]] {
        assert_eq!(params_of(input), (1, foo.clone()));
    }
    assert_eq!(
        params_of(b"5;foo=bar;another=param;no_val_param;q=\"Quoted Param\"\n"),
        (
            5,
            vec![
                (b"foo".to_vec(), Some(b"bar".to_vec())),
                (b"another".to_vec(), Some(b"param".to_vec())),
                (b"no_val_param".to_vec(), None),
                (b"q".to_vec(), Some(b"Quoted Param".to_vec())),
            ]
        )
    );
    assert_eq!(params_of(b"1;q=\"a\\\"b\"\n"), (1, vec![(b"q".to_vec(), Some(b"a\\\"b".to_vec()))]));
}

#[test]
fn chunk_header_errors() {
    assert_eq!(chunk_header(b"G\n"), Parsed::Error);
    assert_eq!(chunk_header(b"5 x\n"), Parsed::Error);
    assert_eq!(chunk_header(b"5;\n"), Parsed::Error);
    assert_eq!(chunk_header(b"1;q=\"a\x01\"\n"), Parsed::Error);
    assert_eq!(chunk_header(b"10000000000000000\n"), Parsed::Error);
    assert_eq!(chunk_header(b"5\r"), Parsed::Incomplete);
    assert_eq!(chunk_header(b"5;q=\"ab"), Parsed::Incomplete);
}

#[test]
fn chunk_size_line_keeps_the_size_only() {
    assert_eq!(chunk_size_line(b"F8;name=val\r\nrest"), Parsed::Done(13, 248));
    assert_eq!(chunk_size_line(b"5;q=\"Quoted Param\"\n"), Parsed::Done(19, 5));
    assert_eq!(chunk_size_line(b"5; foo="), Parsed::Incomplete);
    assert_eq!(chunk_size_line(b"5;\n"), Parsed::Error);
}
