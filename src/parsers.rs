//! The grammar of HTTP/1.x lines: request line, status line, header field with folded lines,
//! blank line and chunk header. Each recognizer tells a complete item from one that needs more
//! bytes and from one that can never be completed.
use vstd::prelude::*;

use crate::integer_decoder::{hex_buf_to_int, hex_decode_spec};
use crate::lexer::{
    byte, literal, many0, many1, one_of, opt_byte, scan_many0, scan_many1, take_byte,
    take_literal, take_one_of, take_opt_byte, ByteClass, Cursor, CR, LF,
};

verus! {

/// The outcome of a recognizer on a byte slice.
#[derive(Debug, PartialEq, Eq)]
pub enum Parsed<T> {
    /// The first `usize` bytes form the item.
    Done(usize, T),
    /// What was seen can still begin an item: more bytes are needed.
    Incomplete,
    /// What was seen can never begin an item.
    Error,
}

/// The bytes `start..end` of a recognizer's input.
#[derive(Debug, Clone, Copy, PartialEq, Eq, Structural)]
pub struct Span {
    pub start: usize,
    pub end: usize,
}

/// The span `start..end`.
pub open spec fn span(start: usize, end: usize) -> Span {
    Span { start, end }
}

/// `sp` lies within `lo..hi`.
pub open spec fn span_in(sp: Span, lo: int, hi: int) -> bool {
    lo <= sp.start && sp.start <= sp.end && sp.end <= hi
}

/// Where the parts of a request line lie.
#[derive(Debug, Clone, Copy, PartialEq, Eq, Structural)]
pub struct RequestLineSpans {
    pub method: Span,
    pub path: Span,
    pub major: Span,
    pub minor: Span,
}

/// Where the parts of a status line lie, and its status code.
#[derive(Debug, Clone, Copy, PartialEq, Eq, Structural)]
pub struct ResponseLineSpans {
    pub major: Span,
    pub minor: Span,
    pub code: u16,
    pub phrase: Span,
}

/// Where the name and the value of a header field lie.
#[derive(Debug, Clone, Copy, PartialEq, Eq, Structural)]
pub struct HeaderSpans {
    pub name: Span,
    pub value: Span,
}

/// Carries a failed part of a recognizer over to its whole.
pub open spec fn fail<T>(c: Cursor) -> Parsed<T> {
    if c is Incomplete { Parsed::Incomplete } else { Parsed::Error }
}

/// `HTTP/`
pub open spec fn http_prefix() -> Seq<u8> {
    seq![72u8, 84u8, 84u8, 80u8, 47u8]
}

/// `[CR] LF`.
#[verifier::opaque]
pub open spec fn empty_line_spec(s: Seq<u8>) -> Parsed<()> {
    match opt_byte(s, 0, CR) {
        Cursor::At(a) => match byte(s, a as int, LF) {
            Cursor::At(e) => Parsed::Done(e, ()),
            c => fail(c),
        },
        c => fail(c),
    }
}

/// `"HTTP/" DIGIT+ "." DIGIT+`, from `i`: the two digit runs and where the version ends.
pub open spec fn version_spec(s: Seq<u8>, i: int) -> Parsed<(Span, Span)> {
    match literal(s, i, http_prefix()) {
        Cursor::At(v0) => match many1(s, v0 as int, ByteClass::Digit) {
            Cursor::At(v1) => match byte(s, v1 as int, 46) {
                Cursor::At(v2) => match many1(s, v2 as int, ByteClass::Digit) {
                    Cursor::At(v3) => Parsed::Done(v3, (span(v0, v1), span(v2, v3))),
                    c => fail(c),
                },
                c => fail(c),
            },
            c => fail(c),
        },
        c => fail(c),
    }
}

/// `[SP|HT]* [CR] LF`, from `i`.
pub open spec fn line_end_spec(s: Seq<u8>, i: int) -> Cursor {
    match many0(s, i, ByteClass::Blank) {
        Cursor::At(a) => match opt_byte(s, a as int, CR) {
            Cursor::At(b) => byte(s, b as int, LF),
            c => c,
        },
        c => c,
    }
}

/// `method SP+ path SP+ "HTTP/" DIGIT+ "." DIGIT+ [SP+] [CR] LF`, where method and path are
/// runs of bytes other than space, tab, CR and LF, and SP stands for a space or a tab.
#[verifier::opaque]
pub open spec fn request_line_spec(s: Seq<u8>) -> Parsed<RequestLineSpans> {
    match many1(s, 0, ByteClass::Word) {
        Cursor::At(m) => match many1(s, m as int, ByteClass::Blank) {
            Cursor::At(path_start) => match many1(s, path_start as int, ByteClass::Word) {
                Cursor::At(path_end) => match many1(s, path_end as int, ByteClass::Blank) {
                    Cursor::At(h) => match version_spec(s, h as int) {
                        Parsed::Done(v, (major, minor)) => match line_end_spec(s, v as int) {
                            Cursor::At(e) => Parsed::Done(
                                e,
                                RequestLineSpans { method: span(0, m), path: span(path_start, path_end), major, minor },
                            ),
                            c => fail(c),
                        },
                        Parsed::Incomplete => Parsed::Incomplete,
                        Parsed::Error => Parsed::Error,
                    },
                    c => fail(c),
                },
                c => fail(c),
            },
            c => fail(c),
        },
        c => fail(c),
    }
}

/// Recognizes a blank line, with or without its CR.
pub fn empty_line(s: &[u8]) -> (r: Parsed<()>)
    ensures
        r == empty_line_spec(s@),
        r matches Parsed::Done(n, _) ==> 0 < n <= s@.len(),
{
    reveal(empty_line_spec);
    let a = match take_opt_byte(s, 0, CR) {
        Cursor::At(a) => a,
        Cursor::Incomplete => return Parsed::Incomplete,
        Cursor::Error => return Parsed::Error,
    };
    match take_byte(s, a, LF) {
        Cursor::At(e) => Parsed::Done(e, ()),
        Cursor::Incomplete => Parsed::Incomplete,
        Cursor::Error => Parsed::Error,
    }
}

/// The status code that three decimal digits spell.
pub open spec fn code_value(d0: u8, d1: u8, d2: u8) -> int {
    (d0 - 48) * 100 + (d1 - 48) * 10 + (d2 - 48)
}

/// From `i`, the end of the line that a status line's reason phrase runs to: the position of
/// its LF, and the end of the phrase, which leaves out a CR before that LF.
pub open spec fn phrase_spec(s: Seq<u8>, i: int) -> Parsed<usize> {
    match many0(s, i, ByteClass::NotLf) {
        Cursor::At(lf) => {
            let end = if lf > i && s[lf - 1] == CR { (lf - 1) as usize } else { lf };
            Parsed::Done(lf, end)
        },
        c => fail(c),
    }
}

/// `"HTTP/" DIGIT+ "." DIGIT+ SP+ 3DIGIT SP+ phrase [CR] LF`, with a status code from 100 to
/// 599; the phrase, possibly empty, runs to the end of the line and leaves out a CR before
/// the LF.
#[verifier::opaque]
pub open spec fn response_line_spec(s: Seq<u8>) -> Parsed<ResponseLineSpans> {
    match version_spec(s, 0) {
        Parsed::Done(v, (major, minor)) => match many1(s, v as int, ByteClass::Blank) {
            Cursor::At(c0) => match one_of(s, c0 as int, ByteClass::Digit) {
                Cursor::At(c1) => match one_of(s, c1 as int, ByteClass::Digit) {
                    Cursor::At(c2) => match one_of(s, c2 as int, ByteClass::Digit) {
                        Cursor::At(c3) => {
                            let code = code_value(s[c0 as int], s[c1 as int], s[c2 as int]);
                            if code < 100 || code > 599 {
                                Parsed::Error
                            } else {
                                match many1(s, c3 as int, ByteClass::Blank) {
                                    Cursor::At(p) => match phrase_spec(s, p as int) {
                                        Parsed::Done(lf, end) => Parsed::Done(
                                            (lf + 1) as usize,
                                            ResponseLineSpans { major, minor, code: code as u16, phrase: span(p, end) },
                                        ),
                                        Parsed::Incomplete => Parsed::Incomplete,
                                        Parsed::Error => Parsed::Error,
                                    },
                                    c => fail(c),
                                }
                            }
                        },
                        c => fail(c),
                    },
                    c => fail(c),
                },
                c => fail(c),
            },
            c => fail(c),
        },
        Parsed::Incomplete => Parsed::Incomplete,
        Parsed::Error => Parsed::Error,
    }
}

/// Scans a header value from `j`, where `end` is the end of the value seen so far: the
/// position of the LF that ends the field, one not followed by a space or a tab (an LF
/// followed by one folds the value onto the next line), and the end of the value, after its
/// last byte other than space, tab, CR and LF.
pub open spec fn value_scan(s: Seq<u8>, j: int, end: int) -> Parsed<usize>
    decreases s.len() - j,
{
    if j < 0 || j >= s.len() {
        Parsed::Incomplete
    } else if s[j] == LF {
        if j + 1 >= s.len() {
            Parsed::Incomplete
        } else if s[j + 1] == 32 || s[j + 1] == 9 {
            value_scan(s, j + 2, end)
        } else {
            Parsed::Done(j as usize, end as usize)
        }
    } else if s[j] == 32 || s[j] == 9 || s[j] == CR {
        value_scan(s, j + 1, end)
    } else {
        value_scan(s, j + 1, j + 1)
    }
}

/// A byte that belongs to a header value's text: not a space, a tab, a CR or an LF.
pub open spec fn is_value_byte(b: u8) -> bool {
    !(b == 32 || b == 9 || b == CR || b == LF)
}

proof fn lemma_value_scan_from(s: Seq<u8>, start: int, j: int, end: int)
    requires
        0 <= start <= end <= j <= s.len(),
        s.len() <= usize::MAX,
        end > start ==> is_value_byte(s[end - 1]),
        forall|k: int| end <= k < j ==> !is_value_byte(#[trigger] s[k]),
        forall|k: int| start <= k < j && #[trigger] s[k] == LF ==> k + 1 < j && (s[k + 1] == 32 || s[k + 1] == 9),
    ensures
        value_scan(s, j, end) matches Parsed::Done(lf, e) ==> {
            &&& start <= e <= lf && lf + 1 < s.len() && s[lf as int] == LF
            &&& !(s[lf + 1] == 32 || s[lf + 1] == 9)
            &&& (e > start ==> is_value_byte(s[e - 1]))
            &&& forall|k: int| e <= k < lf ==> !is_value_byte(#[trigger] s[k])
            &&& forall|k: int| start <= k < lf && #[trigger] s[k] == LF ==> (s[k + 1] == 32 || s[k + 1] == 9)
        },
        value_scan(s, j, end) is Incomplete ==> forall|k: int| start <= k < s.len() && #[trigger] s[k] == LF
            ==> (k + 1 == s.len() || s[k + 1] == 32 || s[k + 1] == 9),
        !(value_scan(s, j, end) is Error),
    decreases s.len() - j,
{
    if j < s.len() {
        if s[j] == LF {
            if j + 1 < s.len() && (s[j + 1] == 32 || s[j + 1] == 9) {
                lemma_value_scan_from(s, start, j + 2, end);
            }
        } else if s[j] == 32 || s[j] == 9 || s[j] == CR {
            lemma_value_scan_from(s, start, j + 1, end);
        } else {
            lemma_value_scan_from(s, start, j + 1, j + 1);
        }
    }
}

/// What a header value scan finds from `start`. Where it is done, `lf` is the first LF that is
/// followed by a byte other than a space or a tab (every LF before it folds the value onto the
/// next line), and the value ends at `end`, after its last byte other than a space, a tab, a
/// CR or an LF, or at `start` where it has none; `take_header_value` refuses that empty value.
/// Where it needs more bytes, no LF seen so far is followed by a byte other than a space or a
/// tab.
pub proof fn lemma_header_value_found(s: Seq<u8>, start: int)
    requires
        0 <= start <= s.len(),
        s.len() <= usize::MAX,
    ensures
        value_scan(s, start, start) matches Parsed::Done(lf, end) ==> {
            &&& start <= end <= lf && lf + 1 < s.len() && s[lf as int] == LF
            &&& !(s[lf + 1] == 32 || s[lf + 1] == 9)
            &&& (end > start ==> is_value_byte(s[end - 1]))
            &&& forall|k: int| end <= k < lf ==> !is_value_byte(#[trigger] s[k])
            &&& forall|k: int| start <= k < lf && #[trigger] s[k] == LF ==> (s[k + 1] == 32 || s[k + 1] == 9)
        },
        value_scan(s, start, start) is Incomplete ==> forall|k: int| start <= k < s.len() && #[trigger] s[k] == LF
            ==> (k + 1 == s.len() || s[k + 1] == 32 || s[k + 1] == 9),
        header_value_spec(s, start) is Error <==> (value_scan(s, start, start) is Done
            && value_scan(s, start, start)->Done_1 == start),
{
    lemma_value_scan_from(s, start, start, start);
}

/// A header value from `start`: `Done(lf, end)` where the field ends with the LF at `lf` and
/// the value ends at `end` (see `value_scan`); an empty value is refused.
pub open spec fn header_value_spec(s: Seq<u8>, start: int) -> Parsed<usize> {
    match value_scan(s, start, start) {
        Parsed::Done(lf, end) => if end == start { Parsed::Error } else { Parsed::Done(lf, end) },
        Parsed::Incomplete => Parsed::Incomplete,
        Parsed::Error => Parsed::Error,
    }
}

/// `token [SP|HT]* ":" [SP|HT]* value [CR] LF`, where the value, not empty, keeps its folded
/// lines and loses the blanks around it.
#[verifier::opaque]
pub open spec fn header_spec(s: Seq<u8>) -> Parsed<HeaderSpans> {
    match many1(s, 0, ByteClass::Token) {
        Cursor::At(n) => match many0(s, n as int, ByteClass::Blank) {
            Cursor::At(c) => match byte(s, c as int, 58) {
                Cursor::At(v) => match many0(s, v as int, ByteClass::Blank) {
                    Cursor::At(v0) => match header_value_spec(s, v0 as int) {
                        Parsed::Done(lf, end) => Parsed::Done(
                            (lf + 1) as usize,
                            HeaderSpans { name: span(0, n), value: span(v0, end) },
                        ),
                        Parsed::Incomplete => Parsed::Incomplete,
                        Parsed::Error => Parsed::Error,
                    },
                    c => fail(c),
                },
                c => fail(c),
            },
            c => fail(c),
        },
        c => fail(c),
    }
}

/// A parameter of a chunk header: its name and its value, if it has one; the value of a
/// quoted string is the text between the quotes, escapes left as they are.
#[derive(Debug, Clone, Copy, PartialEq, Eq, Structural)]
pub struct ChunkParam {
    pub name: Span,
    pub value: Option<Span>,
}

/// A chunk header: the chunk's size and its parameters, in order.
#[derive(Debug, PartialEq, Eq)]
pub struct ChunkHeader {
    pub size: usize,
    pub parameters: Vec<ChunkParam>,
}

/// A byte that may stand unescaped in a quoted string.
pub open spec fn is_qdtext(b: u8) -> bool {
    b == 32 || b == 9 || b == 0x21 || (0x23 <= b <= 0x5b) || (0x5d <= b <= 0x7e) || b >= 0x80
}

/// The rest of a quoted string from `j`: the position of its closing quote. A backslash
/// escapes the byte after it.
pub open spec fn quoted_end(s: Seq<u8>, j: int) -> Cursor
    decreases s.len() - j,
{
    if j < 0 || j >= s.len() {
        Cursor::Incomplete
    } else if s[j] == 92 {
        if j + 1 >= s.len() { Cursor::Incomplete } else { quoted_end(s, j + 2) }
    } else if s[j] == 34 {
        Cursor::At(j as usize)
    } else if is_qdtext(s[j]) {
        quoted_end(s, j + 1)
    } else {
        Cursor::Error
    }
}

proof fn lemma_quoted_from(s: Seq<u8>, start: int, j: int)
    requires
        0 <= start <= j,
        s.len() <= usize::MAX,
        forall|k: int| start <= k < j && k < s.len() && #[trigger] s[k] == 34 ==> k > start && s[k - 1] == 92,
    ensures
        quoted_end(s, j) matches Cursor::At(q) ==> j <= q < s.len() && s[q as int] == 34
            && forall|k: int| start <= k < q && #[trigger] s[k] == 34 ==> k > start && s[k - 1] == 92,
        quoted_end(s, j) is Error ==> exists|k: int| j <= k < s.len() && !is_qdtext(#[trigger] s[k]) && s[k] != 34 && s[k] != 92,
    decreases s.len() - j,
{
    if 0 <= j < s.len() {
        if s[j] == 92 {
            if j + 1 < s.len() {
                lemma_quoted_from(s, start, j + 2);
            }
        } else if s[j] != 34 && is_qdtext(s[j]) {
            lemma_quoted_from(s, start, j + 1);
        } else if s[j] != 34 {
            assert(!is_qdtext(s[j]) && s[j] != 34 && s[j] != 92);
        }
    }
}

/// What the rest of a quoted string from `j` comes to: where it ends, the byte is the closing
/// quote and every quote before it follows a backslash; where it is refused, a byte that may
/// not stand in a quoted string comes first.
pub proof fn lemma_quoted_end_found(s: Seq<u8>, j: int)
    requires
        0 <= j,
        s.len() <= usize::MAX,
    ensures
        quoted_end(s, j) matches Cursor::At(q) ==> j <= q < s.len() && s[q as int] == 34
            && forall|k: int| j <= k < q && #[trigger] s[k] == 34 ==> k > j && s[k - 1] == 92,
        quoted_end(s, j) is Error ==> exists|k: int| j <= k < s.len() && !is_qdtext(#[trigger] s[k]) && s[k] != 34 && s[k] != 92,
{
    lemma_quoted_from(s, j, j);
}

/// A parameter value from `d`: a quoted string or a token.
pub open spec fn param_value_spec(s: Seq<u8>, d: int) -> Parsed<Span> {
    if d < 0 || d >= s.len() {
        Parsed::Incomplete
    } else if s[d] == 34 {
        match quoted_end(s, d + 1) {
            Cursor::At(q) => Parsed::Done((q + 1) as usize, span((d + 1) as usize, q)),
            c => fail(c),
        }
    } else {
        match many1(s, d, ByteClass::Token) {
            Cursor::At(e) => Parsed::Done(e, span(d as usize, e)),
            c => fail(c),
        }
    }
}

/// `";" [SP] token [SP] ["=" [SP] (token | quoted-string) [SP]]` from `i`.
pub open spec fn chunk_param_spec(s: Seq<u8>, i: int) -> Parsed<ChunkParam> {
    match byte(s, i, 59) {
        Cursor::At(a) => match many0(s, a as int, ByteClass::Blank) {
            Cursor::At(b) => match many1(s, b as int, ByteClass::Token) {
                Cursor::At(ne) => match many0(s, ne as int, ByteClass::Blank) {
                    Cursor::At(c) => if s[c as int] == 61 {
                        match many0(s, c + 1, ByteClass::Blank) {
                            Cursor::At(d) => match param_value_spec(s, d as int) {
                                Parsed::Done(e, v) => match many0(s, e as int, ByteClass::Blank) {
                                    Cursor::At(f) => Parsed::Done(f, ChunkParam { name: span(b, ne), value: Some(v) }),
                                    k => fail(k),
                                },
                                Parsed::Incomplete => Parsed::Incomplete,
                                Parsed::Error => Parsed::Error,
                            },
                            k => fail(k),
                        }
                    } else {
                        Parsed::Done(c, ChunkParam { name: span(b, ne), value: None })
                    },
                    k => fail(k),
                },
                k => fail(k),
            },
            k => fail(k),
        },
        k => fail(k),
    }
}

/// The parameters from `i` on, after those in `acc`: the list ends at the first byte, other
/// than a blank, that is not `;`.
pub open spec fn chunk_params_spec(s: Seq<u8>, i: int, acc: Seq<ChunkParam>) -> Parsed<Seq<ChunkParam>>
    decreases s.len() - i,
{
    if i < 0 || i >= s.len() {
        Parsed::Incomplete
    } else if s[i] != 59 {
        Parsed::Done(i as usize, acc)
    } else {
        match chunk_param_spec(s, i) {
            Parsed::Done(f, p) => if i < f <= s.len() {
                chunk_params_spec(s, f as int, acc.push(p))
            } else {
                Parsed::Error
            },
            Parsed::Incomplete => Parsed::Incomplete,
            Parsed::Error => Parsed::Error,
        }
    }
}

/// What follows the parameters of a chunk header: `[CR] LF`.
pub open spec fn chunk_header_end(s: Seq<u8>, params: Parsed<Seq<ChunkParam>>, size: usize) -> Parsed<(usize, Seq<ChunkParam>)> {
    match params {
        Parsed::Done(i, ps) => match opt_byte(s, i as int, CR) {
            Cursor::At(j) => match byte(s, j as int, LF) {
                Cursor::At(e) => Parsed::Done(e, (size, ps)),
                k => fail(k),
            },
            k => fail(k),
        },
        Parsed::Incomplete => Parsed::Incomplete,
        Parsed::Error => Parsed::Error,
    }
}

/// `HEXDIGIT+ [SP] (";" [SP] token [SP] ["=" [SP] (token | quoted-string)] [SP])* [CR] LF`:
/// the size that the hexadecimal digits spell and the parameters.
#[verifier::opaque]
pub open spec fn chunk_header_spec(s: Seq<u8>) -> Parsed<(usize, Seq<ChunkParam>)> {
    match many1(s, 0, ByteClass::HexDigit) {
        Cursor::At(h) => match hex_decode_spec(s.subrange(0, h as int)) {
            Ok(size) => match many0(s, h as int, ByteClass::Blank) {
                Cursor::At(p) => chunk_header_end(s, chunk_params_spec(s, p as int, seq![]), size as usize),
                k => fail(k),
            },
            Err(_) => Parsed::Error,
        },
        k => fail(k),
    }
}

/// `r` is what `chunk_header_spec` gives.
pub open spec fn chunk_header_agrees(r: Parsed<ChunkHeader>, p: Parsed<(usize, Seq<ChunkParam>)>) -> bool {
    match (r, p) {
        (Parsed::Done(n, h), Parsed::Done(m, (size, ps))) => n == m && h.size == size && h.parameters@ == ps,
        (Parsed::Incomplete, Parsed::Incomplete) => true,
        (Parsed::Error, Parsed::Error) => true,
        _ => false,
    }
}

fn parse_version(s: &[u8], i: usize) -> (r: Parsed<(Span, Span)>)
    requires
        i <= s@.len(),
    ensures
        r == version_spec(s@, i as int),
        r matches Parsed::Done(n, v) ==> i <= n <= s@.len() && span_in(v.0, i as int, n as int)
            && span_in(v.1, i as int, n as int),
{
    let pat: [u8; 5] = [72, 84, 84, 80, 47];
    assert(pat@ == http_prefix());
    let v0 = match take_literal(s, i, pat.as_slice()) {
        Cursor::At(x) => x,
        Cursor::Incomplete => return Parsed::Incomplete,
        Cursor::Error => return Parsed::Error,
    };
    let v1 = match scan_many1(s, v0, ByteClass::Digit) {
        Cursor::At(x) => x,
        Cursor::Incomplete => return Parsed::Incomplete,
        Cursor::Error => return Parsed::Error,
    };
    let v2 = match take_byte(s, v1, 46) {
        Cursor::At(x) => x,
        Cursor::Incomplete => return Parsed::Incomplete,
        Cursor::Error => return Parsed::Error,
    };
    let v3 = match scan_many1(s, v2, ByteClass::Digit) {
        Cursor::At(x) => x,
        Cursor::Incomplete => return Parsed::Incomplete,
        Cursor::Error => return Parsed::Error,
    };
    Parsed::Done(v3, (Span { start: v0, end: v1 }, Span { start: v2, end: v3 }))
}

fn parse_line_end(s: &[u8], i: usize) -> (r: Cursor)
    requires
        i <= s@.len(),
    ensures
        r == line_end_spec(s@, i as int),
        r matches Cursor::At(e) ==> i <= e <= s@.len(),
{
    let a = match scan_many0(s, i, ByteClass::Blank) {
        Cursor::At(x) => x,
        c => return c,
    };
    let b = match take_opt_byte(s, a, CR) {
        Cursor::At(x) => x,
        c => return c,
    };
    take_byte(s, b, LF)
}

/// Recognizes a request line.
pub fn request_line(s: &[u8]) -> (r: Parsed<RequestLineSpans>)
    ensures
        r == request_line_spec(s@),
        r matches Parsed::Done(n, l) ==> 0 < n <= s@.len() && span_in(l.method, 0, n as int)
            && span_in(l.path, 0, n as int) && span_in(l.major, 0, n as int) && span_in(l.minor, 0, n as int),
{
    reveal(request_line_spec);
    let m = match scan_many1(s, 0, ByteClass::Word) {
        Cursor::At(x) => x,
        Cursor::Incomplete => return Parsed::Incomplete,
        Cursor::Error => return Parsed::Error,
    };
    let path_start = match scan_many1(s, m, ByteClass::Blank) {
        Cursor::At(x) => x,
        Cursor::Incomplete => return Parsed::Incomplete,
        Cursor::Error => return Parsed::Error,
    };
    let path_end = match scan_many1(s, path_start, ByteClass::Word) {
        Cursor::At(x) => x,
        Cursor::Incomplete => return Parsed::Incomplete,
        Cursor::Error => return Parsed::Error,
    };
    let h = match scan_many1(s, path_end, ByteClass::Blank) {
        Cursor::At(x) => x,
        Cursor::Incomplete => return Parsed::Incomplete,
        Cursor::Error => return Parsed::Error,
    };
    let (v, major, minor) = match parse_version(s, h) {
        Parsed::Done(v, (major, minor)) => (v, major, minor),
        Parsed::Incomplete => return Parsed::Incomplete,
        Parsed::Error => return Parsed::Error,
    };
    match parse_line_end(s, v) {
        Cursor::At(e) => Parsed::Done(
            e,
            RequestLineSpans { method: Span { start: 0, end: m }, path: Span { start: path_start, end: path_end }, major, minor },
        ),
        Cursor::Incomplete => Parsed::Incomplete,
        Cursor::Error => Parsed::Error,
    }
}

/// Recognizes a status line.
pub fn response_line(s: &[u8]) -> (r: Parsed<ResponseLineSpans>)
    ensures
        r == response_line_spec(s@),
        r matches Parsed::Done(n, l) ==> 0 < n <= s@.len() && span_in(l.major, 0, n as int)
            && span_in(l.minor, 0, n as int) && span_in(l.phrase, 0, n as int),
{
    reveal(response_line_spec);
    let (v, major, minor) = match parse_version(s, 0) {
        Parsed::Done(v, (major, minor)) => (v, major, minor),
        Parsed::Incomplete => return Parsed::Incomplete,
        Parsed::Error => return Parsed::Error,
    };
    let c0 = match scan_many1(s, v, ByteClass::Blank) {
        Cursor::At(x) => x,
        Cursor::Incomplete => return Parsed::Incomplete,
        Cursor::Error => return Parsed::Error,
    };
    let c1 = match take_one_of(s, c0, ByteClass::Digit) {
        Cursor::At(x) => x,
        Cursor::Incomplete => return Parsed::Incomplete,
        Cursor::Error => return Parsed::Error,
    };
    let c2 = match take_one_of(s, c1, ByteClass::Digit) {
        Cursor::At(x) => x,
        Cursor::Incomplete => return Parsed::Incomplete,
        Cursor::Error => return Parsed::Error,
    };
    let c3 = match take_one_of(s, c2, ByteClass::Digit) {
        Cursor::At(x) => x,
        Cursor::Incomplete => return Parsed::Incomplete,
        Cursor::Error => return Parsed::Error,
    };
    let code: u16 = (s[c0] - 48) as u16 * 100 + (s[c1] - 48) as u16 * 10 + (s[c2] - 48) as u16;
    if code < 100 || code > 599 {
        return Parsed::Error;
    }
    let p = match scan_many1(s, c3, ByteClass::Blank) {
        Cursor::At(x) => x,
        Cursor::Incomplete => return Parsed::Incomplete,
        Cursor::Error => return Parsed::Error,
    };
    let lf = match scan_many0(s, p, ByteClass::NotLf) {
        Cursor::At(x) => x,
        Cursor::Incomplete => return Parsed::Incomplete,
        Cursor::Error => return Parsed::Error,
    };
    let len = s.len();
    assert(lf < len);
    let end = if lf > p && s[lf - 1] == CR { lf - 1 } else { lf };
    Parsed::Done(lf + 1, ResponseLineSpans { major, minor, code, phrase: Span { start: p, end } })
}

/// Scans a header value from `start`: `Done(lf, end)` where the field ends with the LF at
/// `lf` and the value, its trailing blanks left out, ends at `end`; an empty value is an
/// error (see `header_value_spec`).
pub fn take_header_value(s: &[u8], start: usize) -> (r: Parsed<usize>)
    requires
        start <= s@.len(),
    ensures
        r == header_value_spec(s@, start as int),
        r matches Parsed::Done(lf, end) ==> start < end <= lf < s.len(),
{
    let mut j = start;
    let mut end = start;
    while j < s.len()
        invariant
            start <= end <= j,
            end <= s@.len(),
            value_scan(s@, j as int, end as int) == value_scan(s@, start as int, start as int),
        decreases s@.len() - j,
    {
        let b = s[j];
        if b == LF {
            if j + 1 >= s.len() {
                return Parsed::Incomplete;
            } else if s[j + 1] == 32 || s[j + 1] == 9 {
                j = j + 2;
            } else if end == start {
                return Parsed::Error;
            } else {
                return Parsed::Done(j, end);
            }
        } else if b == 32 || b == 9 || b == CR {
            j = j + 1;
        } else {
            j = j + 1;
            end = j;
        }
    }
    Parsed::Incomplete
}

/// Recognizes a header field line, with its folded continuation lines.
pub fn header(s: &[u8]) -> (r: Parsed<HeaderSpans>)
    ensures
        r == header_spec(s@),
        r matches Parsed::Done(n, h) ==> 0 < n <= s@.len() && span_in(h.name, 0, n as int)
            && span_in(h.value, 0, n as int),
{
    reveal(header_spec);
    let n = match scan_many1(s, 0, ByteClass::Token) {
        Cursor::At(x) => x,
        Cursor::Incomplete => return Parsed::Incomplete,
        Cursor::Error => return Parsed::Error,
    };
    let c = match scan_many0(s, n, ByteClass::Blank) {
        Cursor::At(x) => x,
        Cursor::Incomplete => return Parsed::Incomplete,
        Cursor::Error => return Parsed::Error,
    };
    let v = match take_byte(s, c, 58) {
        Cursor::At(x) => x,
        Cursor::Incomplete => return Parsed::Incomplete,
        Cursor::Error => return Parsed::Error,
    };
    let v0 = match scan_many0(s, v, ByteClass::Blank) {
        Cursor::At(x) => x,
        Cursor::Incomplete => return Parsed::Incomplete,
        Cursor::Error => return Parsed::Error,
    };
    match take_header_value(s, v0) {
        Parsed::Done(lf, end) => Parsed::Done(
            lf + 1,
            HeaderSpans { name: Span { start: 0, end: n }, value: Span { start: v0, end } },
        ),
        Parsed::Incomplete => Parsed::Incomplete,
        Parsed::Error => Parsed::Error,
    }
}

fn parse_quoted_end(s: &[u8], start: usize) -> (r: Cursor)
    requires
        start <= s@.len(),
    ensures
        r == quoted_end(s@, start as int),
        r matches Cursor::At(q) ==> start <= q < s@.len(),
{
    let mut j = start;
    while j < s.len()
        invariant
            start <= j,
            quoted_end(s@, j as int) == quoted_end(s@, start as int),
        decreases s@.len() - j,
    {
        let b = s[j];
        if b == 92 {
            if j + 1 >= s.len() {
                return Cursor::Incomplete;
            }
            j = j + 2;
        } else if b == 34 {
            return Cursor::At(j);
        } else if b == 32 || b == 9 || b == 0x21 || (0x23 <= b && b <= 0x5b) || (0x5d <= b && b <= 0x7e) || b >= 0x80 {
            j = j + 1;
        } else {
            return Cursor::Error;
        }
    }
    Cursor::Incomplete
}

fn parse_param_value(s: &[u8], d: usize) -> (r: Parsed<Span>)
    requires
        d <= s@.len(),
    ensures
        r == param_value_spec(s@, d as int),
        r matches Parsed::Done(e, _) ==> d < e <= s@.len(),
{
    let len = s.len();
    if d >= len {
        Parsed::Incomplete
    } else if s[d] == 34 {
        match parse_quoted_end(s, d + 1) {
            Cursor::At(q) => Parsed::Done(q + 1, Span { start: d + 1, end: q }),
            Cursor::Incomplete => Parsed::Incomplete,
            Cursor::Error => Parsed::Error,
        }
    } else {
        match scan_many1(s, d, ByteClass::Token) {
            Cursor::At(e) => Parsed::Done(e, Span { start: d, end: e }),
            Cursor::Incomplete => Parsed::Incomplete,
            Cursor::Error => Parsed::Error,
        }
    }
}

fn parse_chunk_param(s: &[u8], i: usize) -> (r: Parsed<ChunkParam>)
    requires
        i <= s@.len(),
    ensures
        r == chunk_param_spec(s@, i as int),
        r matches Parsed::Done(f, _) ==> i < f <= s@.len(),
{
    let a = match take_byte(s, i, 59) {
        Cursor::At(x) => x,
        Cursor::Incomplete => return Parsed::Incomplete,
        Cursor::Error => return Parsed::Error,
    };
    let b = match scan_many0(s, a, ByteClass::Blank) {
        Cursor::At(x) => x,
        Cursor::Incomplete => return Parsed::Incomplete,
        Cursor::Error => return Parsed::Error,
    };
    let ne = match scan_many1(s, b, ByteClass::Token) {
        Cursor::At(x) => x,
        Cursor::Incomplete => return Parsed::Incomplete,
        Cursor::Error => return Parsed::Error,
    };
    let c = match scan_many0(s, ne, ByteClass::Blank) {
        Cursor::At(x) => x,
        Cursor::Incomplete => return Parsed::Incomplete,
        Cursor::Error => return Parsed::Error,
    };
    let name = Span { start: b, end: ne };
    if s[c] != 61 {
        return Parsed::Done(c, ChunkParam { name, value: None });
    }
    let d = match scan_many0(s, c + 1, ByteClass::Blank) {
        Cursor::At(x) => x,
        Cursor::Incomplete => return Parsed::Incomplete,
        Cursor::Error => return Parsed::Error,
    };
    let (e, v) = match parse_param_value(s, d) {
        Parsed::Done(e, v) => (e, v),
        Parsed::Incomplete => return Parsed::Incomplete,
        Parsed::Error => return Parsed::Error,
    };
    match scan_many0(s, e, ByteClass::Blank) {
        Cursor::At(f) => Parsed::Done(f, ChunkParam { name, value: Some(v) }),
        Cursor::Incomplete => Parsed::Incomplete,
        Cursor::Error => Parsed::Error,
    }
}

/// Recognizes a chunk header line: the chunk's size in hexadecimal and its parameters.
pub fn chunk_header(s: &[u8]) -> (r: Parsed<ChunkHeader>)
    ensures
        chunk_header_agrees(r, chunk_header_spec(s@)),
        r matches Parsed::Done(n, _) ==> 0 < n <= s@.len(),
{
    reveal(chunk_header_spec);
    let h = match scan_many1(s, 0, ByteClass::HexDigit) {
        Cursor::At(x) => x,
        Cursor::Incomplete => return Parsed::Incomplete,
        Cursor::Error => return Parsed::Error,
    };
    let digits = vstd::slice::slice_subrange(s, 0, h);
    let size = match hex_buf_to_int(digits) {
        Ok(v) => v,
        Err(_) => return Parsed::Error,
    };
    let p = match scan_many0(s, h, ByteClass::Blank) {
        Cursor::At(x) => x,
        Cursor::Incomplete => return Parsed::Incomplete,
        Cursor::Error => return Parsed::Error,
    };
    let mut parameters: Vec<ChunkParam> = Vec::new();
    let mut i = p;
    loop
        invariant
            i <= s@.len(),
            chunk_header_spec(s@) == chunk_header_end(s@, chunk_params_spec(s@, i as int, parameters@), size),
        ensures
            i < s@.len(),
            s@[i as int] != 59,
            chunk_header_spec(s@) == chunk_header_end(s@, chunk_params_spec(s@, i as int, parameters@), size),
        decreases s@.len() - i,
    {
        if i >= s.len() {
            return Parsed::Incomplete;
        }
        if s[i] != 59 {
            break;
        }
        match parse_chunk_param(s, i) {
            Parsed::Done(f, prm) => {
                parameters.push(prm);
                i = f;
            },
            Parsed::Incomplete => return Parsed::Incomplete,
            Parsed::Error => return Parsed::Error,
        }
    }
    let j = match take_opt_byte(s, i, CR) {
        Cursor::At(x) => x,
        Cursor::Incomplete => return Parsed::Incomplete,
        Cursor::Error => return Parsed::Error,
    };
    match take_byte(s, j, LF) {
        Cursor::At(e) => Parsed::Done(e, ChunkHeader { size, parameters }),
        Cursor::Incomplete => Parsed::Incomplete,
        Cursor::Error => Parsed::Error,
    }
}

/// Recognizes a chunk header line like `chunk_header`, keeping only the chunk's size: the
/// parameters are checked and passed over, and nothing is allocated.
pub fn chunk_size_line(s: &[u8]) -> (r: Parsed<usize>)
    ensures
        match (r, chunk_header_spec(s@)) {
            (Parsed::Done(n, size), Parsed::Done(m, (size2, _))) => n == m && size == size2,
            (Parsed::Incomplete, Parsed::Incomplete) => true,
            (Parsed::Error, Parsed::Error) => true,
            _ => false,
        },
        r matches Parsed::Done(n, _) ==> 0 < n <= s@.len(),
{
    reveal(chunk_header_spec);
    let h = match scan_many1(s, 0, ByteClass::HexDigit) {
        Cursor::At(x) => x,
        Cursor::Incomplete => return Parsed::Incomplete,
        Cursor::Error => return Parsed::Error,
    };
    let digits = vstd::slice::slice_subrange(s, 0, h);
    let size = match hex_buf_to_int(digits) {
        Ok(v) => v,
        Err(_) => return Parsed::Error,
    };
    let p = match scan_many0(s, h, ByteClass::Blank) {
        Cursor::At(x) => x,
        Cursor::Incomplete => return Parsed::Incomplete,
        Cursor::Error => return Parsed::Error,
    };
    let ghost mut parameters: Seq<ChunkParam> = Seq::empty();
    let mut i = p;
    loop
        invariant
            i <= s@.len(),
            chunk_header_spec(s@) == chunk_header_end(s@, chunk_params_spec(s@, i as int, parameters), size),
        ensures
            i < s@.len(),
            s@[i as int] != 59,
            chunk_header_spec(s@) == chunk_header_end(s@, chunk_params_spec(s@, i as int, parameters), size),
        decreases s@.len() - i,
    {
        if i >= s.len() {
            return Parsed::Incomplete;
        }
        if s[i] != 59 {
            break;
        }
        match parse_chunk_param(s, i) {
            Parsed::Done(f, prm) => {
                proof {
                    parameters = parameters.push(prm);
                }
                i = f;
            },
            Parsed::Incomplete => return Parsed::Incomplete,
            Parsed::Error => return Parsed::Error,
        }
    }
    let j = match take_opt_byte(s, i, CR) {
        Cursor::At(x) => x,
        Cursor::Incomplete => return Parsed::Incomplete,
        Cursor::Error => return Parsed::Error,
    };
    match take_byte(s, j, LF) {
        Cursor::At(e) => Parsed::Done(e, size),
        Cursor::Incomplete => Parsed::Incomplete,
        Cursor::Error => Parsed::Error,
    }
}

} // verus!
