//! Byte classes and the small recognizers that the grammar is built from: runs of a class,
//! single bytes, literals. Each is a spec function of the input and a position, with an
//! executable twin that computes it.
use vstd::prelude::*;

verus! {

pub const SP: u8 = 32;
pub const HT: u8 = 9;
pub const CR: u8 = 13;
pub const LF: u8 = 10;

/// The sets of bytes that the recognizers scan runs of.
#[derive(Debug, Clone, Copy, PartialEq, Eq, Structural)]
pub enum ByteClass {
    /// Space or horizontal tab.
    Blank,
    /// A byte of an RFC 7230 token.
    Token,
    /// A decimal digit.
    Digit,
    /// A hexadecimal digit of either case.
    HexDigit,
    /// Any byte but space, tab, CR and LF.
    Word,
    /// Any byte but LF.
    NotLf,
}

pub open spec fn is_blank(b: u8) -> bool {
    b == SP || b == HT
}

/// `!#$%&'*+-.^_`|~`, digits and letters.
pub open spec fn is_token_byte(b: u8) -> bool {
    b == 33 || (35 <= b <= 39) || b == 42 || b == 43 || b == 45 || b == 46
        || (48 <= b <= 57) || (65 <= b <= 90) || (94 <= b <= 122) || b == 124 || b == 126
}

pub open spec fn in_class(c: ByteClass, b: u8) -> bool {
    match c {
        ByteClass::Blank => is_blank(b),
        ByteClass::Token => is_token_byte(b),
        ByteClass::Digit => 48 <= b <= 57,
        ByteClass::HexDigit => (48 <= b <= 57) || (65 <= b <= 70) || (97 <= b <= 102),
        ByteClass::Word => !is_blank(b) && b != CR && b != LF,
        ByteClass::NotLf => b != LF,
    }
}

fn class_holds(c: ByteClass, b: u8) -> (r: bool)
    ensures
        r == in_class(c, b),
{
    match c {
        ByteClass::Blank => b == SP || b == HT,
        ByteClass::Token => b == 33 || (35 <= b && b <= 39) || b == 42 || b == 43 || b == 45
            || b == 46 || (48 <= b && b <= 57) || (65 <= b && b <= 90) || (94 <= b && b <= 122)
            || b == 124 || b == 126,
        ByteClass::Digit => 48 <= b && b <= 57,
        ByteClass::HexDigit => (48 <= b && b <= 57) || (65 <= b && b <= 70) || (97 <= b && b <= 102),
        ByteClass::Word => b != SP && b != HT && b != CR && b != LF,
        ByteClass::NotLf => b != LF,
    }
}

/// Where a recognizer stands after one of its parts: at a position of the input, waiting
/// for more input, or refusing it.
#[derive(Debug, Clone, Copy, PartialEq, Eq, Structural)]
pub enum Cursor {
    At(usize),
    Incomplete,
    Error,
}

/// The end of the run of bytes of class `c` that starts at `i`.
pub open spec fn run_end(s: Seq<u8>, i: int, c: ByteClass) -> int
    decreases s.len() - i,
{
    if 0 <= i < s.len() && in_class(c, s[i]) {
        run_end(s, i + 1, c)
    } else {
        i
    }
}

/// Zero or more bytes of `c`, then a byte that is not of `c`.
pub open spec fn many0(s: Seq<u8>, i: int, c: ByteClass) -> Cursor {
    let e = run_end(s, i, c);
    if e >= s.len() { Cursor::Incomplete } else { Cursor::At(e as usize) }
}

/// One or more bytes of `c`, then a byte that is not of `c`.
pub open spec fn many1(s: Seq<u8>, i: int, c: ByteClass) -> Cursor {
    let e = run_end(s, i, c);
    if e >= s.len() { Cursor::Incomplete } else if e == i { Cursor::Error } else { Cursor::At(e as usize) }
}

/// Exactly one byte of `c`.
pub open spec fn one_of(s: Seq<u8>, i: int, c: ByteClass) -> Cursor {
    if i >= s.len() {
        Cursor::Incomplete
    } else if in_class(c, s[i]) {
        Cursor::At((i + 1) as usize)
    } else {
        Cursor::Error
    }
}

/// Exactly the byte `b`.
pub open spec fn byte(s: Seq<u8>, i: int, b: u8) -> Cursor {
    if i >= s.len() {
        Cursor::Incomplete
    } else if s[i] == b {
        Cursor::At((i + 1) as usize)
    } else {
        Cursor::Error
    }
}

/// The byte `b` if it comes next; nothing otherwise.
pub open spec fn opt_byte(s: Seq<u8>, i: int, b: u8) -> Cursor {
    if i >= s.len() {
        Cursor::Incomplete
    } else if s[i] == b {
        Cursor::At((i + 1) as usize)
    } else {
        Cursor::At(i as usize)
    }
}

/// The bytes of `pat`, in order.
pub open spec fn literal(s: Seq<u8>, i: int, pat: Seq<u8>) -> Cursor {
    let n = if s.len() - i < pat.len() { s.len() - i } else { pat.len() as int };
    if s.subrange(i, i + n) != pat.subrange(0, n) {
        Cursor::Error
    } else if n < pat.len() {
        Cursor::Incomplete
    } else {
        Cursor::At((i + pat.len()) as usize)
    }
}

proof fn lemma_run_end_bounds(s: Seq<u8>, i: int, c: ByteClass)
    requires
        0 <= i <= s.len(),
    ensures
        i <= run_end(s, i, c) <= s.len(),
        forall|k: int| i <= k < run_end(s, i, c) ==> in_class(c, #[trigger] s[k]),
        run_end(s, i, c) < s.len() ==> !in_class(c, s[run_end(s, i, c)]),
    decreases s.len() - i,
{
    if i < s.len() && in_class(c, s[i]) {
        lemma_run_end_bounds(s, i + 1, c);
    }
}

/// Scans the run of bytes of class `c` from `i`.
pub fn scan(s: &[u8], i: usize, c: ByteClass) -> (r: usize)
    requires
        i <= s@.len(),
    ensures
        r == run_end(s@, i as int, c),
        i <= r <= s@.len(),
{
    proof {
        lemma_run_end_bounds(s@, i as int, c);
    }
    let mut j = i;
    while j < s.len() && class_holds(c, s[j])
        invariant
            i <= j <= s@.len(),
            run_end(s@, j as int, c) == run_end(s@, i as int, c),
        decreases s@.len() - j,
    {
        j = j + 1;
    }
    j
}

/// Reads `many0` at `i`.
pub fn scan_many0(s: &[u8], i: usize, c: ByteClass) -> (r: Cursor)
    requires
        i <= s@.len(),
    ensures
        r == many0(s@, i as int, c),
        r matches Cursor::At(e) ==> i <= e < s@.len(),
{
    let e = scan(s, i, c);
    if e >= s.len() { Cursor::Incomplete } else { Cursor::At(e) }
}

/// Reads `many1` at `i`.
pub fn scan_many1(s: &[u8], i: usize, c: ByteClass) -> (r: Cursor)
    requires
        i <= s@.len(),
    ensures
        r == many1(s@, i as int, c),
        r matches Cursor::At(e) ==> i < e < s@.len(),
{
    let e = scan(s, i, c);
    if e >= s.len() {
        Cursor::Incomplete
    } else if e == i {
        Cursor::Error
    } else {
        Cursor::At(e)
    }
}

/// Reads `one_of` at `i`.
pub fn take_one_of(s: &[u8], i: usize, c: ByteClass) -> (r: Cursor)
    requires
        i <= s@.len(),
    ensures
        r == one_of(s@, i as int, c),
        r matches Cursor::At(e) ==> i <= e <= s@.len(),
{
    if i >= s.len() {
        Cursor::Incomplete
    } else if class_holds(c, s[i]) {
        Cursor::At(i + 1)
    } else {
        Cursor::Error
    }
}

/// Reads `byte` at `i`.
pub fn take_byte(s: &[u8], i: usize, b: u8) -> (r: Cursor)
    requires
        i <= s@.len(),
    ensures
        r == byte(s@, i as int, b),
        r matches Cursor::At(e) ==> i <= e <= s@.len(),
{
    if i >= s.len() {
        Cursor::Incomplete
    } else if s[i] == b {
        Cursor::At(i + 1)
    } else {
        Cursor::Error
    }
}

/// Reads `opt_byte` at `i`.
pub fn take_opt_byte(s: &[u8], i: usize, b: u8) -> (r: Cursor)
    requires
        i <= s@.len(),
    ensures
        r == opt_byte(s@, i as int, b),
        r matches Cursor::At(e) ==> i <= e <= s@.len(),
{
    if i >= s.len() {
        Cursor::Incomplete
    } else if s[i] == b {
        Cursor::At(i + 1)
    } else {
        Cursor::At(i)
    }
}

/// Reads `literal` at `i`.
pub fn take_literal(s: &[u8], i: usize, pat: &[u8]) -> (r: Cursor)
    requires
        i <= s@.len(),
    ensures
        r == literal(s@, i as int, pat@),
        r matches Cursor::At(e) ==> i <= e <= s@.len(),
{
    let avail = s.len() - i;
    let n = if avail < pat.len() { avail } else { pat.len() };
    let mut k: usize = 0;
    while k < n
        invariant
            k <= n <= pat@.len(),
            i + n <= s.len(),
            n == (if s@.len() - i < pat@.len() { s@.len() - i } else { pat@.len() as int }),
            s@.subrange(i as int, i + k) == pat@.subrange(0, k as int),
        decreases n - k,
    {
        if s[i + k] != pat[k] {
            assert(s@.subrange(i as int, i + n)[k as int] != pat@.subrange(0, n as int)[k as int]);
            return Cursor::Error;
        }
        assert(s@.subrange(i as int, i + k + 1) =~= s@.subrange(i as int, i + k).push(s@[i + k]));
        assert(pat@.subrange(0, k + 1) =~= pat@.subrange(0, k as int).push(pat@[k as int]));
        k = k + 1;
    }
    if n < pat.len() {
        Cursor::Incomplete
    } else {
        Cursor::At(i + pat.len())
    }
}

} // verus!
