//! The incremental request parser.
//!
//! Bytes arrive in chunks of any size. The parser keeps the bytes it cannot
//! yet consume (a token whose delimiter has not arrived) and rescans them with
//! the next chunk, so the outcome depends only on the bytes, never on where
//! the chunk boundaries fall.
use vstd::prelude::*;
use vstd::utf8::{decode_utf8, valid_utf8};
use crate::external::{is_method_token, method_accepted, string_from_utf8};
use crate::message::{Header, Method, ParseError, Request, Version};

verus! {

pub open spec fn is_eol(b: u8) -> bool {
    b == 13 || b == 10
}

/// Which bytes end the token being scanned: a space ends a start-line token,
/// a colon or a line terminator ends a header name, a line terminator ends
/// the version and a header value.
#[derive(PartialEq, Eq, Structural, Clone, Copy, Debug)]
pub enum Stop {
    Space,
    Colon,
    LineEnd,
}

pub open spec fn stops(k: Stop, b: u8) -> bool {
    match k {
        Stop::Space => b == 32,
        Stop::Colon => b == 58 || is_eol(b),
        Stop::LineEnd => is_eol(b),
    }
}

/// The index of the first byte at or after `i` that ends a token of kind `k`,
/// or the length of the input if there is none.
pub open spec fn scan(inp: Seq<u8>, i: int, k: Stop) -> int
    decreases inp.len() - i,
{
    if i >= inp.len() {
        inp.len() as int
    } else if stops(k, inp[i]) {
        i
    } else {
        scan(inp, i + 1, k)
    }
}

/// How many bytes the line terminator at `i` takes: `\n`, `\r\n`, or a bare
/// `\r`. A `\r` that ends the input waits for the next byte unless the input
/// has ended.
pub open spec fn terminator_len(inp: Seq<u8>, i: int, end: bool) -> Option<int> {
    if inp[i] == 13 {
        if i + 1 < inp.len() {
            if inp[i + 1] == 10 {
                Some(2)
            } else {
                Some(1)
            }
        } else if end {
            Some(1)
        } else {
            None
        }
    } else {
        Some(1)
    }
}

/// `HTTP/0.9`, `HTTP/1.0`, `HTTP/1.1`, `HTTP/2.0` and `HTTP/3.0` name their
/// version; any other token reads as 1.0.
pub open spec fn version_of(t: Seq<u8>) -> Version {
    if t.len() == 8 && t[0] == 72 && t[1] == 84 && t[2] == 84 && t[3] == 80 && t[4] == 47 && t[6]
        == 46 {
        if t[5] == 48 && t[7] == 57 {
            Version::Http09
        } else if t[5] == 49 && t[7] == 48 {
            Version::Http10
        } else if t[5] == 49 && t[7] == 49 {
            Version::Http11
        } else if t[5] == 50 && t[7] == 48 {
            Version::Http2
        } else if t[5] == 51 && t[7] == 48 {
            Version::Http3
        } else {
            Version::Http10
        }
    } else {
        Version::Http10
    }
}

/// Where the parser stands within a request.
#[derive(PartialEq, Eq, Structural, Clone, Copy, Debug)]
pub enum Phase {
    Method,
    Path,
    Protocol,
    HeaderName,
    HeaderValue,
    Body,
}

/// What has been read so far, as bytes.
pub struct Partial {
    pub phase: Phase,
    pub method: Seq<u8>,
    pub path: Seq<u8>,
    pub version: Version,
    pub headers: Seq<(Seq<u8>, Seq<u8>)>,
    /// The name of the header whose value is being read.
    pub name: Seq<u8>,
    pub body: Seq<u8>,
}

pub open spec fn initial() -> Partial {
    Partial {
        phase: Phase::Method,
        method: seq![],
        path: seq![],
        version: Version::Http10,
        headers: seq![],
        name: seq![],
        body: seq![],
    }
}

/// The outcome of one parsing step on the bytes not yet consumed.
pub enum Step {
    /// Nothing can be decided before more bytes arrive.
    Need,
    Fail(ParseError),
    /// The first `n` bytes are consumed, leading to the given state.
    Take(int, Partial),
}

/// One step of the parser on `inp`; `end` tells whether the input has ended.
#[verifier::opaque]
pub open spec fn step(s: Partial, inp: Seq<u8>, end: bool) -> Step {
    if inp.len() == 0 {
        Step::Need
    } else {
        match s.phase {
            Phase::Method => {
                let i = scan(inp, 0, Stop::Space);
                if i == inp.len() {
                    if end { Step::Fail(ParseError::MalformedStartLine) } else { Step::Need }
                } else if scan(inp, 0, Stop::LineEnd) < i {
                    // the line ends before the space after the method
                    Step::Fail(ParseError::MalformedStartLine)
                } else if !valid_utf8(inp.take(i)) {
                    Step::Fail(ParseError::InvalidEncoding)
                } else if !is_method_token(inp.take(i)) {
                    Step::Fail(ParseError::MalformedStartLine)
                } else {
                    Step::Take(i + 1, Partial { phase: Phase::Path, method: inp.take(i), ..s })
                }
            },
            Phase::Path => {
                if inp[0] == 32 {
                    Step::Take(1, s)
                } else {
                    let i = scan(inp, 0, Stop::Space);
                    if i == inp.len() {
                        if end { Step::Fail(ParseError::MalformedStartLine) } else { Step::Need }
                    } else if inp[0] != 47 {
                        Step::Fail(ParseError::MalformedStartLine)
                    } else if !valid_utf8(inp.take(i)) {
                        Step::Fail(ParseError::InvalidEncoding)
                    } else {
                        Step::Take(i + 1, Partial { phase: Phase::Protocol, path: inp.take(i), ..s })
                    }
                }
            },
            Phase::Protocol => {
                if inp[0] == 32 {
                    Step::Take(1, s)
                } else {
                    let i = scan(inp, 0, Stop::LineEnd);
                    if i == inp.len() {
                        if end { Step::Fail(ParseError::MalformedStartLine) } else { Step::Need }
                    } else {
                        match terminator_len(inp, i, end) {
                            None => Step::Need,
                            Some(t) => if !valid_utf8(inp.take(i)) {
                                Step::Fail(ParseError::InvalidEncoding)
                            } else {
                                Step::Take(
                                    i + t,
                                    Partial {
                                        phase: Phase::HeaderName,
                                        version: version_of(inp.take(i)),
                                        ..s
                                    },
                                )
                            },
                        }
                    }
                }
            },
            Phase::HeaderName => {
                if is_eol(inp[0]) {
                    match terminator_len(inp, 0, end) {
                        None => Step::Need,
                        Some(t) => Step::Take(t, Partial { phase: Phase::Body, ..s }),
                    }
                } else {
                    let i = scan(inp, 0, Stop::Colon);
                    if i == inp.len() {
                        if end { Step::Fail(ParseError::MalformedHeader) } else { Step::Need }
                    } else if inp[i] != 58 {
                        Step::Fail(ParseError::MalformedHeader)
                    } else if !valid_utf8(inp.take(i)) {
                        Step::Fail(ParseError::InvalidEncoding)
                    } else {
                        Step::Take(i + 1, Partial { phase: Phase::HeaderValue, name: inp.take(i), ..s })
                    }
                }
            },
            Phase::HeaderValue => {
                if inp[0] == 32 {
                    Step::Take(1, s)
                } else {
                    let i = scan(inp, 0, Stop::LineEnd);
                    if i == inp.len() {
                        if end { Step::Fail(ParseError::MalformedHeader) } else { Step::Need }
                    } else {
                        match terminator_len(inp, i, end) {
                            None => Step::Need,
                            Some(t) => if !valid_utf8(inp.take(i)) {
                                Step::Fail(ParseError::InvalidEncoding)
                            } else {
                                Step::Take(
                                    i + t,
                                    Partial {
                                        phase: Phase::HeaderName,
                                        headers: s.headers.push((s.name, inp.take(i))),
                                        ..s
                                    },
                                )
                            },
                        }
                    }
                }
            },
            Phase::Body => Step::Take(1, Partial { body: s.body.push(inp[0]), ..s }),
        }
    }
}

/// Steps from `s` over `inp` for as long as something can be decided: the
/// state reached and the bytes left over, or the first failure.
pub open spec fn drive(s: Partial, inp: Seq<u8>, end: bool) -> Result<(Partial, Seq<u8>), ParseError>
    decreases inp.len(),
{
    match step(s, inp, end) {
        Step::Need => Ok((s, inp)),
        Step::Fail(e) => Err(e),
        Step::Take(n, s2) => if 0 < n <= inp.len() {
            drive(s2, inp.skip(n), end)
        } else {
            Ok((s, inp))
        },
    }
}

/// The state in which the input may end: the start line must be complete and
/// no header value may be left open.
pub open spec fn complete(s: Partial) -> Result<Partial, ParseError> {
    match s.phase {
        Phase::Method | Phase::Path | Phase::Protocol => Err(ParseError::MalformedStartLine),
        Phase::HeaderValue => Err(ParseError::MalformedHeader),
        _ => Ok(s),
    }
}

/// Every field taken so far is valid UTF-8: each is checked as it is taken.
/// Only the body, which arrives byte by byte, is checked once it is whole.
pub open spec fn fields_valid(p: Partial) -> bool {
    &&& valid_utf8(p.method)
    &&& valid_utf8(p.path)
    &&& valid_utf8(p.name)
    &&& forall|i: int|
        0 <= i < p.headers.len() ==> valid_utf8(#[trigger] p.headers[i].0) && valid_utf8(
            p.headers[i].1,
        )
}

proof fn lemma_push_valid(hs: Seq<(Seq<u8>, Seq<u8>)>, h: (Seq<u8>, Seq<u8>))
    requires
        forall|i: int|
            0 <= i < hs.len() ==> valid_utf8(#[trigger] hs[i].0) && valid_utf8(hs[i].1),
        valid_utf8(h.0),
        valid_utf8(h.1),
    ensures
        forall|i: int|
            0 <= i < hs.push(h).len() ==> valid_utf8(#[trigger] hs.push(h)[i].0) && valid_utf8(
                hs.push(h)[i].1,
            ),
{
    assert forall|i: int| 0 <= i < hs.push(h).len() implies valid_utf8(
        #[trigger] hs.push(h)[i].0,
    ) && valid_utf8(hs.push(h)[i].1) by {
        if i < hs.len() {
            assert(hs.push(h)[i] == hs[i]);
        }
    }
}

proof fn lemma_value_taken(s: Partial, v: Seq<u8>, s2: Partial)
    requires
        fields_valid(s),
        valid_utf8(v),
        s2 == (Partial { phase: Phase::HeaderName, headers: s.headers.push((s.name, v)), ..s }),
    ensures
        fields_valid(s2),
{
    lemma_push_valid(s.headers, (s.name, v));
}

proof fn lemma_step_keeps_fields_valid(s: Partial, inp: Seq<u8>, end: bool)
    requires
        fields_valid(s),
    ensures
        step(s, inp, end) matches Step::Take(_, s2) ==> fields_valid(s2),
{
    reveal(step);
    if let Step::Take(_, s2) = step(s, inp, end) {
        match s.phase {
            Phase::HeaderValue => {
                if s2.phase == Phase::HeaderName {
                    lemma_value_taken(s, inp.take(scan(inp, 0, Stop::LineEnd)), s2);
                } else {
                    assert(s2 == s);
                }
            },
            Phase::Body => {
                assert(s2.headers == s.headers && s2.name == s.name);
                assert(fields_valid(s2));
            },
            _ => {
                assert(s2.headers == s.headers);
                assert(fields_valid(s2));
            },
        }
    }
}

/// Every state that parsing reaches keeps its fields valid.
pub proof fn lemma_drive_keeps_fields_valid(s: Partial, inp: Seq<u8>, end: bool)
    requires
        fields_valid(s),
    ensures
        drive(s, inp, end) matches Ok((q, _)) ==> fields_valid(q),
    decreases inp.len(),
{
    lemma_step_keeps_fields_valid(s, inp, end);
    if let Step::Take(n, s2) = step(s, inp, end) {
        if 0 < n <= inp.len() {
            lemma_drive_keeps_fields_valid(s2, inp.skip(n), end);
        }
    }
}

pub proof fn lemma_initial_fields_valid()
    ensures
        fields_valid(initial()),
{
    assert(valid_utf8(Seq::<u8>::empty()));
}

/// The request that the whole input `inp` holds, as bytes, or the error it
/// gives.
pub open spec fn parse_bytes(inp: Seq<u8>) -> Result<Partial, ParseError> {
    match drive(initial(), inp, true) {
        Err(e) => Err(e),
        Ok((s, _)) => match complete(s) {
            Err(e) => Err(e),
            Ok(p) => if valid_utf8(p.body) {
                Ok(p)
            } else {
                Err(ParseError::InvalidEncoding)
            },
        },
    }
}

pub proof fn lemma_scan_bounds(a: Seq<u8>, i: int, k: Stop)
    requires
        0 <= i <= a.len(),
    ensures
        i <= scan(a, i, k) <= a.len(),
        scan(a, i, k) < a.len() ==> stops(k, a[scan(a, i, k)]),
    decreases a.len() - i,
{
    if i < a.len() && !stops(k, a[i]) {
        lemma_scan_bounds(a, i + 1, k);
    }
}

proof fn lemma_scan_extend(a: Seq<u8>, b: Seq<u8>, i: int, k: Stop)
    requires
        0 <= i,
        scan(a, i, k) < a.len(),
    ensures
        scan(a + b, i, k) == scan(a, i, k),
    decreases a.len() - i,
{
    if i < a.len() && !stops(k, a[i]) {
        lemma_scan_extend(a, b, i + 1, k);
    }
}

proof fn lemma_scan_extend_none(a: Seq<u8>, b: Seq<u8>, i: int, k: Stop)
    requires
        0 <= i <= a.len(),
        scan(a, i, k) == a.len(),
    ensures
        scan(a + b, i, k) >= a.len(),
    decreases a.len() - i,
{
    if i < a.len() {
        assert((a + b)[i] == a[i]);
        lemma_scan_extend_none(a, b, i + 1, k);
    } else {
        lemma_scan_bounds(a + b, i, k);
    }
}

/// A step that decides something on some bytes decides the same once more
/// bytes follow them, whether or not the input has ended by then.
proof fn lemma_step_extend(s: Partial, a: Seq<u8>, b: Seq<u8>, end: bool)
    requires
        !(step(s, a, false) is Need),
    ensures
        step(s, a + b, end) == step(s, a, false),
{
    reveal(step);
    let ab = a + b;
    assert(ab[0] == a[0]);
    let k = match s.phase {
        Phase::Method | Phase::Path => Stop::Space,
        Phase::HeaderName => Stop::Colon,
        _ => Stop::LineEnd,
    };
    lemma_scan_bounds(a, 0, k);
    lemma_scan_bounds(a, 0, Stop::LineEnd);
    if scan(a, 0, Stop::LineEnd) < a.len() {
        lemma_scan_extend(a, b, 0, Stop::LineEnd);
    } else {
        lemma_scan_extend_none(a, b, 0, Stop::LineEnd);
    }
    if scan(a, 0, k) < a.len() {
        lemma_scan_extend(a, b, 0, k);
        let i = scan(a, 0, k);
        assert(ab.take(i) =~= a.take(i));
        assert(ab[i] == a[i]);
        if i + 1 < a.len() {
            assert(ab[i + 1] == a[i + 1]);
        }
    }
    if a.len() > 1 {
        assert(ab[1] == a[1]);
    }
}

/// Driving over bytes that are later extended: the decisions already made
/// stand, and driving resumes from where it stopped with the extension.
pub proof fn lemma_drive_extend(s: Partial, a: Seq<u8>, b: Seq<u8>, end: bool)
    ensures
        drive(s, a, false) matches Ok((s2, rest)) ==> drive(s, a + b, end) == drive(
            s2,
            rest + b,
            end,
        ),
        drive(s, a, false) matches Err(e) ==> drive(s, a + b, end) == Err::<
            (Partial, Seq<u8>),
            ParseError,
        >(e),
    decreases a.len(),
{
    match step(s, a, false) {
        Step::Need => {},
        Step::Fail(e) => {
            lemma_step_extend(s, a, b, end);
        },
        Step::Take(n, s2) => {
            lemma_step_extend(s, a, b, end);
            if 0 < n <= a.len() {
                assert((a + b).skip(n) =~= a.skip(n) + b);
                lemma_drive_extend(s2, a.skip(n), b, end);
            }
        },
    }
}

/// The progress of one executed step.
#[derive(PartialEq, Eq, Structural, Clone, Copy, Debug)]
pub enum Progress {
    Need,
    Fail(ParseError),
    Took(usize),
}

/// What has been read so far; its view is the `Partial` it holds.
pub struct Cursor {
    phase: Phase,
    method: Vec<u8>,
    path: Vec<u8>,
    version: Version,
    headers: Vec<(Vec<u8>, Vec<u8>)>,
    name: Vec<u8>,
    body: Vec<u8>,
}

pub open spec fn pair_view(h: (Vec<u8>, Vec<u8>)) -> (Seq<u8>, Seq<u8>) {
    (h.0@, h.1@)
}

impl View for Cursor {
    type V = Partial;

    closed spec fn view(&self) -> Partial {
        Partial {
            phase: self.phase,
            method: self.method@,
            path: self.path@,
            version: self.version,
            headers: self.headers@.map_values(|h: (Vec<u8>, Vec<u8>)| pair_view(h)),
            name: self.name@,
            body: self.body@,
        }
    }
}

fn stops_at(k: Stop, b: u8) -> (r: bool)
    ensures
        r == stops(k, b),
{
    match k {
        Stop::Space => b == 32,
        Stop::Colon => b == 58 || b == 13 || b == 10,
        Stop::LineEnd => b == 13 || b == 10,
    }
}

/// The first index at or after `pos` that ends a token of kind `k`.
fn scan_from(buf: &Vec<u8>, pos: usize, k: Stop) -> (r: usize)
    requires
        pos <= buf.len(),
    ensures
        pos <= r <= buf.len(),
        r - pos == scan(buf@.skip(pos as int), 0, k),
{
    let ghost inp = buf@.skip(pos as int);
    let mut i: usize = pos;
    while i < buf.len() && !stops_at(k, buf[i])
        invariant
            pos <= i <= buf.len(),
            inp == buf@.skip(pos as int),
            scan(inp, 0, k) == scan(inp, i - pos, k),
        decreases buf.len() - i,
    {
        i = i + 1;
    }
    i
}

/// A copy of `buf[from..to]`.
fn copy_range(buf: &Vec<u8>, from: usize, to: usize) -> (r: Vec<u8>)
    requires
        from <= to <= buf.len(),
    ensures
        r@ == buf@.subrange(from as int, to as int),
{
    let mut r: Vec<u8> = Vec::new();
    let mut i: usize = from;
    while i < to
        invariant
            from <= i <= to <= buf.len(),
            r@ == buf@.subrange(from as int, i as int),
        decreases to - i,
    {
        r.push(buf[i]);
        i = i + 1;
    }
    r
}

/// The length of the line terminator at `i`, counted as `terminator_len` counts
/// it within the bytes from `pos` on.
fn terminator_at(buf: &Vec<u8>, pos: usize, i: usize, end: bool) -> (r: Option<usize>)
    requires
        pos <= i < buf.len(),
    ensures
        r matches Some(t) ==> terminator_len(buf@.skip(pos as int), i - pos, end) == Some(t as int),
        r is None ==> terminator_len(buf@.skip(pos as int), i - pos, end) is None,
        r matches Some(t) ==> 1 <= t <= buf.len() - i,
{
    if buf[i] == 13 {
        if i + 1 < buf.len() {
            if buf[i + 1] == 10 {
                Some(2)
            } else {
                Some(1)
            }
        } else if end {
            Some(1)
        } else {
            None
        }
    } else {
        Some(1)
    }
}

fn utf8_valid(b: &Vec<u8>) -> (r: bool)
    ensures
        r == valid_utf8(b@),
{
    let copy = copy_range(b, 0, b.len());
    assert(copy@ =~= b@);
    string_from_utf8(copy).is_some()
}

fn version_in(t: &Vec<u8>) -> (r: Version)
    ensures
        r == version_of(t@),
{
    if t.len() == 8 && t[0] == 72 && t[1] == 84 && t[2] == 84 && t[3] == 80 && t[4] == 47 && t[6]
        == 46 {
        if t[5] == 48 && t[7] == 57 {
            Version::Http09
        } else if t[5] == 49 && t[7] == 48 {
            Version::Http10
        } else if t[5] == 49 && t[7] == 49 {
            Version::Http11
        } else if t[5] == 50 && t[7] == 48 {
            Version::Http2
        } else if t[5] == 51 && t[7] == 48 {
            Version::Http3
        } else {
            Version::Http10
        }
    } else {
        Version::Http10
    }
}

impl Cursor {
    pub fn new() -> (r: Cursor)
        ensures
            r@ == initial(),
    {
        let r = Cursor {
            phase: Phase::Method,
            method: Vec::new(),
            path: Vec::new(),
            version: Version::Http10,
            headers: Vec::new(),
            name: Vec::new(),
            body: Vec::new(),
        };
        assert(r@.headers =~= initial().headers);
        r
    }

    /// Takes one step on the bytes of `buf` from `pos` on.
    #[verifier::rlimit(50)]
    pub fn step_at(&mut self, buf: &Vec<u8>, pos: usize, end: bool) -> (r: Progress)
        requires
            pos < buf.len(),
        ensures
            match step(old(self)@, buf@.skip(pos as int), end) {
                Step::Need => r is Need && final(self)@ == old(self)@,
                Step::Fail(e) => r == Progress::Fail(e),
                Step::Take(n, s2) => r matches Progress::Took(m) && m == n && final(self)@ == s2
                    && 0 < n <= buf.len() - pos,
            },
    {
        let ghost inp = buf@.skip(pos as int);
        assert(inp[0] == buf@[pos as int]);
        proof {
            reveal(step);
        }
        match self.phase {
            Phase::Method => {
                let i = scan_from(buf, pos, Stop::Space);
                proof {
                    lemma_scan_bounds(inp, 0, Stop::Space);
                }
                if i == buf.len() {
                    if end {
                        Progress::Fail(ParseError::MalformedStartLine)
                    } else {
                        Progress::Need
                    }
                } else {
                    let e = scan_from(buf, pos, Stop::LineEnd);
                    let tok = copy_range(buf, pos, i);
                    assert(tok@ =~= inp.take(i - pos));
                    if e < i {
                        Progress::Fail(ParseError::MalformedStartLine)
                    } else if !utf8_valid(&tok) {
                        Progress::Fail(ParseError::InvalidEncoding)
                    } else if !method_accepted(tok.as_slice()) {
                        Progress::Fail(ParseError::MalformedStartLine)
                    } else {
                        self.method = tok;
                        self.phase = Phase::Path;
                        Progress::Took(i - pos + 1)
                    }
                }
            },
            Phase::Path => {
                if buf[pos] == 32 {
                    Progress::Took(1)
                } else {
                    let i = scan_from(buf, pos, Stop::Space);
                    proof {
                        lemma_scan_bounds(inp, 0, Stop::Space);
                    }
                    if i == buf.len() {
                        if end {
                            Progress::Fail(ParseError::MalformedStartLine)
                        } else {
                            Progress::Need
                        }
                    } else if buf[pos] != 47 {
                        Progress::Fail(ParseError::MalformedStartLine)
                    } else {
                        let tok = copy_range(buf, pos, i);
                        assert(tok@ =~= inp.take(i - pos));
                        if !utf8_valid(&tok) {
                            return Progress::Fail(ParseError::InvalidEncoding);
                        }
                        self.path = tok;
                        self.phase = Phase::Protocol;
                        Progress::Took(i - pos + 1)
                    }
                }
            },
            Phase::Protocol => {
                if buf[pos] == 32 {
                    Progress::Took(1)
                } else {
                    let i = scan_from(buf, pos, Stop::LineEnd);
                    proof {
                        lemma_scan_bounds(inp, 0, Stop::LineEnd);
                    }
                    if i == buf.len() {
                        if end {
                            Progress::Fail(ParseError::MalformedStartLine)
                        } else {
                            Progress::Need
                        }
                    } else {
                        match terminator_at(buf, pos, i, end) {
                            None => Progress::Need,
                            Some(t) => {
                                let tok = copy_range(buf, pos, i);
                                assert(tok@ =~= inp.take(i - pos));
                                if !utf8_valid(&tok) {
                                    Progress::Fail(ParseError::InvalidEncoding)
                                } else {
                                    self.version = version_in(&tok);
                                    self.phase = Phase::HeaderName;
                                    Progress::Took(i - pos + t)
                                }
                            },
                        }
                    }
                }
            },
            Phase::HeaderName => {
                if buf[pos] == 13 || buf[pos] == 10 {
                    match terminator_at(buf, pos, pos, end) {
                        None => Progress::Need,
                        Some(t) => {
                            self.phase = Phase::Body;
                            Progress::Took(t)
                        },
                    }
                } else {
                    let i = scan_from(buf, pos, Stop::Colon);
                    proof {
                        lemma_scan_bounds(inp, 0, Stop::Colon);
                    }
                    if i == buf.len() {
                        if end {
                            Progress::Fail(ParseError::MalformedHeader)
                        } else {
                            Progress::Need
                        }
                    } else if buf[i] != 58 {
                        Progress::Fail(ParseError::MalformedHeader)
                    } else {
                        let tok = copy_range(buf, pos, i);
                        assert(tok@ =~= inp.take(i - pos));
                        if !utf8_valid(&tok) {
                            return Progress::Fail(ParseError::InvalidEncoding);
                        }
                        self.name = tok;
                        self.phase = Phase::HeaderValue;
                        Progress::Took(i - pos + 1)
                    }
                }
            },
            Phase::HeaderValue => {
                if buf[pos] == 32 {
                    Progress::Took(1)
                } else {
                    let i = scan_from(buf, pos, Stop::LineEnd);
                    proof {
                        lemma_scan_bounds(inp, 0, Stop::LineEnd);
                    }
                    if i == buf.len() {
                        if end {
                            Progress::Fail(ParseError::MalformedHeader)
                        } else {
                            Progress::Need
                        }
                    } else {
                        match terminator_at(buf, pos, i, end) {
                            None => Progress::Need,
                            Some(t) => {
                                let tok = copy_range(buf, pos, i);
                                assert(tok@ =~= inp.take(i - pos));
                                if !utf8_valid(&tok) {
                                    return Progress::Fail(ParseError::InvalidEncoding);
                                }
                                let name = copy_range(&self.name, 0, self.name.len());
                                assert(name@ =~= self.name@);
                                let ghost old_view = self@;
                                self.headers.push((name, tok));
                                self.phase = Phase::HeaderName;
                                assert(self@.headers =~= old_view.headers.push(
                                    (old_view.name, inp.take(i - pos)),
                                ));
                                Progress::Took(i - pos + t)
                            },
                        }
                    }
                }
            },
            Phase::Body => {
                self.body.push(buf[pos]);
                Progress::Took(1)
            },
        }
    }

    /// Steps over `buf` for as long as something can be decided.
    pub fn advance(&mut self, buf: &Vec<u8>, end: bool) -> (r: Result<usize, ParseError>)
        ensures
            match drive(old(self)@, buf@, end) {
                Ok((s, rest)) => r matches Ok(n) && n <= buf.len() && final(self)@ == s && rest
                    == buf@.skip(n as int),
                Err(e) => r == Err::<usize, ParseError>(e),
            },
    {
        let ghost s0 = self@;
        let mut pos: usize = 0;
        assert(buf@.skip(0) =~= buf@);
        loop
            invariant
                pos <= buf.len(),
                s0 == old(self)@,
                drive(s0, buf@, end) == drive(self@, buf@.skip(pos as int), end),
            decreases buf.len() - pos,
        {
            let ghost cur = self@;
            let ghost inp = buf@.skip(pos as int);
            if pos == buf.len() {
                assert(step(cur, inp, end) is Need) by {
                    reveal(step);
                }
                assert(drive(cur, inp, end) == Ok::<(Partial, Seq<u8>), ParseError>((cur, inp)));
                return Ok(pos);
            }
            match self.step_at(buf, pos, end) {
                Progress::Need => {
                    assert(drive(cur, inp, end) == Ok::<(Partial, Seq<u8>), ParseError>((cur, inp)));
                    return Ok(pos);
                },
                Progress::Fail(e) => {
                    assert(drive(cur, inp, end) == Err::<(Partial, Seq<u8>), ParseError>(e));
                    return Err(e);
                },
                Progress::Took(n) => {
                    assert(buf@.skip(pos as int).skip(n as int) =~= buf@.skip(pos + n));
                    pos = pos + n;
                },
            }
        }
    }
}

/// The token of a standard method; empty for an extension method.
pub open spec fn method_token(m: Method) -> Seq<u8> {
    match m {
        Method::Options => seq![79u8, 80, 84, 73, 79, 78, 83],
        Method::Get => seq![71u8, 69, 84],
        Method::Post => seq![80u8, 79, 83, 84],
        Method::Put => seq![80u8, 85, 84],
        Method::Delete => seq![68u8, 69, 76, 69, 84, 69],
        Method::Head => seq![72u8, 69, 65, 68],
        Method::Trace => seq![84u8, 82, 65, 67, 69],
        Method::Connect => seq![67u8, 79, 78, 78, 69, 67, 84],
        Method::Patch => seq![80u8, 65, 84, 67, 72],
        Method::Extension(_) => seq![],
    }
}

pub open spec fn is_standard_method(t: Seq<u8>) -> bool {
    t == method_token(Method::Options) || t == method_token(Method::Get) || t == method_token(
        Method::Post,
    ) || t == method_token(Method::Put) || t == method_token(Method::Delete) || t
        == method_token(Method::Head) || t == method_token(Method::Trace) || t == method_token(
        Method::Connect,
    ) || t == method_token(Method::Patch)
}

/// `m` is the method that token `t` names.
pub open spec fn method_matches(m: Method, t: Seq<u8>) -> bool {
    match m {
        Method::Extension(s) => !is_standard_method(t) && s@ == decode_utf8(t),
        _ => t == method_token(m),
    }
}

pub open spec fn header_matches(h: Header, b: (Seq<u8>, Seq<u8>)) -> bool {
    h.name@ == decode_utf8(b.0) && h.value@ == decode_utf8(b.1)
}

/// `r` holds the text of the fields of `p`.
pub open spec fn request_matches(r: Request, p: Partial) -> bool {
    &&& method_matches(r.method, p.method)
    &&& r.path@ == decode_utf8(p.path)
    &&& r.version == p.version
    &&& r.headers@.len() == p.headers.len()
    &&& forall|i: int|
        0 <= i < p.headers.len() ==> header_matches(#[trigger] r.headers@[i], p.headers[i])
    &&& r.body@ == decode_utf8(p.body)
}

/// `r` is the outcome that `expected` describes.
pub open spec fn outcome_matches(
    r: Result<Request, ParseError>,
    expected: Result<Partial, ParseError>,
) -> bool {
    match (r, expected) {
        (Ok(q), Ok(p)) => request_matches(q, p),
        (Err(e), Err(f)) => e == f,
        _ => false,
    }
}

fn bytes_equal(a: &Vec<u8>, b: &[u8]) -> (r: bool)
    ensures
        r == (a@ == b@),
{
    if a.len() != b.len() {
        return false;
    }
    let mut i: usize = 0;
    while i < a.len()
        invariant
            a.len() == b@.len(),
            i <= a.len(),
            forall|j: int| 0 <= j < i ==> a@[j] == b@[j],
        decreases a.len() - i,
    {
        if a[i] != b[i] {
            return false;
        }
        i = i + 1;
    }
    assert(a@ =~= b@);
    true
}

/// The method that token `t` names.
fn method_from(t: Vec<u8>) -> (r: Method)
    requires
        valid_utf8(t@),
    ensures
        method_matches(r, t@),
{
    let options: [u8; 7] = [79, 80, 84, 73, 79, 78, 83];
    let get: [u8; 3] = [71, 69, 84];
    let post: [u8; 4] = [80, 79, 83, 84];
    let put: [u8; 3] = [80, 85, 84];
    let delete: [u8; 6] = [68, 69, 76, 69, 84, 69];
    let head: [u8; 4] = [72, 69, 65, 68];
    let trace: [u8; 5] = [84, 82, 65, 67, 69];
    let connect: [u8; 7] = [67, 79, 78, 78, 69, 67, 84];
    let patch: [u8; 5] = [80, 65, 84, 67, 72];
    assert(options@ =~= method_token(Method::Options));
    assert(get@ =~= method_token(Method::Get));
    assert(post@ =~= method_token(Method::Post));
    assert(put@ =~= method_token(Method::Put));
    assert(delete@ =~= method_token(Method::Delete));
    assert(head@ =~= method_token(Method::Head));
    assert(trace@ =~= method_token(Method::Trace));
    assert(connect@ =~= method_token(Method::Connect));
    assert(patch@ =~= method_token(Method::Patch));
    if bytes_equal(&t, options.as_slice()) {
        Method::Options
    } else if bytes_equal(&t, get.as_slice()) {
        Method::Get
    } else if bytes_equal(&t, post.as_slice()) {
        Method::Post
    } else if bytes_equal(&t, put.as_slice()) {
        Method::Put
    } else if bytes_equal(&t, delete.as_slice()) {
        Method::Delete
    } else if bytes_equal(&t, head.as_slice()) {
        Method::Head
    } else if bytes_equal(&t, trace.as_slice()) {
        Method::Trace
    } else if bytes_equal(&t, connect.as_slice()) {
        Method::Connect
    } else if bytes_equal(&t, patch.as_slice()) {
        Method::Patch
    } else {
        match string_from_utf8(t) {
            Some(s) => Method::Extension(s),
            None => {
                proof {
                    assert(false);
                }
                Method::Extension(String::new())
            },
        }
    }
}

impl Cursor {
    /// The request that the bytes read so far describe, once their text is
    /// decoded.
    pub fn into_request(self) -> (r: Result<Request, ParseError>)
        requires
            fields_valid(self@),
        ensures
            outcome_matches(
                r,
                if valid_utf8(self@.body) {
                    Ok(self@)
                } else {
                    Err(ParseError::InvalidEncoding)
                },
            ),
    {
        let ghost p = self@;
        let method = method_from(self.method);
        // the fields were checked as they were taken, so decoding them succeeds
        let path = match string_from_utf8(self.path) {
            Some(s) => s,
            None => {
                proof {
                    assert(false);
                }
                return Err(ParseError::InvalidEncoding);
            },
        };
        let mut headers: Vec<Header> = Vec::new();
        let mut i: usize = 0;
        while i < self.headers.len()
            invariant
                p == self@,
                p.headers == self.headers@.map_values(|h: (Vec<u8>, Vec<u8>)| pair_view(h)),
                i <= self.headers.len(),
                headers@.len() == i,
                fields_valid(p),
                forall|j: int| 0 <= j < i ==> header_matches(#[trigger] headers@[j], p.headers[j]),
            decreases self.headers.len() - i,
        {
            let name_bytes = copy_range(&self.headers[i].0, 0, self.headers[i].0.len());
            let value_bytes = copy_range(&self.headers[i].1, 0, self.headers[i].1.len());
            assert(name_bytes@ =~= p.headers[i as int].0);
            assert(value_bytes@ =~= p.headers[i as int].1);
            let name = match string_from_utf8(name_bytes) {
                Some(s) => s,
                None => {
                    proof {
                        assert(valid_utf8(p.headers[i as int].0) && valid_utf8(p.headers[i as int].1));
                        assert(false);
                    }
                    return Err(ParseError::InvalidEncoding);
                },
            };
            let value = match string_from_utf8(value_bytes) {
                Some(s) => s,
                None => {
                    proof {
                        assert(valid_utf8(p.headers[i as int].0) && valid_utf8(p.headers[i as int].1));
                        assert(false);
                    }
                    return Err(ParseError::InvalidEncoding);
                },
            };
            let ghost headers_before = headers@;
            headers.push(Header { name, value });
            proof {
                assert(header_matches(headers@[i as int], p.headers[i as int]));
                assert forall|j: int| 0 <= j < i implies headers@[j] == headers_before[j] by {}
            }
            i = i + 1;
        }
        let body = match string_from_utf8(self.body) {
            Some(s) => s,
            None => {
                return Err(ParseError::InvalidEncoding);
            },
        };
        Ok(Request { method, path, version: self.version, headers, body })
    }
}

pub(crate) fn append(v: &mut Vec<u8>, chunk: &[u8])
    ensures
        final(v)@ == old(v)@ + chunk@,
{
    let mut i: usize = 0;
    while i < chunk.len()
        invariant
            i <= chunk.len(),
            v@ == old(v)@ + chunk@.subrange(0, i as int),
        decreases chunk.len() - i,
    {
        v.push(chunk[i]);
        i = i + 1;
    }
    assert(chunk@.subrange(0, chunk@.len() as int) =~= chunk@);
}

/// A request parser that is fed the bytes of one request in chunks.
pub struct RequestParser {
    cursor: Cursor,
    /// Bytes received but not yet consumed: an unfinished token.
    pending: Vec<u8>,
    failed: Option<ParseError>,
    received: Ghost<Seq<u8>>,
}

impl RequestParser {
    /// All bytes fed so far.
    pub closed spec fn received(&self) -> Seq<u8> {
        self.received@
    }

    pub closed spec fn wf(&self) -> bool {
        match self.failed {
            Some(e) => drive(initial(), self.received@, false) == Err::<
                (Partial, Seq<u8>),
                ParseError,
            >(e),
            None => drive(initial(), self.received@, false) == Ok::<
                (Partial, Seq<u8>),
                ParseError,
            >((self.cursor@, self.pending@)),
        }
    }

    pub fn new() -> (r: RequestParser)
        ensures
            r.wf(),
            r.received() == Seq::<u8>::empty(),
    {
        let r = RequestParser {
            cursor: Cursor::new(),
            pending: Vec::new(),
            failed: None,
            received: Ghost(Seq::empty()),
        };
        assert(step(initial(), Seq::<u8>::empty(), false) is Need) by {
            reveal(step);
        }
        assert(r.pending@ =~= Seq::<u8>::empty());
        r
    }

    /// Consumes a chunk. An error is final: whatever bytes follow, the
    /// request fails with it.
    pub fn feed(&mut self, chunk: &[u8]) -> (r: Result<(), ParseError>)
        requires
            old(self).wf(),
        ensures
            final(self).wf(),
            final(self).received() == old(self).received() + chunk@,
            r is Ok <==> drive(initial(), final(self).received(), false) is Ok,
            r matches Err(e) ==> forall|rest: Seq<u8>|
                #[trigger] parse_bytes(final(self).received() + rest) == Err::<Partial, ParseError>(
                    e,
                ),
    {
        let ghost before = self.received@;
        proof {
            lemma_drive_extend(initial(), before, chunk@, false);
        }
        self.received = Ghost(before + chunk@);
        let r = match self.failed {
            Some(e) => Err(e),
            None => {
                append(&mut self.pending, chunk);
                match self.cursor.advance(&self.pending, false) {
                    Ok(n) => {
                        self.pending = copy_range(&self.pending, n, self.pending.len());
                        Ok(())
                    },
                    Err(e) => {
                        self.failed = Some(e);
                        Err(e)
                    },
                }
            },
        };
        proof {
            if let Err(e) = r {
                assert forall|rest: Seq<u8>|
                    #[trigger] parse_bytes(self.received@ + rest) == Err::<Partial, ParseError>(
                        e,
                    ) by {
                    lemma_drive_extend(initial(), self.received@, rest, true);
                }
            }
        }
        r
    }

    /// Ends the input: the request the received bytes hold, or the error they
    /// give.
    pub fn finish(self) -> (r: Result<Request, ParseError>)
        requires
            self.wf(),
        ensures
            outcome_matches(r, parse_bytes(self.received())),
    {
        let ghost all = self.received@;
        proof {
            lemma_drive_extend(initial(), all, Seq::<u8>::empty(), true);
            lemma_initial_fields_valid();
            lemma_drive_keeps_fields_valid(initial(), all, true);
            assert(all + Seq::<u8>::empty() =~= all);
            assert(self.pending@ + Seq::<u8>::empty() =~= self.pending@);
        }
        match self.failed {
            Some(e) => Err(e),
            None => {
                let mut cursor = self.cursor;
                match cursor.advance(&self.pending, true) {
                    Err(e) => Err(e),
                    Ok(_) => {
                        match cursor.phase {
                            Phase::Method | Phase::Path | Phase::Protocol => Err(
                                ParseError::MalformedStartLine,
                            ),
                            Phase::HeaderValue => Err(ParseError::MalformedHeader),
                            _ => cursor.into_request(),
                        }
                    },
                }
            },
        }
    }
}

/// The bytes of `chunks`, one after the other.
pub open spec fn joined(chunks: Seq<Seq<u8>>) -> Seq<u8>
    decreases chunks.len(),
{
    if chunks.len() == 0 {
        seq![]
    } else {
        joined(chunks.drop_last()) + chunks.last()
    }
}

pub open spec fn chunk_views(chunks: Seq<Vec<u8>>) -> Seq<Seq<u8>> {
    chunks.map_values(|c: Vec<u8>| c@)
}

/// Parses the request that `chunks` deliver, in order, before the input ends.
/// The outcome depends on their bytes alone, not on where one chunk ends.
pub fn read_http_request(chunks: &Vec<Vec<u8>>) -> (r: Result<Request, ParseError>)
    ensures
        outcome_matches(r, parse_bytes(joined(chunk_views(chunks@)))),
{
    let mut parser = RequestParser::new();
    let mut i: usize = 0;
    while i < chunks.len()
        invariant
            i <= chunks.len(),
            parser.wf(),
            parser.received() == joined(chunk_views(chunks@).take(i as int)),
        decreases chunks.len() - i,
    {
        proof {
            let cs = chunk_views(chunks@);
            assert(cs.take(i + 1).drop_last() =~= cs.take(i as int));
        }
        let _ = parser.feed(chunks[i].as_slice());
        i = i + 1;
    }
    assert(chunk_views(chunks@).take(chunks.len() as int) =~= chunk_views(chunks@));
    parser.finish()
}

} // verus!
