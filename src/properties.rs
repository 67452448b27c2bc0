//! What holds of every input: the parser reads back a well-formed request
//! exactly, and fails, defaults or collects the body as described.
use vstd::prelude::*;
use vstd::utf8::valid_utf8;
use crate::encoder::{header_line, header_lines, version_token};
use crate::message::Header;
use crate::parser::{header_matches, joined};
use vstd::utf8::{
    decode_utf8_encode_utf8, encode_utf8, is_leading_byte_width_1,
    partial_valid_utf8_extend_ascii_block,
};
use crate::external::is_method_token;
use crate::message::{ParseError, Version};
use crate::parser::{
    complete, drive, initial, is_eol, parse_bytes, scan, step, stops, terminator_len,
    version_of, Partial, Phase, Step, Stop,
};

verus! {

proof fn lemma_scan_to(a: Seq<u8>, b: Seq<u8>, i: int, k: Stop)
    requires
        0 <= i <= a.len(),
        forall|j: int| i <= j < a.len() ==> !stops(k, #[trigger] a[j]),
        b.len() > 0,
        stops(k, b[0]),
    ensures
        scan(a + b, i, k) == a.len(),
    decreases a.len() - i,
{
    if i < a.len() {
        lemma_scan_to(a, b, i + 1, k);
    } else {
        assert((a + b)[i] == b[0]);
    }
}

proof fn lemma_drive_step(s: Partial, inp: Seq<u8>, end: bool, n: int, s2: Partial)
    requires
        step(s, inp, end) == Step::Take(n, s2),
        0 < n <= inp.len(),
    ensures
        drive(s, inp, end) == drive(s2, inp.skip(n), end),
{
}

proof fn lemma_scan_past(a: Seq<u8>, b: Seq<u8>, i: int, k: Stop)
    requires
        0 <= i <= a.len(),
        forall|j: int| i <= j < a.len() ==> !stops(k, #[trigger] a[j]),
    ensures
        scan(a + b, i, k) >= a.len(),
    decreases a.len() - i,
{
    if i < a.len() {
        assert((a + b)[i] == a[i]);
        lemma_scan_past(a, b, i + 1, k);
    } else {
        crate::parser::lemma_scan_bounds(a + b, i, k);
    }
}

/// The text of one header line.
pub open spec fn header_text(h: (Seq<u8>, Seq<u8>)) -> Seq<u8> {
    h.0 + seq![58u8, 32] + h.1 + seq![13u8, 10]
}

/// The text of the header lines of `hs`, in order.
pub open spec fn headers_text(hs: Seq<(Seq<u8>, Seq<u8>)>) -> Seq<u8>
    decreases hs.len(),
{
    if hs.len() == 0 {
        seq![]
    } else {
        header_text(hs[0]) + headers_text(hs.drop_first())
    }
}

/// The text of a request: start line, header lines, a blank line, the body.
pub open spec fn request_text(
    method: Seq<u8>,
    path: Seq<u8>,
    version: Seq<u8>,
    headers: Seq<(Seq<u8>, Seq<u8>)>,
    body: Seq<u8>,
) -> Seq<u8> {
    method + seq![32u8] + path + seq![32u8] + version + seq![13u8, 10] + headers_text(headers)
        + seq![13u8, 10] + body
}

/// `t` holds no line terminator and, when it is not empty, does not start
/// with a space.
pub open spec fn plain_field(t: Seq<u8>) -> bool {
    &&& forall|j: int| 0 <= j < t.len() ==> !is_eol(#[trigger] t[j])
    &&& t.len() > 0 ==> t[0] != 32
}

/// A header that can be written as one line and read back as it is.
pub open spec fn well_formed_header(h: (Seq<u8>, Seq<u8>)) -> bool {
    &&& forall|j: int| 0 <= j < h.0.len() ==> !stops(Stop::Colon, #[trigger] h.0[j])
    &&& plain_field(h.1)
    &&& valid_utf8(h.0)
    &&& valid_utf8(h.1)
}

/// The state reached from `s` by reading the header lines of `hs`.
pub open spec fn after_headers(s: Partial, hs: Seq<(Seq<u8>, Seq<u8>)>) -> Partial
    decreases hs.len(),
{
    if hs.len() == 0 {
        s
    } else {
        after_headers(
            Partial { headers: s.headers.push(hs[0]), name: hs[0].0, ..s },
            hs.drop_first(),
        )
    }
}

proof fn lemma_after_headers(s: Partial, hs: Seq<(Seq<u8>, Seq<u8>)>)
    ensures
        after_headers(s, hs).headers == s.headers + hs,
        after_headers(s, hs).phase == s.phase,
        after_headers(s, hs).method == s.method,
        after_headers(s, hs).path == s.path,
        after_headers(s, hs).version == s.version,
        after_headers(s, hs).body == s.body,
    decreases hs.len(),
{
    if hs.len() > 0 {
        let s2 = Partial { headers: s.headers.push(hs[0]), name: hs[0].0, ..s };
        lemma_after_headers(s2, hs.drop_first());
        assert(s.headers.push(hs[0]) + hs.drop_first() =~= s.headers + hs);
    }
}

/// Reading one well-formed header line.
proof fn lemma_drive_header(s: Partial, h: (Seq<u8>, Seq<u8>), rest: Seq<u8>, end: bool)
    requires
        s.phase == Phase::HeaderName,
        well_formed_header(h),
    ensures
        drive(s, header_text(h) + rest, end) == drive(
            Partial { headers: s.headers.push(h), name: h.0, ..s },
            rest,
            end,
        ),
{
    let inp = header_text(h) + rest;
    let n = h.0.len() as int;
    // the name, up to its colon
    assert(inp =~= h.0 + (seq![58u8, 32] + h.1 + seq![13u8, 10] + rest));
    lemma_scan_to(h.0, seq![58u8, 32] + h.1 + seq![13u8, 10] + rest, 0, Stop::Colon);
    assert(inp[n] == 58);
    assert(inp.take(n) =~= h.0);
    if n > 0 {
        assert(!stops(Stop::Colon, h.0[0]));
    }
    assert(!is_eol(inp[0]));
    let s1 = Partial { phase: Phase::HeaderValue, name: h.0, ..s };
    assert(step(s, inp, end) == Step::Take(n + 1, s1)) by {
        reveal(step);
    }
    lemma_drive_step(s, inp, end, n + 1, s1);
    let inp1 = inp.skip(n + 1);
    assert(inp1 =~= seq![32u8] + h.1 + seq![13u8, 10] + rest);
    // the space after the colon
    assert(step(s1, inp1, end) == Step::Take(1, s1)) by {
        reveal(step);
    }
    lemma_drive_step(s1, inp1, end, 1, s1);
    let inp2 = inp1.skip(1);
    assert(inp2 =~= h.1 + (seq![13u8, 10] + rest));
    // the value, up to its line break
    let m = h.1.len() as int;
    assert forall|j: int| 0 <= j < m implies !stops(Stop::LineEnd, #[trigger] h.1[j]) by {
        assert(!is_eol(h.1[j]));
    }
    lemma_scan_to(h.1, seq![13u8, 10] + rest, 0, Stop::LineEnd);
    assert(inp2[m] == 13 && inp2[m + 1] == 10);
    assert(terminator_len(inp2, m, end) == Some(2int));
    assert(inp2.take(m) =~= h.1);
    let s3 = Partial { phase: Phase::HeaderName, headers: s.headers.push(h), name: h.0, ..s };
    assert(inp2[0] != 32);
    assert(step(s1, inp2, end) == Step::Take(m + 2, s3)) by {
        reveal(step);
    }
    lemma_drive_step(s1, inp2, end, m + 2, s3);
    assert(inp2.skip(m + 2) =~= rest);
}

/// Reading the header lines of `hs`.
proof fn lemma_drive_headers(s: Partial, hs: Seq<(Seq<u8>, Seq<u8>)>, rest: Seq<u8>, end: bool)
    requires
        s.phase == Phase::HeaderName,
        forall|i: int| 0 <= i < hs.len() ==> well_formed_header(#[trigger] hs[i]),
    ensures
        drive(s, headers_text(hs) + rest, end) == drive(after_headers(s, hs), rest, end),
    decreases hs.len(),
{
    if hs.len() == 0 {
        assert(headers_text(hs) + rest =~= rest);
    } else {
        assert(well_formed_header(hs[0]));
        let tail = headers_text(hs.drop_first()) + rest;
        assert(headers_text(hs) + rest =~= header_text(hs[0]) + tail);
        lemma_drive_header(s, hs[0], tail, end);
        let s2 = Partial { headers: s.headers.push(hs[0]), name: hs[0].0, ..s };
        assert forall|i: int| 0 <= i < hs.drop_first().len() implies well_formed_header(
            #[trigger] hs.drop_first()[i],
        ) by {
            assert(hs.drop_first()[i] == hs[i + 1]);
        }
        lemma_drive_headers(s2, hs.drop_first(), rest, end);
    }
}

/// Once the headers are over, every remaining byte belongs to the body, up
/// to the end of the input: the body needs no length to be read whole.
pub proof fn lemma_body_runs_to_end(s: Partial, inp: Seq<u8>, end: bool)
    requires
        s.phase == Phase::Body,
    ensures
        drive(s, inp, end) == Ok::<(Partial, Seq<u8>), ParseError>(
            (Partial { body: s.body + inp, ..s }, Seq::<u8>::empty()),
        ),
    decreases inp.len(),
{
    if inp.len() == 0 {
        assert(s.body + inp =~= s.body);
        assert(inp =~= Seq::<u8>::empty());
        assert(step(s, inp, end) is Need) by {
            reveal(step);
        }
    } else {
        let s2 = Partial { body: s.body.push(inp[0]), ..s };
        assert(step(s, inp, end) == Step::Take(1, s2)) by {
            reveal(step);
        }
        lemma_drive_step(s, inp, end, 1, s2);
        lemma_body_runs_to_end(s2, inp.skip(1), end);
        assert(s.body.push(inp[0]) + inp.skip(1) =~= s.body + inp);
    }
}

/// A well-formed request read as a whole gives back exactly its method, path,
/// version, headers (in order, repeated names included) and body; the
/// version token is read as `version_of` says.
#[verifier::rlimit(50)]
pub proof fn lemma_well_formed_request(
    method: Seq<u8>,
    path: Seq<u8>,
    version: Seq<u8>,
    headers: Seq<(Seq<u8>, Seq<u8>)>,
    body: Seq<u8>,
)
    requires
        is_method_token(method),
        valid_utf8(method),
        path.len() > 0,
        path[0] == 47,
        forall|j: int| 0 <= j < path.len() ==> #[trigger] path[j] != 32,
        valid_utf8(path),
        plain_field(version),
        valid_utf8(version),
        forall|i: int| 0 <= i < headers.len() ==> well_formed_header(#[trigger] headers[i]),
        valid_utf8(body),
    ensures
        parse_bytes(request_text(method, path, version, headers, body)) matches Ok(p) && p.method
            == method && p.path == path && p.version == version_of(version) && p.headers
            == headers && p.body == body,
{
    let inp = request_text(method, path, version, headers, body);
    let tail = headers_text(headers) + seq![13u8, 10] + body;
    // the method
    let r1 = seq![32u8] + path + seq![32u8] + version + seq![13u8, 10] + tail;
    assert(inp =~= method + r1);
    assert forall|j: int| 0 <= j < method.len() implies !stops(Stop::Space, #[trigger] method[j]) by {
        assert(crate::external::is_token_byte(method[j]));
    }
    lemma_scan_to(method, r1, 0, Stop::Space);
    assert forall|j: int| 0 <= j < method.len() implies !stops(Stop::LineEnd, #[trigger] method[j]) by {
        assert(crate::external::is_token_byte(method[j]));
    }
    lemma_scan_past(method, r1, 0, Stop::LineEnd);
    assert(inp.take(method.len() as int) =~= method);
    let s1 = Partial { phase: Phase::Path, method: method, ..initial() };
    assert(step(initial(), inp, true) == Step::Take(method.len() as int + 1, s1)) by {
        reveal(step);
    }
    lemma_drive_step(initial(), inp, true, method.len() as int + 1, s1);
    let inp1 = inp.skip(method.len() as int + 1);
    // the path
    let r2 = seq![32u8] + version + seq![13u8, 10] + tail;
    assert(inp1 =~= path + r2);
    assert forall|j: int| 0 <= j < path.len() implies !stops(Stop::Space, #[trigger] path[j]) by {
        assert(path[j] != 32);
    }
    lemma_scan_to(path, r2, 0, Stop::Space);
    assert(inp1.take(path.len() as int) =~= path);
    let s2 = Partial { phase: Phase::Protocol, path: path, ..s1 };
    assert(step(s1, inp1, true) == Step::Take(path.len() as int + 1, s2)) by {
        reveal(step);
    }
    lemma_drive_step(s1, inp1, true, path.len() as int + 1, s2);
    let inp2 = inp1.skip(path.len() as int + 1);
    // the version
    let r3 = seq![13u8, 10] + tail;
    assert(inp2 =~= version + r3);
    lemma_drive_version(s2, version, r3);
    let s3 = Partial { phase: Phase::HeaderName, version: version_of(version), ..s2 };
    assert(r3[1] == 10);
    assert(terminator_len(r3, 0, true) == Some(2int));
    let inp3 = r3.skip(2);
    // the headers
    assert(inp3 =~= headers_text(headers) + (seq![13u8, 10] + body));
    lemma_drive_headers(s3, headers, seq![13u8, 10] + body, true);
    let s4 = after_headers(s3, headers);
    lemma_after_headers(s3, headers);
    assert(s3.headers + headers =~= headers);
    // the blank line
    let inp4 = seq![13u8, 10] + body;
    assert(terminator_len(inp4, 0, true) == Some(2int));
    let s5 = Partial { phase: Phase::Body, ..s4 };
    assert(step(s4, inp4, true) == Step::Take(2, s5)) by {
        reveal(step);
    }
    lemma_drive_step(s4, inp4, true, 2, s5);
    assert(inp4.skip(2) =~= body);
    // the body
    lemma_body_runs_to_end(s5, body, true);
    assert(s5.body + body =~= body);
    let p = Partial { body: s5.body + body, ..s5 };
    assert(drive(initial(), inp, true) == Ok::<(Partial, Seq<u8>), ParseError>(
        (p, Seq::<u8>::empty()),
    ));
    assert(complete(p) == Ok::<Partial, ParseError>(p));
    assert(valid_utf8(p.body));
}

/// A request whose first line holds no space before its line break (or
/// before the input ends) lacks the space after the method: it fails with
/// `MalformedStartLine`.
pub proof fn lemma_method_needs_space(inp: Seq<u8>)
    requires
        forall|j: int| 0 <= j < scan(inp, 0, Stop::LineEnd) ==> #[trigger] inp[j] != 32,
    ensures
        parse_bytes(inp) == Err::<Partial, ParseError>(ParseError::MalformedStartLine),
{
    if inp.len() == 0 {
        assert(step(initial(), inp, true) is Need) by {
            reveal(step);
        }
    } else {
        let i = scan(inp, 0, Stop::Space);
        let e = scan(inp, 0, Stop::LineEnd);
        crate::parser::lemma_scan_bounds(inp, 0, Stop::Space);
        crate::parser::lemma_scan_bounds(inp, 0, Stop::LineEnd);
        if i < inp.len() {
            // the space comes after the line break, which the token then holds
            assert(inp[i] == 32);
            assert(e < i);
            let t = inp.take(i);
            assert(t[e] == inp[e]);
            assert(!crate::external::is_token_byte(t[e]));
            assert(!is_method_token(t));
        }
        assert(step(initial(), inp, true) == Step::Fail(ParseError::MalformedStartLine)) by {
            reveal(step);
        }
    }
}

/// Every version token that the encoder writes is read back as its version.
pub proof fn lemma_version_round_trip(v: Version)
    ensures
        version_of(version_token(v)) == v,
{
    let t = version_token(v);
    assert(t.len() == 8 && t[0] == 72 && t[1] == 84 && t[2] == 84 && t[3] == 80 && t[4] == 47
        && t[6] == 46);
}

/// A version token other than `HTTP/0.9`, `HTTP/1.0`, `HTTP/1.1`, `HTTP/2.0`
/// and `HTTP/3.0` does not fail the parse: it reads as version 1.0.
pub proof fn lemma_unknown_version(t: Seq<u8>)
    requires
        forall|v: Version| t != #[trigger] version_token(v),
    ensures
        version_of(t) == Version::Http10,
{
    if t.len() == 8 && t[0] == 72 && t[1] == 84 && t[2] == 84 && t[3] == 80 && t[4] == 47 && t[6]
        == 46 {
        if t[5] == 48 && t[7] == 57 {
            assert(t =~= version_token(Version::Http09));
        } else if t[5] == 49 && t[7] == 49 {
            assert(t =~= version_token(Version::Http11));
        } else if t[5] == 50 && t[7] == 48 {
            assert(t =~= version_token(Version::Http2));
        } else if t[5] == 51 && t[7] == 48 {
            assert(t =~= version_token(Version::Http3));
        }
    }
}

proof fn lemma_header_lines_front(hs: Seq<Header>)
    requires
        hs.len() > 0,
    ensures
        header_lines(hs) == header_line(hs[0]) + header_lines(hs.drop_first()),
    decreases hs.len(),
{
    if hs.len() == 1 {
        assert(hs.drop_last() =~= Seq::<Header>::empty());
        assert(hs.drop_first() =~= Seq::<Header>::empty());
        assert(header_lines(hs.drop_last()) == Seq::<u8>::empty());
        assert(header_lines(hs.drop_first()) == Seq::<u8>::empty());
        assert(hs.last() == hs[0]);
        assert(header_lines(hs) =~= header_line(hs[0]));
    } else {
        lemma_header_lines_front(hs.drop_last());
        assert(hs.drop_last().drop_first() =~= hs.drop_first().drop_last());
        assert(hs.drop_first().last() == hs.last());
        assert(hs.drop_last()[0] == hs[0]);
        assert(header_lines(hs) =~= header_line(hs[0]) + header_lines(hs.drop_first()));
    }
}

/// Headers read from a request and put into a response are written back
/// byte for byte, in the order in which they came.
pub proof fn lemma_headers_written_back(hs: Seq<Header>, read: Seq<(Seq<u8>, Seq<u8>)>)
    requires
        hs.len() == read.len(),
        forall|i: int| 0 <= i < hs.len() ==> header_matches(#[trigger] hs[i], read[i]),
        forall|i: int|
            0 <= i < read.len() ==> valid_utf8(#[trigger] read[i].0) && valid_utf8(read[i].1),
    ensures
        header_lines(hs) == headers_text(read),
    decreases hs.len(),
{
    if hs.len() > 0 {
        lemma_header_lines_front(hs);
        assert(header_matches(hs[0], read[0]));
        assert(valid_utf8(read[0].0) && valid_utf8(read[0].1));
        decode_utf8_encode_utf8(read[0].0);
        decode_utf8_encode_utf8(read[0].1);
        assert(header_line(hs[0]) =~= header_text(read[0]));
        assert forall|i: int| 0 <= i < hs.drop_first().len() implies header_matches(
            #[trigger] hs.drop_first()[i],
            read.drop_first()[i],
        ) by {
            assert(header_matches(hs[i + 1], read[i + 1]));
        }
        assert forall|i: int| 0 <= i < read.drop_first().len() implies valid_utf8(
            #[trigger] read.drop_first()[i].0,
        ) && valid_utf8(read.drop_first()[i].1) by {
            assert(valid_utf8(read[i + 1].0));
        }
        lemma_headers_written_back(hs.drop_first(), read.drop_first());
    } else {
        assert(header_lines(hs) =~= headers_text(read));
    }
}

/// A request delivered as a single chunk is parsed from that chunk's bytes.
pub proof fn lemma_single_chunk(c: Seq<u8>)
    ensures
        joined(seq![c]) == c,
{
    assert(seq![c].drop_last() =~= Seq::<Seq<u8>>::empty());
    assert(joined(Seq::<Seq<u8>>::empty()) + c =~= c);
}

/// Reading a version token that is followed by its line break.
proof fn lemma_drive_version(s: Partial, x: Seq<u8>, post: Seq<u8>)
    requires
        s.phase == Phase::Protocol,
        plain_field(x),
        valid_utf8(x),
        post.len() > 0,
        is_eol(post[0]),
    ensures
        drive(s, x + post, true) == drive(
            Partial { phase: Phase::HeaderName, version: version_of(x), ..s },
            post.skip(terminator_len(post, 0, true)->0),
            true,
        ),
{
    let inp = x + post;
    let n = x.len() as int;
    assert forall|j: int| 0 <= j < n implies !stops(Stop::LineEnd, #[trigger] x[j]) by {
        assert(!is_eol(x[j]));
    }
    lemma_scan_to(x, post, 0, Stop::LineEnd);
    assert(inp[n] == post[0]);
    if post.len() > 1 {
        assert(inp[n + 1] == post[1]);
    }
    let k = terminator_len(post, 0, true)->0;
    assert(terminator_len(inp, n, true) == Some(k));
    assert(inp.take(n) =~= x);
    if n > 0 {
        assert(inp[0] == x[0]);
    }
    assert(inp[0] != 32);
    let s2 = Partial { phase: Phase::HeaderName, version: version_of(x), ..s };
    assert(step(s, inp, true) == Step::Take(n + k, s2)) by {
        reveal(step);
    }
    lemma_drive_step(s, inp, true, n + k, s2);
    assert(inp.skip(n + k) =~= post.skip(k));
}

/// An unrecognised version token does not fail the parse: whatever comes
/// before and after it, the request reads exactly as it does with `HTTP/1.0`
/// in its place, version 1.0 included. `pre` is the text up to the token:
/// the method, the path and the spaces after it.
pub proof fn lemma_unknown_version_reads_as_1_0(pre: Seq<u8>, t: Seq<u8>, post: Seq<u8>)
    requires
        drive(initial(), pre, false) matches Ok((s, rest)) && s.phase == Phase::Protocol
            && rest.len() == 0,
        forall|v: Version| t != #[trigger] version_token(v),
        plain_field(t),
        valid_utf8(t),
        post.len() > 0,
        is_eol(post[0]),
    ensures
        parse_bytes(pre + t + post) == parse_bytes(pre + version_token(Version::Http10) + post),
        parse_bytes(pre + t + post) matches Ok(p) ==> p.version == Version::Http10,
{
    let h = version_token(Version::Http10);
    let (s, rest) = drive(initial(), pre, false)->Ok_0;
    crate::parser::lemma_drive_extend(initial(), pre, t + post, true);
    crate::parser::lemma_drive_extend(initial(), pre, h + post, true);
    assert(pre + t + post =~= pre + (t + post));
    assert(pre + h + post =~= pre + (h + post));
    assert(rest + (t + post) =~= t + post);
    assert(rest + (h + post) =~= h + post);
    // the token that replaces it is plain ASCII text
    assert forall|i: int| 0 <= 0 <= i < h.len() <= h.len() implies #[trigger] is_leading_byte_width_1(
        h[i],
    ) by {}
    partial_valid_utf8_extend_ascii_block(h, 0, h.len() as int);
    assert(h.subrange(0, 0) =~= Seq::<u8>::empty());
    assert(h.subrange(0, h.len() as int) =~= h);
    assert forall|j: int| 0 <= j < h.len() implies !is_eol(#[trigger] h[j]) by {}
    lemma_drive_version(s, t, post);
    lemma_drive_version(s, h, post);
    lemma_unknown_version(t);
    lemma_version_round_trip(Version::Http10);
    let s2 = Partial { phase: Phase::HeaderName, version: Version::Http10, ..s };
    let tail = post.skip(terminator_len(post, 0, true)->0);
    if let Ok((q, _)) = drive(s2, tail, true) {
        lemma_drive_keeps_version(s2, tail);
    }
}

/// Nothing after the version token changes the version.
proof fn lemma_drive_keeps_version(s: Partial, inp: Seq<u8>)
    requires
        s.phase == Phase::HeaderName || s.phase == Phase::HeaderValue || s.phase == Phase::Body,
    ensures
        drive(s, inp, true) matches Ok((q, _)) ==> q.version == s.version && (q.phase
            == Phase::HeaderName || q.phase == Phase::HeaderValue || q.phase == Phase::Body),
    decreases inp.len(),
{
    reveal(step);
    match step(s, inp, true) {
        Step::Take(n, s2) => {
            if 0 < n <= inp.len() {
                lemma_drive_keeps_version(s2, inp.skip(n));
            }
        },
        _ => {},
    }
}

/// The header block that the encoder writes for `hs` is read back by the
/// parser as the same headers, in the same order, repeated names kept.
pub proof fn lemma_encoded_headers_parse_back(
    hs: Seq<Header>,
    read: Seq<(Seq<u8>, Seq<u8>)>,
    s: Partial,
    rest: Seq<u8>,
    end: bool,
)
    requires
        s.phase == Phase::HeaderName,
        hs.len() == read.len(),
        forall|i: int| 0 <= i < hs.len() ==> header_matches(#[trigger] hs[i], read[i]),
        forall|i: int| 0 <= i < read.len() ==> well_formed_header(#[trigger] read[i]),
    ensures
        header_lines(hs) == headers_text(read),
        drive(s, header_lines(hs) + rest, end) == drive(after_headers(s, read), rest, end),
        after_headers(s, read).headers == s.headers + read,
        after_headers(s, read).phase == Phase::HeaderName,
{
    assert forall|i: int| 0 <= i < read.len() implies valid_utf8(#[trigger] read[i].0) && valid_utf8(
        read[i].1,
    ) by {
        assert(well_formed_header(read[i]));
    }
    lemma_headers_written_back(hs, read);
    lemma_drive_headers(s, read, rest, end);
    lemma_after_headers(s, read);
}

} // verus!
