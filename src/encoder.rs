//! The response encoder, and the text responses that the endpoint sends.
use vstd::prelude::*;
use vstd::utf8::{decode_utf8, encode_utf8, is_leading_byte_width_1, partial_valid_utf8_extend_ascii_block, valid_utf8};
use crate::external::{canonical_reason, canonical_reason_of};
use crate::message::{Header, Response, Status, Version};
use crate::parser::append;
use vstd::string::StringSliceAdditionalSpecFns;

verus! {

pub open spec fn crlf() -> Seq<u8> {
    seq![13u8, 10]
}

/// The decimal digits of `n`, most significant first.
pub open spec fn decimal(n: nat) -> Seq<u8>
    decreases n,
{
    if n < 10 {
        seq![(48 + n) as u8]
    } else {
        decimal(n / 10).push((48 + n % 10) as u8)
    }
}

/// The token that names a version on the status line.
pub open spec fn version_token(v: Version) -> Seq<u8> {
    match v {
        Version::Http09 => seq![72u8, 84, 84, 80, 47, 48, 46, 57],
        Version::Http10 => seq![72u8, 84, 84, 80, 47, 49, 46, 48],
        Version::Http11 => seq![72u8, 84, 84, 80, 47, 49, 46, 49],
        Version::Http2 => seq![72u8, 84, 84, 80, 47, 50, 46, 48],
        Version::Http3 => seq![72u8, 84, 84, 80, 47, 51, 46, 48],
    }
}

/// The reason phrase of a code, empty where none is registered.
pub open spec fn reason_bytes(code: u16) -> Seq<u8> {
    match canonical_reason_of(code) {
        Some(p) => encode_utf8(p),
        None => seq![],
    }
}

/// `<version> <code> <reason>` and a line break.
pub open spec fn status_line(v: Version, code: u16) -> Seq<u8> {
    version_token(v) + seq![32u8] + decimal(code as nat) + seq![32u8] + reason_bytes(code) + crlf()
}

/// `<name>: <value>` and a line break.
pub open spec fn header_line(h: Header) -> Seq<u8> {
    encode_utf8(h.name@) + seq![58u8, 32] + encode_utf8(h.value@) + crlf()
}

/// The header lines of `hs`, in order.
pub open spec fn header_lines(hs: Seq<Header>) -> Seq<u8>
    decreases hs.len(),
{
    if hs.len() == 0 {
        seq![]
    } else {
        header_lines(hs.drop_last()) + header_line(hs.last())
    }
}

/// The bytes that carry `r` as a response of version `v`.
pub open spec fn response_bytes(v: Version, r: Response) -> Seq<u8> {
    status_line(v, r.status.code) + header_lines(r.headers@) + crlf() + encode_utf8(r.body@)
        + crlf()
}

/// Appends the decimal digits of `n`.
fn push_decimal(out: &mut Vec<u8>, n: usize)
    ensures
        final(out)@ == old(out)@ + decimal(n as nat),
    decreases n,
{
    if n >= 10 {
        push_decimal(out, n / 10);
    }
    out.push((48 + n % 10) as u8);
    assert(out@ =~= old(out)@ + decimal(n as nat));
}

proof fn lemma_decimal_ascii(n: nat)
    ensures
        forall|i: int| 0 <= i < decimal(n).len() ==> 48 <= #[trigger] decimal(n)[i] <= 57,
        decimal(n).len() > 0,
    decreases n,
{
    if n >= 10 {
        lemma_decimal_ascii(n / 10);
    }
}

/// The decimal digits of `n` as text.
fn decimal_string(n: usize) -> (r: String)
    ensures
        r@ == decode_utf8(decimal(n as nat)),
        valid_utf8(decimal(n as nat)),
{
    let mut digits: Vec<u8> = Vec::new();
    push_decimal(&mut digits, n);
    let ghost d = decimal(n as nat);
    proof {
        assert(digits@ =~= d);
        lemma_decimal_ascii(n as nat);
        assert forall|i: int| 0 <= 0 <= i < d.len() <= d.len() implies #[trigger] is_leading_byte_width_1(
            d[i],
        ) by {}
        partial_valid_utf8_extend_ascii_block(d, 0, d.len() as int);
        assert(d.subrange(0, 0) =~= Seq::<u8>::empty());
        assert(d.subrange(0, d.len() as int) =~= d);
    }
    match crate::external::string_from_utf8(digits) {
        Some(s) => s,
        None => {
            proof {
                assert(false);
            }
            String::new()
        },
    }
}

/// A plain-text response: `Content-Type: text/plain`, then `Content-Length`
/// with the byte length of `text` plus the two bytes of the line break that
/// the encoder puts after the body.
pub fn create_text_response(status: Status, text: &str) -> (r: Response)
    requires
        text.spec_bytes().len() + 2 <= usize::MAX,
    ensures
        r.status == status,
        r.headers@.len() == 2,
        r.headers@[0].name@ == "Content-Type"@,
        r.headers@[0].value@ == "text/plain"@,
        r.headers@[1].name@ == "Content-Length"@,
        r.headers@[1].value@ == decode_utf8(decimal((text.spec_bytes().len() + 2) as nat)),
        r.body@ == text@,
{
    let length = text.len() + 2;
    let mut headers: Vec<Header> = Vec::new();
    headers.push(Header { name: "Content-Type".to_owned(), value: "text/plain".to_owned() });
    headers.push(Header { name: "Content-Length".to_owned(), value: decimal_string(length) });
    Response { status, headers, body: text.to_owned() }
}

fn version_bytes(v: Version) -> (r: Vec<u8>)
    ensures
        r@ == version_token(v),
{
    let digits: [u8; 2] = match v {
        Version::Http09 => [48, 57],
        Version::Http10 => [49, 48],
        Version::Http11 => [49, 49],
        Version::Http2 => [50, 48],
        Version::Http3 => [51, 48],
    };
    let r: Vec<u8> = vec![72u8, 84, 84, 80, 47, digits[0], 46, digits[1]];
    assert(r@ =~= version_token(v));
    r
}

/// Serialises `response` for a request of version `version`: status line,
/// header lines in order, a blank line, then the body and a line break.
pub fn encode_response(version: Version, response: &Response) -> (r: Vec<u8>)
    requires
        response.status.wf(),
    ensures
        r@ == response_bytes(version, *response),
{
    let space: [u8; 1] = [32];
    let line_break: [u8; 2] = [13, 10];
    let separator: [u8; 2] = [58, 32];
    assert(line_break@ =~= crlf());
    assert(separator@ =~= seq![58u8, 32]);
    let mut out = version_bytes(version);
    append(&mut out, space.as_slice());
    push_decimal(&mut out, response.status.code as usize);
    append(&mut out, space.as_slice());
    match canonical_reason(response.status.code) {
        Some(p) => append(&mut out, p.as_bytes()),
        None => {},
    }
    append(&mut out, line_break.as_slice());
    assert(out@ =~= status_line(version, response.status.code));
    let ghost head = out@;
    let mut i: usize = 0;
    while i < response.headers.len()
        invariant
            i <= response.headers.len(),
            separator@ == seq![58u8, 32],
            line_break@ == crlf(),
            out@ == head + header_lines(response.headers@.take(i as int)),
        decreases response.headers.len() - i,
    {
        let h = &response.headers[i];
        let ghost before = out@;
        append(&mut out, h.name.as_str().as_bytes());
        append(&mut out, separator.as_slice());
        append(&mut out, h.value.as_str().as_bytes());
        append(&mut out, line_break.as_slice());
        proof {
            let hs = response.headers@.take(i + 1);
            assert(hs.drop_last() =~= response.headers@.take(i as int));
            assert(hs.last() == response.headers@[i as int]);
            assert(header_lines(hs) == header_lines(response.headers@.take(i as int)) + header_line(
                response.headers@[i as int],
            ));
            assert(out@ =~= before + header_line(response.headers@[i as int]));
            assert(out@ =~= head + header_lines(hs));
        }
        i = i + 1;
    }
    assert(response.headers@.take(response.headers.len() as int) =~= response.headers@);
    append(&mut out, line_break.as_slice());
    append(&mut out, response.body.as_str().as_bytes());
    append(&mut out, line_break.as_slice());
    assert(out@ =~= response_bytes(version, *response));
    out
}

} // verus!
