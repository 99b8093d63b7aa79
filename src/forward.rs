use vstd::prelude::*;
use crate::bytes::{append_bytes, copy_range, crlf, join_lines, lines_view, split_crlf, split_lines};
use crate::error::GatewayError;
use crate::headers::{append_line, append_passed_lines, passed_lines};
use crate::names::{
    connection_close, connection_close_bytes, connection_name, connection_name_bytes, host_field,
    host_field_bytes, host_name, host_name_bytes,
};
use crate::request::{is_utf8, RequestLine, RequestModel};
use vstd::utf8::valid_utf8;

verus! {

/// The upstream that requests are forwarded to.
#[derive(Debug, Clone)]
pub struct Upstream {
    pub host: Vec<u8>,
    pub port: u16,
    /// Path prefix for every forwarded target, without trailing slashes.
    pub base_path: Vec<u8>,
    /// The URL as it was configured.
    pub raw_url: Vec<u8>,
}

pub open spec fn strip_leading(s: Seq<u8>, b: u8) -> Seq<u8>
    decreases s.len(),
{
    if s.len() > 0 && s[0] == b {
        strip_leading(s.drop_first(), b)
    } else {
        s
    }
}

pub open spec fn strip_trailing(s: Seq<u8>, b: u8) -> Seq<u8>
    decreases s.len(),
{
    if s.len() > 0 && s.last() == b {
        strip_trailing(s.drop_last(), b)
    } else {
        s
    }
}

/// The target sent upstream: the request target itself when the base path
/// is empty or `/`, else the base path and the target joined by one slash.
pub open spec fn forwarded_target(base: Seq<u8>, target: Seq<u8>) -> Seq<u8> {
    if base.len() == 0 || base == seq![47u8] {
        target
    } else {
        strip_trailing(base, 47u8) + seq![47u8] + strip_leading(target, 47u8)
    }
}

/// Header names that are never forwarded as they came.
pub open spec fn request_owned_names() -> Seq<Seq<u8>> {
    seq![host_name(), connection_name()]
}

/// The bytes sent upstream for a request.
pub open spec fn forwarded_request(
    req: RequestModel,
    original_head: Seq<u8>,
    body: Seq<u8>,
    host: Seq<u8>,
    base: Seq<u8>,
) -> Seq<u8> {
    req.method + seq![32u8] + forwarded_target(base, req.path) + seq![32u8] + req.version + crlf()
        + join_lines(passed_lines(split_crlf(original_head).drop_first(), request_owned_names()))
        + host_field() + host + crlf() + connection_close() + crlf() + crlf() + body
}

/// Where `s` ends once trailing `b` bytes are removed.
fn end_without_trailing(s: &[u8], b: u8) -> (r: usize)
    ensures
        r <= s@.len(),
        s@.subrange(0, r as int) == strip_trailing(s@, b),
{
    let mut hi: usize = s.len();
    assert(s@.subrange(0, hi as int) =~= s@);
    while hi > 0 && s[hi - 1] == b
        invariant
            hi <= s@.len(),
            strip_trailing(s@, b) == strip_trailing(s@.subrange(0, hi as int), b),
        decreases hi,
    {
        assert(s@.subrange(0, hi as int).drop_last() =~= s@.subrange(0, hi - 1));
        hi = hi - 1;
    }
    hi
}

/// Where `s` starts once leading `b` bytes are removed.
fn start_without_leading(s: &[u8], b: u8) -> (r: usize)
    ensures
        r <= s@.len(),
        s@.subrange(r as int, s@.len() as int) == strip_leading(s@, b),
{
    let n = s.len();
    let mut lo: usize = 0;
    assert(s@.subrange(0, n as int) =~= s@);
    while lo < n && s[lo] == b
        invariant
            n == s@.len(),
            lo <= n,
            strip_leading(s@, b) == strip_leading(s@.subrange(lo as int, n as int), b),
        decreases n - lo,
    {
        assert(s@.subrange(lo as int, n as int).drop_first() =~= s@.subrange(lo + 1, n as int));
        lo = lo + 1;
    }
    lo
}

/// The target to send upstream for a request target.
pub fn forwarded_path(base: &[u8], target: &[u8]) -> (r: Vec<u8>)
    ensures
        r@ == forwarded_target(base@, target@),
{
    if base.len() == 0 || (base.len() == 1 && base[0] == 47) {
        proof {
            if base@.len() == 1 && base@[0] == 47u8 {
                assert(base@ =~= seq![47u8]);
            }
        }
        return copy_range(target, 0, target.len());
    }
    proof {
        if base@ == seq![47u8] {
            assert(base@[0] == 47u8);
        }
    }
    let hi = end_without_trailing(base, 47);
    let lo = start_without_leading(target, 47);
    let mut out = copy_range(base, 0, hi);
    out.push(47);
    let rest = copy_range(target, lo, target.len());
    append_bytes(&mut out, rest.as_slice());
    out
}

/// With an empty base path, the target is forwarded unchanged.
pub proof fn lemma_empty_base_keeps_target(target: Seq<u8>)
    ensures
        forwarded_target(Seq::empty(), target) == target,
{
}

/// The request to send upstream: the request line with the rebased target,
/// the original header lines but `Host` and `Connection`, a `Host` line for
/// the upstream, `Connection: close`, and the body unchanged.
pub fn build_forwarded_request(
    req: &RequestLine,
    original_head: &[u8],
    body: &[u8],
    upstream: &Upstream,
) -> (r: Result<Vec<u8>, GatewayError>)
    ensures
        match r {
            Ok(out) => valid_utf8(original_head@) && out@ == forwarded_request(
                req@,
                original_head@,
                body@,
                upstream.host@,
                upstream.base_path@,
            ),
            Err(e) => !valid_utf8(original_head@) && e == GatewayError::MalformedHead,
        },
{
    if !is_utf8(original_head) {
        return Err(GatewayError::MalformedHead);
    }
    let target = forwarded_path(upstream.base_path.as_slice(), req.path.as_slice());
    let mut out: Vec<u8> = Vec::new();
    append_bytes(&mut out, req.method.as_slice());
    out.push(32);
    append_bytes(&mut out, target.as_slice());
    out.push(32);
    append_line(&mut out, req.version.as_slice());
    let lines = split_lines(original_head);
    proof {
        crate::bytes::lemma_split_crlf_nonempty(original_head@);
    }
    let names: Vec<Vec<u8>> = vec![host_name_bytes(), connection_name_bytes()];
    assert(lines_view(names@) =~= request_owned_names());
    append_passed_lines(&mut out, &lines, &names);
    let hf = host_field_bytes();
    append_bytes(&mut out, hf.as_slice());
    append_line(&mut out, upstream.host.as_slice());
    let cc = connection_close_bytes();
    append_line(&mut out, cc.as_slice());
    append_line(&mut out, Vec::new().as_slice());
    append_bytes(&mut out, body);
    assert(out@ =~= forwarded_request(
        req@,
        original_head@,
        body@,
        upstream.host@,
        upstream.base_path@,
    ));
    Ok(out)
}

} // verus!
