use vstd::prelude::*;
use crate::bytes::{
    append_bytes, copy_range, crlf, decimal, find_double_crlf, first_token, after_first_token,
    is_first_terminator, join_lines, terminator_at, lines_view, next_token, no_terminator, parse_bounded,
    parse_u64, push_decimal, split_crlf, split_lines, ascii_lower, starts_with_ci,
};
use crate::error::GatewayError;
use crate::headers::{
    append_headers, append_line, append_passed_lines, headers_text, passed_lines, passes, Header,
};
use crate::names::{
    connection_close, connection_close_bytes, connection_name, connection_name_bytes,
    content_length_field, content_length_field_bytes, content_length_name,
    content_length_name_bytes, content_type_field, content_type_field_bytes,
    gateway_variant_field, gateway_variant_field_bytes, gateway_variant_name,
    gateway_variant_name_bytes, gateway_workload_field, gateway_workload_field_bytes,
    gateway_workload_name, gateway_workload_name_bytes, name_separator, upstream_status_name,
    upstream_status_name_bytes, upstream_url_name, upstream_url_name_bytes,
};
use crate::request::is_utf8;
use vstd::utf8::valid_utf8;

verus! {

/// Header names the gateway owns on every response it emits: never passed
/// on from upstream, always written afresh.
pub open spec fn response_owned_names() -> Seq<Seq<u8>> {
    seq![
        content_length_name(),
        connection_name(),
        gateway_variant_name(),
        gateway_workload_name(),
        upstream_url_name(),
        upstream_status_name(),
    ]
}

/// The header lines the gateway appends: its identity, the workload label,
/// the caller's diagnostic headers, the body length and `Connection: close`.
pub open spec fn gateway_lines(
    variant: Seq<u8>,
    workload: Seq<u8>,
    extra: Seq<Header>,
    body_len: nat,
) -> Seq<Seq<u8>> {
    seq![gateway_variant_field() + variant, gateway_workload_field() + workload] + headers_text(
        extra,
    ) + seq![content_length_field() + decimal(body_len), connection_close()]
}

/// A response: status line, header lines, blank line, body.
pub open spec fn response_bytes(status: Seq<u8>, lines: Seq<Seq<u8>>, body: Seq<u8>) -> Seq<u8> {
    status + crlf() + join_lines(lines) + crlf() + body
}

/// The header lines of a response rebuilt from an upstream head.
pub open spec fn rebuilt_lines(
    head: Seq<u8>,
    variant: Seq<u8>,
    workload: Seq<u8>,
    extra: Seq<Header>,
    body_len: nat,
) -> Seq<Seq<u8>> {
    passed_lines(split_crlf(head).drop_first(), response_owned_names()) + gateway_lines(
        variant,
        workload,
        extra,
        body_len,
    )
}

/// The header lines of a response made from scratch.
pub open spec fn built_lines(
    content_type: Option<Seq<u8>>,
    variant: Seq<u8>,
    workload: Seq<u8>,
    extra: Seq<Header>,
    body_len: nat,
) -> Seq<Seq<u8>> {
    let ct_lines: Seq<Seq<u8>> = match content_type {
        Some(ct) => seq![content_type_field() + ct],
        None => Seq::empty(),
    };
    ct_lines + gateway_lines(variant, workload, extra, body_len)
}

/// The status code in the status line of a response head.
pub open spec fn status_code_of(head: Seq<u8>) -> Option<nat> {
    if !valid_utf8(head) {
        None
    } else {
        parse_bounded(first_token(after_first_token(split_crlf(head)[0])), u16::MAX as nat)
    }
}

proof fn lemma_join_one(a: Seq<u8>)
    ensures
        join_lines(seq![a]) == a + crlf(),
{
    assert(seq![a].drop_last() =~= Seq::<Seq<u8>>::empty());
    assert(join_lines(Seq::<Seq<u8>>::empty()) + a + crlf() =~= a + crlf());
}

proof fn lemma_join_two(a: Seq<u8>, b: Seq<u8>)
    ensures
        join_lines(seq![a, b]) == a + crlf() + b + crlf(),
{
    assert(seq![a, b].drop_last() =~= seq![a]);
    lemma_join_one(a);
}

pub proof fn lemma_join_concat(a: Seq<Seq<u8>>, b: Seq<Seq<u8>>)
    ensures
        join_lines(a + b) == join_lines(a) + join_lines(b),
    decreases b.len(),
{
    if b.len() == 0 {
        assert(a + b =~= a);
        assert(join_lines(a) + join_lines(b) =~= join_lines(a));
    } else {
        assert((a + b).drop_last() =~= a + b.drop_last());
        assert((a + b).last() == b.last());
        lemma_join_concat(a, b.drop_last());
        assert(join_lines(a + b) =~= join_lines(a) + join_lines(b));
    }
}

/// Splits a raw response at its head terminator.
pub fn split_http_response(resp: &[u8]) -> (r: Result<(Vec<u8>, Vec<u8>), GatewayError>)
    ensures
        match r {
            Ok((head, body)) => exists|i: int|
                is_first_terminator(resp@, i) && head@ == resp@.subrange(0, i) && body@
                    == resp@.subrange(i + 4, resp@.len() as int),
            Err(e) => no_terminator(resp@) && e == GatewayError::MalformedUpstreamResponse,
        },
{
    match find_double_crlf(resp) {
        None => Err(GatewayError::MalformedUpstreamResponse),
        Some(i) => {
            assert(crate::bytes::terminator_at(resp@, i as int));
            assert(crate::bytes::crlf_at(resp@, i + 2));
            let n = resp.len();
            let head = copy_range(resp, 0, i);
            let body = copy_range(resp, i + 4, n);
            Ok((head, body))
        },
    }
}

/// The status code of an upstream response head.
pub fn parse_status_code_from_head(head: &[u8]) -> (r: Result<u16, GatewayError>)
    ensures
        match r {
            Ok(code) => status_code_of(head@) == Some(code as nat),
            Err(e) => status_code_of(head@) is None && e == GatewayError::MalformedUpstreamResponse,
        },
{
    if !is_utf8(head) {
        return Err(GatewayError::MalformedUpstreamResponse);
    }
    let lines = split_lines(head);
    proof {
        crate::bytes::lemma_split_crlf_nonempty(head@);
    }
    let line = lines[0].as_slice();
    assert(lines_view(lines@)[0] == line@);
    assert(line@.subrange(0, line@.len() as int) =~= line@);
    let (_a0, a1) = next_token(line, 0);
    let (b0, b1) = next_token(line, a1);
    let code = copy_range(line, b0, b1);
    match parse_u64(code.as_slice()) {
        Some(v) => {
            if v <= 65535 {
                Ok(v as u16)
            } else {
                Err(GatewayError::MalformedUpstreamResponse)
            }
        },
        None => Err(GatewayError::MalformedUpstreamResponse),
    }
}

/// Appends the gateway's own header lines and the blank line.
#[verifier::rlimit(40)]
fn append_gateway_lines(
    out: &mut Vec<u8>,
    variant: &[u8],
    workload: &[u8],
    extra: &Vec<Header>,
    body_len: usize,
)
    ensures
        final(out)@ == old(out)@ + join_lines(
            gateway_lines(variant@, workload@, extra@, body_len as nat),
        ) + crlf(),
{
    let ghost start = out@;
    let vf = gateway_variant_field_bytes();
    append_bytes(out, vf.as_slice());
    append_line(out, variant);
    let wf = gateway_workload_field_bytes();
    append_bytes(out, wf.as_slice());
    append_line(out, workload);
    let ghost mid = out@;
    append_headers(out, extra);
    let ghost after_extra = out@;
    let clf = content_length_field_bytes();
    append_bytes(out, clf.as_slice());
    let ghost before_len = out@;
    push_decimal(out, body_len as u64);
    let nl: Vec<u8> = vec![13u8, 10u8];
    append_bytes(out, nl.as_slice());
    let cc = connection_close_bytes();
    append_line(out, cc.as_slice());
    append_line(out, Vec::new().as_slice());
    proof {
        let first = seq![gateway_variant_field() + variant@, gateway_workload_field() + workload@];
        let last = seq![content_length_field() + decimal(body_len as nat), connection_close()];
        let hx = headers_text(extra@);
        lemma_join_two(gateway_variant_field() + variant@, gateway_workload_field() + workload@);
        lemma_join_two(content_length_field() + decimal(body_len as nat), connection_close());
        lemma_join_concat(first, hx);
        lemma_join_concat(first + hx, last);
        assert(out@ =~= start + join_lines(
            gateway_lines(variant@, workload@, extra@, body_len as nat),
        ) + crlf());
    }
}

/// A response made from scratch for a local endpoint.
pub fn build_response(
    variant: &[u8],
    status_line: &[u8],
    body: &[u8],
    workload: &[u8],
    content_type: Option<&[u8]>,
    extra_headers: &Vec<Header>,
) -> (r: Vec<u8>)
    ensures
        r@ == response_bytes(
            status_line@,
            built_lines(
                match content_type {
                    Some(ct) => Some(ct@),
                    None => None,
                },
                variant@,
                workload@,
                extra_headers@,
                body@.len(),
            ),
            body@,
        ),
{
    let mut out: Vec<u8> = Vec::new();
    append_line(&mut out, status_line);
    let ghost start = out@;
    let ghost ct_lines: Seq<Seq<u8>> = match content_type {
        Some(ct) => seq![content_type_field() + ct@],
        None => Seq::empty(),
    };
    match content_type {
        Some(ct) => {
            let f = content_type_field_bytes();
            append_bytes(&mut out, f.as_slice());
            append_line(&mut out, ct);
            proof {
                lemma_join_one(content_type_field() + ct@);
            }
        },
        None => {},
    }
    assert(out@ =~= start + join_lines(ct_lines));
    append_gateway_lines(&mut out, variant, workload, extra_headers, body.len());
    append_bytes(&mut out, body);
    proof {
        let g = gateway_lines(variant@, workload@, extra_headers@, body@.len());
        lemma_join_concat(ct_lines, g);
        assert(out@ =~= response_bytes(status_line@, ct_lines + g, body@));
    }
    out
}

/// A response rebuilt from an upstream head and a (possibly transformed)
/// body: the status line is kept, header lines the gateway owns are dropped,
/// and the gateway's own lines are appended.
pub fn rebuild_response_with_extra_headers(
    variant: &[u8],
    head: &[u8],
    body: &[u8],
    workload: &[u8],
    extra_headers: &Vec<Header>,
) -> (r: Result<Vec<u8>, GatewayError>)
    ensures
        match r {
            Ok(out) => valid_utf8(head@) && out@ == response_bytes(
                split_crlf(head@)[0],
                rebuilt_lines(head@, variant@, workload@, extra_headers@, body@.len()),
                body@,
            ),
            Err(e) => !valid_utf8(head@) && e == GatewayError::MalformedUpstreamResponse,
        },
{
    if !is_utf8(head) {
        return Err(GatewayError::MalformedUpstreamResponse);
    }
    let lines = split_lines(head);
    proof {
        crate::bytes::lemma_split_crlf_nonempty(head@);
    }
    assert(lines_view(lines@)[0] == lines@[0]@);
    let mut out: Vec<u8> = Vec::new();
    append_line(&mut out, lines[0].as_slice());
    let ghost start = out@;
    let names: Vec<Vec<u8>> = vec![
        content_length_name_bytes(),
        connection_name_bytes(),
        gateway_variant_name_bytes(),
        gateway_workload_name_bytes(),
        upstream_url_name_bytes(),
        upstream_status_name_bytes(),
    ];
    assert(lines_view(names@) =~= response_owned_names());
    append_passed_lines(&mut out, &lines, &names);
    append_gateway_lines(&mut out, variant, workload, extra_headers, body.len());
    append_bytes(&mut out, body);
    proof {
        let p = passed_lines(split_crlf(head@).drop_first(), response_owned_names());
        let g = gateway_lines(variant@, workload@, extra_headers@, body@.len());
        lemma_join_concat(p, g);
        assert(out@ =~= response_bytes(split_crlf(head@)[0], p + g, body@));
    }
    Ok(out)
}


/// The lines among `lines` that start with `name`, case aside.
pub open spec fn lines_named(lines: Seq<Seq<u8>>, name: Seq<u8>) -> Seq<Seq<u8>> {
    lines.filter(|l: Seq<u8>| starts_with_ci(l, name))
}

/// Diagnostic headers that a caller may add: none is named like a framing
/// header or the gateway's identity and workload headers, and no two share
/// one of the other names the gateway owns.
pub open spec fn diagnostics_ok(extra: Seq<Header>) -> bool {
    let hx = headers_text(extra);
    &&& lines_named(hx, content_length_name()).len() == 0
    &&& lines_named(hx, connection_name()).len() == 0
    &&& lines_named(hx, gateway_variant_name()).len() == 0
    &&& lines_named(hx, gateway_workload_name()).len() == 0
    &&& lines_named(hx, upstream_url_name()).len() <= 1
    &&& lines_named(hx, upstream_status_name()).len() <= 1
}

proof fn lemma_not_named_at(l: Seq<u8>, n: Seq<u8>, k: int)
    requires
        0 <= k < n.len(),
        k < l.len(),
        ascii_lower(l[k]) != n[k],
    ensures
        !starts_with_ci(l, n),
{
}

proof fn lemma_named_one(x: Seq<u8>, n: Seq<u8>)
    ensures
        lines_named(seq![x], n) == (if starts_with_ci(x, n) {
            seq![x]
        } else {
            Seq::<Seq<u8>>::empty()
        }),
{
    reveal(Seq::filter);
    let p = |l: Seq<u8>| starts_with_ci(l, n);
    let s = seq![x];
    assert(s.drop_last() =~= Seq::<Seq<u8>>::empty());
    assert(s.drop_last().filter(p) =~= Seq::<Seq<u8>>::empty());
    assert(s.last() == x);
    assert(Seq::<Seq<u8>>::empty().push(x) =~= seq![x]);
}

proof fn lemma_passed_unnamed(lines: Seq<Seq<u8>>, names: Seq<Seq<u8>>, k: int)
    requires
        0 <= k < names.len(),
    ensures
        lines_named(passed_lines(lines, names), names[k]) == Seq::<Seq<u8>>::empty(),
    decreases lines.len(),
{
    reveal(Seq::filter);
    if lines.len() > 0 {
        lemma_passed_unnamed(lines.drop_last(), names, k);
        let prev = passed_lines(lines.drop_last(), names);
        if passes(lines.last(), names) {
            assert(!starts_with_ci(lines.last(), names[k]));
            assert(prev.push(lines.last()).drop_last() =~= prev);
        }
    }
}

/// No fixed header field of the gateway starts with a name it does not own.
proof fn lemma_fields_unnamed(v: Seq<u8>)
    ensures
        !starts_with_ci(gateway_variant_field() + v, content_length_name()),
        !starts_with_ci(gateway_variant_field() + v, connection_name()),
        !starts_with_ci(gateway_variant_field() + v, gateway_workload_name()),
        !starts_with_ci(gateway_variant_field() + v, upstream_url_name()),
        !starts_with_ci(gateway_variant_field() + v, upstream_status_name()),
        !starts_with_ci(gateway_workload_field() + v, content_length_name()),
        !starts_with_ci(gateway_workload_field() + v, connection_name()),
        !starts_with_ci(gateway_workload_field() + v, gateway_variant_name()),
        !starts_with_ci(gateway_workload_field() + v, upstream_url_name()),
        !starts_with_ci(gateway_workload_field() + v, upstream_status_name()),
        !starts_with_ci(content_length_field() + v, connection_name()),
        !starts_with_ci(content_length_field() + v, gateway_variant_name()),
        !starts_with_ci(content_length_field() + v, gateway_workload_name()),
        !starts_with_ci(content_length_field() + v, upstream_url_name()),
        !starts_with_ci(content_length_field() + v, upstream_status_name()),
        !starts_with_ci(connection_close() + v, content_length_name()),
        !starts_with_ci(connection_close() + v, gateway_variant_name()),
        !starts_with_ci(connection_close() + v, gateway_workload_name()),
        !starts_with_ci(connection_close() + v, upstream_url_name()),
        !starts_with_ci(connection_close() + v, upstream_status_name()),
        !starts_with_ci(content_type_field() + v, content_length_name()),
        !starts_with_ci(content_type_field() + v, connection_name()),
        !starts_with_ci(content_type_field() + v, gateway_variant_name()),
        !starts_with_ci(content_type_field() + v, gateway_workload_name()),
        !starts_with_ci(content_type_field() + v, upstream_url_name()),
        !starts_with_ci(content_type_field() + v, upstream_status_name()),
{
    lemma_not_named_at(gateway_variant_field() + v, content_length_name(), 0);
    lemma_not_named_at(gateway_variant_field() + v, connection_name(), 0);
    lemma_not_named_at(gateway_variant_field() + v, gateway_workload_name(), 10);
    lemma_not_named_at(gateway_variant_field() + v, upstream_url_name(), 2);
    lemma_not_named_at(gateway_variant_field() + v, upstream_status_name(), 2);
    lemma_not_named_at(gateway_workload_field() + v, content_length_name(), 0);
    lemma_not_named_at(gateway_workload_field() + v, connection_name(), 0);
    lemma_not_named_at(gateway_workload_field() + v, gateway_variant_name(), 10);
    lemma_not_named_at(gateway_workload_field() + v, upstream_url_name(), 2);
    lemma_not_named_at(gateway_workload_field() + v, upstream_status_name(), 2);
    lemma_not_named_at(content_length_field() + v, connection_name(), 3);
    lemma_not_named_at(content_length_field() + v, gateway_variant_name(), 0);
    lemma_not_named_at(content_length_field() + v, gateway_workload_name(), 0);
    lemma_not_named_at(content_length_field() + v, upstream_url_name(), 0);
    lemma_not_named_at(content_length_field() + v, upstream_status_name(), 0);
    lemma_not_named_at(connection_close() + v, content_length_name(), 3);
    lemma_not_named_at(connection_close() + v, gateway_variant_name(), 0);
    lemma_not_named_at(connection_close() + v, gateway_workload_name(), 0);
    lemma_not_named_at(connection_close() + v, upstream_url_name(), 0);
    lemma_not_named_at(connection_close() + v, upstream_status_name(), 0);
    lemma_not_named_at(content_type_field() + v, content_length_name(), 8);
    lemma_not_named_at(content_type_field() + v, connection_name(), 3);
    lemma_not_named_at(content_type_field() + v, gateway_variant_name(), 0);
    lemma_not_named_at(content_type_field() + v, gateway_workload_name(), 0);
    lemma_not_named_at(content_type_field() + v, upstream_url_name(), 0);
    lemma_not_named_at(content_type_field() + v, upstream_status_name(), 0);
}

proof fn lemma_content_length_field_named(v: Seq<u8>)
    ensures
        starts_with_ci(content_length_field() + v, content_length_name()),
{
    let s = content_length_field() + v;
    let n = content_length_name();
    assert forall|k: int| 0 <= k < n.len() implies #[trigger] ascii_lower(s[k]) == n[k] by {
        assert(k == 0 || k == 1 || k == 2 || k == 3 || k == 4 || k == 5 || k == 6 || k == 7 || k == 8 || k == 9 || k == 10 || k == 11 || k == 12 || k == 13 || k == 14);
    }
}

proof fn lemma_connection_close_named(v: Seq<u8>)
    ensures
        starts_with_ci(connection_close() + v, connection_name()),
{
    let s = connection_close() + v;
    let n = connection_name();
    assert forall|k: int| 0 <= k < n.len() implies #[trigger] ascii_lower(s[k]) == n[k] by {
        assert(k == 0 || k == 1 || k == 2 || k == 3 || k == 4 || k == 5 || k == 6 || k == 7 || k == 8 || k == 9 || k == 10);
    }
}


proof fn lemma_gateway_variant_field_named(v: Seq<u8>)
    ensures
        starts_with_ci(gateway_variant_field() + v, gateway_variant_name()),
{
    let s = gateway_variant_field() + v;
    let n = gateway_variant_name();
    assert forall|k: int| 0 <= k < n.len() implies #[trigger] ascii_lower(s[k]) == n[k] by {
        assert(k == 0 || k == 1 || k == 2 || k == 3 || k == 4 || k == 5 || k == 6 || k == 7 || k == 8 || k == 9 || k == 10 || k == 11 || k == 12 || k == 13 || k == 14 || k == 15 || k == 16 || k == 17);
    }
}

proof fn lemma_gateway_workload_field_named(v: Seq<u8>)
    ensures
        starts_with_ci(gateway_workload_field() + v, gateway_workload_name()),
{
    let s = gateway_workload_field() + v;
    let n = gateway_workload_name();
    assert forall|k: int| 0 <= k < n.len() implies #[trigger] ascii_lower(s[k]) == n[k] by {
        assert(k == 0 || k == 1 || k == 2 || k == 3 || k == 4 || k == 5 || k == 6 || k == 7 || k == 8 || k == 9 || k == 10 || k == 11 || k == 12 || k == 13 || k == 14 || k == 15 || k == 16 || k == 17 || k == 18);
    }
}

proof fn lemma_gateway_split(
    variant: Seq<u8>,
    workload: Seq<u8>,
    extra: Seq<Header>,
    body_len: nat,
    n: Seq<u8>,
)
    ensures
        lines_named(gateway_lines(variant, workload, extra, body_len), n) == lines_named(
            seq![gateway_variant_field() + variant],
            n,
        ) + lines_named(seq![gateway_workload_field() + workload], n) + lines_named(
            headers_text(extra),
            n,
        ) + lines_named(seq![content_length_field() + decimal(body_len)], n) + lines_named(
            seq![connection_close()],
            n,
        ),
{
    let v = seq![gateway_variant_field() + variant];
    let w = seq![gateway_workload_field() + workload];
    let c = seq![content_length_field() + decimal(body_len)];
    let kk = seq![connection_close()];
    let hx = headers_text(extra);
    let p = |l: Seq<u8>| starts_with_ci(l, n);
    assert(gateway_lines(variant, workload, extra, body_len) =~= v + w + hx + c + kk);
    Seq::filter_distributes_over_add(v, w, p);
    Seq::filter_distributes_over_add(v + w, hx, p);
    Seq::filter_distributes_over_add(v + w + hx, c, p);
    Seq::filter_distributes_over_add(v + w + hx + c, kk, p);
}

/// How many lines of the gateway's own block start with an owned name.
proof fn lemma_gateway_lines_named(
    variant: Seq<u8>,
    workload: Seq<u8>,
    extra: Seq<Header>,
    body_len: nat,
    k: int,
)
    requires
        diagnostics_ok(extra),
        0 <= k < 6,
    ensures
        k == 0 ==> lines_named(gateway_lines(variant, workload, extra, body_len), content_length_name())
            == seq![content_length_field() + decimal(body_len)],
        k == 1 ==> lines_named(gateway_lines(variant, workload, extra, body_len), connection_name())
            == seq![connection_close()],
        k == 2 ==> lines_named(gateway_lines(variant, workload, extra, body_len), gateway_variant_name())
            == seq![gateway_variant_field() + variant],
        k == 3 ==> lines_named(gateway_lines(variant, workload, extra, body_len), gateway_workload_name())
            == seq![gateway_workload_field() + workload],
        lines_named(
            gateway_lines(variant, workload, extra, body_len),
            response_owned_names()[k],
        ).len() <= 1,
{
    let n = response_owned_names()[k];
    let v = gateway_variant_field() + variant;
    let w = gateway_workload_field() + workload;
    let c = content_length_field() + decimal(body_len);
    let e = Seq::<u8>::empty();
    assert(connection_close() + e =~= connection_close());
    lemma_fields_unnamed(variant);
    lemma_fields_unnamed(workload);
    lemma_fields_unnamed(decimal(body_len));
    lemma_fields_unnamed(e);
    lemma_content_length_field_named(decimal(body_len));
    lemma_connection_close_named(e);
    lemma_gateway_variant_field_named(variant);
    lemma_gateway_workload_field_named(workload);
    lemma_gateway_split(variant, workload, extra, body_len, n);
    lemma_named_one(v, n);
    lemma_named_one(w, n);
    lemma_named_one(c, n);
    lemma_named_one(connection_close(), n);
    let hx = headers_text(extra);
    if k == 0 {
        assert(lines_named(hx, n) =~= Seq::<Seq<u8>>::empty());
        assert(lines_named(gateway_lines(variant, workload, extra, body_len), n) =~= seq![c]);
    } else if k == 1 {
        assert(lines_named(hx, n) =~= Seq::<Seq<u8>>::empty());
        assert(lines_named(gateway_lines(variant, workload, extra, body_len), n) =~= seq![
            connection_close(),
        ]);
    } else if k == 2 {
        assert(lines_named(hx, n) =~= Seq::<Seq<u8>>::empty());
        assert(lines_named(gateway_lines(variant, workload, extra, body_len), n) =~= seq![v]);
    } else if k == 3 {
        assert(lines_named(hx, n) =~= Seq::<Seq<u8>>::empty());
        assert(lines_named(gateway_lines(variant, workload, extra, body_len), n) =~= seq![w]);
    }
}

/// Every response the gateway rebuilds from an upstream head carries exactly
/// one `Content-Length`, whose value is the length of the final body, exactly
/// one `Connection` header, which says `close`, exactly one identity and one
/// workload header, and at most one header of each name the gateway owns,
/// whatever the upstream sent.
pub proof fn lemma_header_ownership(
    head: Seq<u8>,
    variant: Seq<u8>,
    workload: Seq<u8>,
    extra: Seq<Header>,
    body_len: nat,
)
    requires
        diagnostics_ok(extra),
    ensures
        lines_named(rebuilt_lines(head, variant, workload, extra, body_len), content_length_name())
            == seq![content_length_field() + decimal(body_len)],
        lines_named(rebuilt_lines(head, variant, workload, extra, body_len), connection_name())
            == seq![connection_close()],
        lines_named(rebuilt_lines(head, variant, workload, extra, body_len), gateway_variant_name())
            == seq![gateway_variant_field() + variant],
        lines_named(rebuilt_lines(head, variant, workload, extra, body_len), gateway_workload_name())
            == seq![gateway_workload_field() + workload],
        forall|k: int|
            0 <= k < 6 ==> lines_named(
                rebuilt_lines(head, variant, workload, extra, body_len),
                #[trigger] response_owned_names()[k],
            ).len() <= 1,
{
    let p = passed_lines(split_crlf(head).drop_first(), response_owned_names());
    let g = gateway_lines(variant, workload, extra, body_len);
    lemma_gateway_lines_named(variant, workload, extra, body_len, 0);
    lemma_gateway_lines_named(variant, workload, extra, body_len, 1);
    lemma_gateway_lines_named(variant, workload, extra, body_len, 2);
    lemma_gateway_lines_named(variant, workload, extra, body_len, 3);
    assert forall|k: int| 0 <= k < 6 implies #[trigger] lines_named(
        p + g,
        response_owned_names()[k],
    ) == lines_named(g, response_owned_names()[k]) && lines_named(g, response_owned_names()[k]).len() <= 1 by {
        lemma_gateway_lines_named(variant, workload, extra, body_len, k);
        let n = response_owned_names()[k];
        Seq::filter_distributes_over_add(p, g, |l: Seq<u8>| starts_with_ci(l, n));
        lemma_passed_unnamed(split_crlf(head).drop_first(), response_owned_names(), k);
        assert(Seq::<Seq<u8>>::empty() + lines_named(g, n) =~= lines_named(g, n));
    }
    assert(lines_named(p + g, response_owned_names()[0]) == lines_named(g, response_owned_names()[0]));
    assert(lines_named(p + g, response_owned_names()[1]) == lines_named(g, response_owned_names()[1]));
    assert(lines_named(p + g, response_owned_names()[2]) == lines_named(g, response_owned_names()[2]));
    assert(lines_named(p + g, response_owned_names()[3]) == lines_named(g, response_owned_names()[3]));
}

/// The same holds of every response made from scratch for a local endpoint.
pub proof fn lemma_local_header_ownership(
    content_type: Option<Seq<u8>>,
    variant: Seq<u8>,
    workload: Seq<u8>,
    extra: Seq<Header>,
    body_len: nat,
)
    requires
        diagnostics_ok(extra),
    ensures
        lines_named(built_lines(content_type, variant, workload, extra, body_len), content_length_name())
            == seq![content_length_field() + decimal(body_len)],
        lines_named(built_lines(content_type, variant, workload, extra, body_len), connection_name())
            == seq![connection_close()],
        lines_named(built_lines(content_type, variant, workload, extra, body_len), gateway_variant_name())
            == seq![gateway_variant_field() + variant],
        lines_named(built_lines(content_type, variant, workload, extra, body_len), gateway_workload_name())
            == seq![gateway_workload_field() + workload],
        forall|k: int|
            0 <= k < 6 ==> lines_named(
                built_lines(content_type, variant, workload, extra, body_len),
                #[trigger] response_owned_names()[k],
            ).len() <= 1,
{
    let ct: Seq<Seq<u8>> = match content_type {
        Some(t) => seq![content_type_field() + t],
        None => Seq::empty(),
    };
    let g = gateway_lines(variant, workload, extra, body_len);
    lemma_gateway_lines_named(variant, workload, extra, body_len, 0);
    lemma_gateway_lines_named(variant, workload, extra, body_len, 1);
    lemma_gateway_lines_named(variant, workload, extra, body_len, 2);
    lemma_gateway_lines_named(variant, workload, extra, body_len, 3);
    assert forall|k: int| 0 <= k < 6 implies #[trigger] lines_named(
        ct + g,
        response_owned_names()[k],
    ) == lines_named(g, response_owned_names()[k]) && lines_named(g, response_owned_names()[k]).len() <= 1 by {
        lemma_gateway_lines_named(variant, workload, extra, body_len, k);
        let n = response_owned_names()[k];
        Seq::filter_distributes_over_add(ct, g, |l: Seq<u8>| starts_with_ci(l, n));
        match content_type {
            Some(t) => {
                lemma_fields_unnamed(t);
                lemma_named_one(content_type_field() + t, n);
            },
            None => {
                reveal(Seq::filter);
            },
        }
        assert(lines_named(ct, n) =~= Seq::<Seq<u8>>::empty());
        assert(Seq::<Seq<u8>>::empty() + lines_named(g, n) =~= lines_named(g, n));
    }
    assert(lines_named(ct + g, response_owned_names()[0]) == lines_named(g, response_owned_names()[0]));
    assert(lines_named(ct + g, response_owned_names()[1]) == lines_named(g, response_owned_names()[1]));
    assert(lines_named(ct + g, response_owned_names()[2]) == lines_named(g, response_owned_names()[2]));
    assert(lines_named(ct + g, response_owned_names()[3]) == lines_named(g, response_owned_names()[3]));
}


/// `s` holds no carriage return.
pub open spec fn no_cr(s: Seq<u8>) -> bool {
    forall|i: int| 0 <= i < s.len() ==> s[i] != 13u8
}

/// No CRLF in `s` is followed by a carriage return.
pub open spec fn no_crlf_cr(s: Seq<u8>) -> bool {
    forall|i: int|
        0 <= i && i + 2 < s.len() && #[trigger] s[i] == 13u8 && s[i + 1] == 10u8 ==> s[i + 2]
            != 13u8
}

/// Header lines that frame cleanly: none is empty and none holds a carriage return.
pub open spec fn clean_lines(lines: Seq<Seq<u8>>) -> bool {
    forall|k: int| 0 <= k < lines.len() ==> #[trigger] lines[k].len() > 0 && no_cr(lines[k])
}

proof fn lemma_block_step(s: Seq<u8>, l: Seq<u8>)
    requires
        no_crlf_cr(s),
        s.len() >= 1,
        s.last() == 10u8,
        l.len() > 0,
        no_cr(l),
    ensures
        no_crlf_cr(s + l + crlf()),
        (s + l + crlf()).len() >= 1,
        (s + l + crlf()).last() == 10u8,
{
    let t = s + l + crlf();
    assert forall|i: int|
        0 <= i && i + 2 < t.len() && #[trigger] t[i] == 13u8 && t[i + 1] == 10u8 implies t[i + 2]
        != 13u8 by {
        if i + 2 < s.len() {
            assert(t[i] == s[i] && t[i + 1] == s[i + 1] && t[i + 2] == s[i + 2]);
        } else if i == s.len() - 2 {
            assert(t[i + 2] == l[0]);
        } else if i == s.len() - 1 {
            assert(t[i] == s.last());
        } else if i < s.len() + l.len() {
            assert(t[i] == l[i - s.len()]);
        }
    }
}

proof fn lemma_block_clean(status: Seq<u8>, lines: Seq<Seq<u8>>)
    requires
        no_cr(status),
        clean_lines(lines),
    ensures
        no_crlf_cr(status + crlf() + join_lines(lines)),
        (status + crlf() + join_lines(lines)).len() >= 2,
        (status + crlf() + join_lines(lines)).last() == 10u8,
    decreases lines.len(),
{
    if lines.len() == 0 {
        let t = status + crlf() + join_lines(lines);
        assert(t =~= status + crlf());
        assert forall|i: int|
            0 <= i && i + 2 < t.len() && #[trigger] t[i] == 13u8 && t[i + 1] == 10u8 implies t[i
            + 2] != 13u8 by {
            assert(t[i] == status[i]);
        }
    } else {
        let d = lines.drop_last();
        assert(clean_lines(d)) by {
            assert forall|k: int| 0 <= k < d.len() implies #[trigger] d[k].len() > 0 && no_cr(d[k]) by {
                assert(d[k] == lines[k]);
            }
        }
        lemma_block_clean(status, d);
        assert(lines[lines.len() - 1] == lines.last());
        lemma_block_step(status + crlf() + join_lines(d), lines.last());
        assert(status + crlf() + join_lines(d) + lines.last() + crlf() =~= status + crlf()
            + join_lines(lines));
    }
}

/// When the status line and the header lines hold no carriage return and no
/// header line is empty, the first head terminator of the response is the one
/// that ends its header block: what follows is exactly the body.
pub proof fn lemma_response_framing(status: Seq<u8>, lines: Seq<Seq<u8>>, body: Seq<u8>)
    requires
        no_cr(status),
        clean_lines(lines),
        lines.len() >= 1,
    ensures
        ({
            let block = status + crlf() + join_lines(lines);
            let out = response_bytes(status, lines, body);
            &&& is_first_terminator(out, block.len() - 2)
            &&& out.subrange(0, block.len() - 2) == status + crlf() + join_lines(lines).subrange(
                0,
                join_lines(lines).len() - 2,
            )
            &&& out.subrange(block.len() + 2 as int, out.len() as int) == body
        }),
{
    let block = status + crlf() + join_lines(lines);
    let out = response_bytes(status, lines, body);
    lemma_block_clean(status, lines);
    let d = lines.drop_last();
    let pre = status + crlf() + join_lines(d) + lines.last();
    assert(block =~= pre + crlf());
    assert(out =~= block + crlf() + body);
    let p = block.len() - 2;
    assert(out[p] == 13u8 && out[p + 1] == 10u8 && out[p + 2] == 13u8 && out[p + 3] == 10u8);
    assert forall|j: int| 0 <= j < p implies !terminator_at(out, j) by {
        if terminator_at(out, j) {
            assert(out[j] == block[j] && out[j + 1] == block[j + 1] && out[j + 2] == block[j + 2]);
        }
    }
    assert(join_lines(lines) =~= join_lines(d) + lines.last() + crlf());
    assert(out.subrange(0, p) =~= status + crlf() + join_lines(lines).subrange(
        0,
        join_lines(lines).len() - 2,
    ));
    assert(out.subrange(block.len() + 2 as int, out.len() as int) =~= body);
}


proof fn lemma_fields_no_cr()
    ensures
        no_cr(gateway_variant_field()),
        no_cr(gateway_workload_field()),
        no_cr(content_length_field()),
        no_cr(connection_close()),
        no_cr(name_separator()),
{
    assert forall|k: int| 0 <= k < gateway_variant_field().len() implies gateway_variant_field()[k] != 13u8 by {
        assert(k == 0 || k == 1 || k == 2 || k == 3 || k == 4 || k == 5 || k == 6 || k == 7 || k == 8 || k == 9 || k == 10 || k == 11 || k == 12 || k == 13 || k == 14 || k == 15 || k == 16 || k == 17 || k == 18);
    }
    assert forall|k: int| 0 <= k < gateway_workload_field().len() implies gateway_workload_field()[k] != 13u8 by {
        assert(k == 0 || k == 1 || k == 2 || k == 3 || k == 4 || k == 5 || k == 6 || k == 7 || k == 8 || k == 9 || k == 10 || k == 11 || k == 12 || k == 13 || k == 14 || k == 15 || k == 16 || k == 17 || k == 18 || k == 19);
    }
    assert forall|k: int| 0 <= k < content_length_field().len() implies content_length_field()[k] != 13u8 by {
        assert(k == 0 || k == 1 || k == 2 || k == 3 || k == 4 || k == 5 || k == 6 || k == 7 || k == 8 || k == 9 || k == 10 || k == 11 || k == 12 || k == 13 || k == 14 || k == 15);
    }
    assert forall|k: int| 0 <= k < connection_close().len() implies connection_close()[k] != 13u8 by {
        assert(k == 0 || k == 1 || k == 2 || k == 3 || k == 4 || k == 5 || k == 6 || k == 7 || k == 8 || k == 9 || k == 10 || k == 11 || k == 12 || k == 13 || k == 14 || k == 15 || k == 16);
    }
    assert forall|k: int| 0 <= k < name_separator().len() implies name_separator()[k] != 13u8 by {
        assert(k == 0 || k == 1);
    }
}

proof fn lemma_no_cr_add(a: Seq<u8>, b: Seq<u8>)
    requires
        no_cr(a),
        no_cr(b),
    ensures
        no_cr(a + b),
{
    assert forall|i: int| 0 <= i < (a + b).len() implies (a + b)[i] != 13u8 by {
        if i < a.len() {
            assert((a + b)[i] == a[i]);
        } else {
            assert((a + b)[i] == b[i - a.len()]);
        }
    }
}

proof fn lemma_decimal_no_cr(n: nat)
    ensures
        no_cr(decimal(n)),
        decimal(n).len() > 0,
    decreases n,
{
    if n >= 10 {
        lemma_decimal_no_cr(n / 10);
    }
}

proof fn lemma_clean_add(a: Seq<Seq<u8>>, b: Seq<Seq<u8>>)
    requires
        clean_lines(a),
        clean_lines(b),
    ensures
        clean_lines(a + b),
{
    assert forall|k: int| 0 <= k < (a + b).len() implies #[trigger] (a + b)[k].len() > 0 && no_cr(
        (a + b)[k],
    ) by {
        if k < a.len() {
            assert((a + b)[k] == a[k]);
        } else {
            assert((a + b)[k] == b[k - a.len()]);
        }
    }
}

proof fn lemma_passed_clean(lines: Seq<Seq<u8>>, names: Seq<Seq<u8>>)
    requires
        forall|k: int| 0 <= k < lines.len() ==> no_cr(#[trigger] lines[k]),
    ensures
        clean_lines(passed_lines(lines, names)),
    decreases lines.len(),
{
    reveal(Seq::filter);
    if lines.len() > 0 {
        let d = lines.drop_last();
        assert forall|k: int| 0 <= k < d.len() implies no_cr(#[trigger] d[k]) by {
            assert(d[k] == lines[k]);
        }
        lemma_passed_clean(d, names);
        assert(no_cr(lines[lines.len() - 1]));
        if passes(lines.last(), names) {
            let p = passed_lines(d, names);
            assert(clean_lines(seq![lines.last()]));
            lemma_clean_add(p, seq![lines.last()]);
            assert(p.push(lines.last()) =~= p + seq![lines.last()]);
        }
    }
}

/// Diagnostic headers whose lines hold no carriage return.
pub open spec fn clean_headers(extra: Seq<Header>) -> bool {
    forall|k: int| 0 <= k < extra.len() ==> no_cr(#[trigger] extra[k].name@) && no_cr(extra[k].value@)
}

proof fn lemma_gateway_lines_clean(variant: Seq<u8>, workload: Seq<u8>, extra: Seq<Header>, body_len: nat)
    requires
        no_cr(variant),
        no_cr(workload),
        clean_headers(extra),
    ensures
        clean_lines(gateway_lines(variant, workload, extra, body_len)),
{
    lemma_fields_no_cr();
    lemma_decimal_no_cr(body_len);
    lemma_no_cr_add(gateway_variant_field(), variant);
    lemma_no_cr_add(gateway_workload_field(), workload);
    lemma_no_cr_add(content_length_field(), decimal(body_len));
    let hx = headers_text(extra);
    assert forall|k: int| 0 <= k < hx.len() implies #[trigger] hx[k].len() > 0 && no_cr(hx[k]) by {
        let h = extra[k];
        lemma_no_cr_add(h.name@, name_separator());
        lemma_no_cr_add(h.name@ + name_separator(), h.value@);
        assert(hx[k] == h.name@ + name_separator() + h.value@);
    }
    let first = seq![gateway_variant_field() + variant, gateway_workload_field() + workload];
    let last = seq![content_length_field() + decimal(body_len), connection_close()];
    assert(clean_lines(first));
    assert(clean_lines(last));
    lemma_clean_add(first, hx);
    lemma_clean_add(first + hx, last);
}

/// An upstream head whose lines hold no carriage return but in their CRLF
/// separators.
pub open spec fn clean_head(head: Seq<u8>) -> bool {
    forall|k: int| 0 <= k < split_crlf(head).len() ==> no_cr(#[trigger] split_crlf(head)[k])
}

/// Under the same conditions, a rebuilt response splits at the end of the
/// gateway's header block, and its body is exactly the body it was given.
pub proof fn lemma_rebuilt_framing(
    head: Seq<u8>,
    variant: Seq<u8>,
    workload: Seq<u8>,
    extra: Seq<Header>,
    body: Seq<u8>,
)
    requires
        clean_head(head),
        no_cr(variant),
        no_cr(workload),
        clean_headers(extra),
    ensures
        ({
            let lines = rebuilt_lines(head, variant, workload, extra, body.len());
            let status = split_crlf(head)[0];
            let block = status + crlf() + join_lines(lines);
            let out = response_bytes(status, lines, body);
            &&& is_first_terminator(out, block.len() - 2)
            &&& out.subrange(0, block.len() - 2) == status + crlf() + join_lines(lines).subrange(
                0,
                join_lines(lines).len() - 2,
            )
            &&& out.subrange(block.len() + 2 as int, out.len() as int) == body
        }),
{
    crate::bytes::lemma_split_crlf_nonempty(head);
    let l = split_crlf(head);
    let d = l.drop_first();
    assert forall|k: int| 0 <= k < d.len() implies no_cr(#[trigger] d[k]) by {
        assert(d[k] == l[k + 1]);
    }
    lemma_passed_clean(d, response_owned_names());
    lemma_gateway_lines_clean(variant, workload, extra, body.len());
    let p = passed_lines(d, response_owned_names());
    let g = gateway_lines(variant, workload, extra, body.len());
    lemma_clean_add(p, g);
    assert(no_cr(l[0]));
    lemma_response_framing(l[0], p + g, body);
}


proof fn lemma_content_type_field_no_cr()
    ensures
        no_cr(content_type_field()),
{
    assert forall|k: int| 0 <= k < content_type_field().len() implies content_type_field()[k] != 13u8 by {
        assert(k == 0 || k == 1 || k == 2 || k == 3 || k == 4 || k == 5 || k == 6 || k == 7 || k == 8 || k == 9 || k == 10 || k == 11 || k == 12 || k == 13);
    }
}

/// A response made from scratch, with no carriage return in its status line,
/// content type, variant, workload label or diagnostic headers, splits at the
/// end of its header block, and its body is exactly the body it was given.
pub proof fn lemma_built_framing(
    status: Seq<u8>,
    content_type: Option<Seq<u8>>,
    variant: Seq<u8>,
    workload: Seq<u8>,
    extra: Seq<Header>,
    body: Seq<u8>,
)
    requires
        no_cr(status),
        content_type matches Some(ct) ==> no_cr(ct),
        no_cr(variant),
        no_cr(workload),
        clean_headers(extra),
    ensures
        ({
            let lines = built_lines(content_type, variant, workload, extra, body.len());
            let block = status + crlf() + join_lines(lines);
            let out = response_bytes(status, lines, body);
            &&& is_first_terminator(out, block.len() - 2)
            &&& out.subrange(block.len() + 2 as int, out.len() as int) == body
        }),
{
    let ct: Seq<Seq<u8>> = match content_type {
        Some(t) => seq![content_type_field() + t],
        None => Seq::empty(),
    };
    match content_type {
        Some(t) => {
            lemma_content_type_field_no_cr();
            lemma_no_cr_add(content_type_field(), t);
            assert(clean_lines(ct));
        },
        None => {
            assert(clean_lines(ct));
        },
    }
    lemma_gateway_lines_clean(variant, workload, extra, body.len());
    let g = gateway_lines(variant, workload, extra, body.len());
    lemma_clean_add(ct, g);
    lemma_response_framing(status, ct + g, body);
}

} // verus!
