use vstd::prelude::*;
use crate::bytes::{
    bytes_eq, crlf, decimal, is_first_terminator, join_lines, push_decimal, split_crlf, starts_with,
};
use crate::error::GatewayError;
use crate::forward::Upstream;
use crate::headers::{header_text, headers_text, Header};
use crate::names::{
    body_hello, body_hello_bytes, body_ok, body_ok_bytes, label_compute, label_compute_bytes,
    label_health, label_health_bytes, label_hello, label_hello_bytes, label_proxy,
    label_proxy_bytes, label_state,
    label_state_bytes, method_get, method_get_bytes, path_compute, path_compute_bytes,
    path_health, path_health_bytes, path_root, path_root_bytes, path_root_query,
    path_root_query_bytes, path_state, path_state_bytes, status_ok, status_ok_bytes, text_plain,
    text_plain_bytes, upstream_status_header, upstream_status_header_bytes,
    upstream_url_header, upstream_url_header_bytes,
};
use crate::request::RequestLine;
use crate::response::{
    clean_head, clean_headers, lemma_rebuilt_framing, no_cr, build_response, built_lines, parse_status_code_from_head, rebuild_response_with_extra_headers,
    rebuilt_lines, response_bytes, status_code_of,
};
use crate::workload::{compute_iters, cpu_heavy, hash_chain, hex_lower, iters_for};

verus! {

/// Where a request is handled.
#[derive(Debug, Clone, Copy, PartialEq, Eq, Structural)]
pub enum Route {
    Health,
    Hello,
    /// The hash chain, with this many rounds.
    Compute(u64),
    State,
    Proxy,
}

pub open spec fn has_prefix(s: Seq<u8>, p: Seq<u8>) -> bool {
    s.len() >= p.len() && s.subrange(0, p.len() as int) == p
}

/// The route of a request, by method and target, in order of priority.
pub open spec fn route_of(method: Seq<u8>, target: Seq<u8>) -> Route {
    if method != method_get() {
        Route::Proxy
    } else if target == path_health() {
        Route::Health
    } else if target == path_root() || has_prefix(target, path_root_query()) {
        Route::Hello
    } else if has_prefix(target, path_compute()) {
        Route::Compute(iters_for(target) as u64)
    } else if has_prefix(target, path_state()) {
        Route::State
    } else {
        Route::Proxy
    }
}

pub fn route_request(req: &RequestLine) -> (r: Route)
    ensures
        r == route_of(req.method@, req.path@),
{
    let get = method_get_bytes();
    if !bytes_eq(req.method.as_slice(), get.as_slice()) {
        return Route::Proxy;
    }
    let path = req.path.as_slice();
    let health = path_health_bytes();
    let root = path_root_bytes();
    let root_query = path_root_query_bytes();
    let compute = path_compute_bytes();
    let state = path_state_bytes();
    if bytes_eq(path, health.as_slice()) {
        Route::Health
    } else if bytes_eq(path, root.as_slice()) || starts_with(path, root_query.as_slice()) {
        Route::Hello
    } else if starts_with(path, compute.as_slice()) {
        Route::Compute(compute_iters(path))
    } else if starts_with(path, state.as_slice()) {
        Route::State
    } else {
        Route::Proxy
    }
}

/// The value the counter moves to after handing out `v`.
pub open spec fn counter_next(v: u64) -> u64 {
    if v == u64::MAX {
        0
    } else {
        (v + 1) as u64
    }
}

/// The value handed out by the `k`-th call, counting from 0, on a counter
/// that started at `start`.
pub open spec fn issued(start: u64, k: nat) -> u64
    decreases k,
{
    if k == 0 {
        start
    } else {
        counter_next(issued(start, (k - 1) as nat))
    }
}

/// The process-wide request counter.
pub struct Counter {
    value: u64,
}

impl View for Counter {
    type V = u64;

    closed spec fn view(&self) -> u64 {
        self.value
    }
}

impl Counter {
    pub fn new() -> (r: Counter)
        ensures
            r@ == 0,
    {
        Counter { value: 0 }
    }

    /// Hands out the current value and moves the counter on by one.
    pub fn fetch_increment(&mut self) -> (r: u64)
        ensures
            r == old(self)@,
            final(self)@ == counter_next(old(self)@),
    {
        let r = self.value;
        self.value = if self.value == u64::MAX {
            0
        } else {
            self.value + 1
        };
        r
    }
}

/// Sequential calls on a counter hand out consecutive integers from its
/// starting value: no repeats and no gaps, as long as the values fit in u64.
pub proof fn lemma_counter_consecutive(start: u64, n: nat)
    requires
        start + n <= u64::MAX + 1,
    ensures
        forall|k: nat| k < n ==> #[trigger] issued(start, k) == start + k,
        forall|j: nat, k: nat| j < k < n ==> issued(start, j) < issued(start, k),
    decreases n,
{
    if n > 0 {
        lemma_counter_consecutive(start, (n - 1) as nat);
        if n >= 2 {
            assert(issued(start, (n - 1) as nat) == counter_next(issued(start, (n - 2) as nat)));
        }
        assert(issued(start, (n - 1) as nat) == start + (n - 1));
    }
}

/// What the gateway does for a request once it has been routed.
pub enum Plan {
    /// Send this response as it is.
    Respond(Vec<u8>),
    /// Pass the payload through the workload transform, then answer with
    /// `local_response` under this workload label.
    Transform(Vec<u8>, Vec<u8>),
    /// Forward the request upstream.
    Proxy,
}

/// The response of a local endpoint: `200 OK`, plain text.
pub open spec fn local_response_bytes(variant: Seq<u8>, workload: Seq<u8>, body: Seq<u8>) -> Seq<
    u8,
> {
    response_bytes(
        status_ok(),
        built_lines(Some(text_plain()), variant, workload, Seq::empty(), body.len()),
        body,
    )
}

pub fn local_response(variant: &[u8], workload: &[u8], body: &[u8]) -> (r: Vec<u8>)
    ensures
        r@ == local_response_bytes(variant@, workload@, body@),
{
    let status = status_ok_bytes();
    let ct = text_plain_bytes();
    let none: Vec<Header> = Vec::new();
    assert(none@ =~= Seq::<Header>::empty());
    build_response(variant, status.as_slice(), body, workload, Some(ct.as_slice()), &none)
}

/// Decides what to do with a routed request; the counter moves on exactly
/// when the route is the counter endpoint.
pub fn plan_request(variant: &[u8], route: Route, counter: &mut Counter) -> (r: Plan)
    ensures
        route == Route::State ==> final(counter)@ == counter_next(old(counter)@),
        route != Route::State ==> final(counter)@ == old(counter)@,
        match route {
            Route::Health => r matches Plan::Respond(out) && out@ == local_response_bytes(
                variant@,
                label_health(),
                body_ok(),
            ),
            Route::Hello => r matches Plan::Transform(w, p) && w@ == label_hello() && p@
                == body_hello(),
            Route::Compute(n) => r matches Plan::Transform(w, p) && w@ == label_compute() && p@
                == hex_lower(hash_chain(n as nat)),
            Route::State => r matches Plan::Transform(w, p) && w@ == label_state() && p@
                == decimal(old(counter)@ as nat),
            Route::Proxy => r matches Plan::Proxy,
        },
{
    match route {
        Route::Health => {
            let label = label_health_bytes();
            let body = body_ok_bytes();
            Plan::Respond(local_response(variant, label.as_slice(), body.as_slice()))
        },
        Route::Hello => Plan::Transform(label_hello_bytes(), body_hello_bytes()),
        Route::Compute(n) => Plan::Transform(label_compute_bytes(), cpu_heavy(n)),
        Route::State => {
            let value = counter.fetch_increment();
            let mut body: Vec<u8> = Vec::new();
            push_decimal(&mut body, value);
            assert(body@ =~= decimal(value as nat));
            Plan::Transform(label_state_bytes(), body)
        },
        Route::Proxy => Plan::Proxy,
    }
}

/// The diagnostic headers of a proxied response: the configured upstream URL
/// and the upstream's status code.
pub fn proxy_headers(upstream: &Upstream, status: u16) -> (r: Vec<Header>)
    ensures
        r@.len() == 2,
        r@[0].name@ == upstream_url_header(),
        r@[0].value@ == upstream.raw_url@,
        r@[1].name@ == upstream_status_header(),
        r@[1].value@ == decimal(status as nat),
{
    let mut code: Vec<u8> = Vec::new();
    push_decimal(&mut code, status as u64);
    assert(code@ =~= decimal(status as nat));
    let raw = crate::bytes::copy_range(upstream.raw_url.as_slice(), 0, upstream.raw_url.len());
    let url = Header { name: upstream_url_header_bytes(), value: raw };
    let st = Header { name: upstream_status_header_bytes(), value: code };
    vec![url, st]
}


/// The diagnostic headers of a proxied response, as lines.
pub open spec fn proxy_header_lines(raw_url: Seq<u8>, status: nat) -> Seq<Seq<u8>> {
    seq![
        header_text(upstream_url_header(), raw_url),
        header_text(upstream_status_header(), decimal(status)),
    ]
}

/// The head block of a proxied response, up to and including the blank line.
pub open spec fn proxy_head_block(
    variant: Seq<u8>,
    head: Seq<u8>,
    extra: Seq<Header>,
    body_len: nat,
) -> Seq<u8> {
    split_crlf(head)[0] + crlf() + join_lines(
        rebuilt_lines(head, variant, label_proxy(), extra, body_len),
    ) + crlf()
}

/// The response to the client on the proxy path, from the upstream head and
/// the transformed upstream body.
pub fn finish_proxy(variant: &[u8], head: &[u8], body: &[u8], upstream: &Upstream) -> (r: Result<
    Vec<u8>,
    GatewayError,
>)
    ensures
        match r {
            Ok(out) => exists|extra: Seq<Header>|
                status_code_of(head@) is Some && headers_text(extra) == proxy_header_lines(
                    upstream.raw_url@,
                    status_code_of(head@).unwrap(),
                ) && out@ == proxy_head_block(variant@, head@, extra, body@.len()) + body@,
            Err(e) => status_code_of(head@) is None && e == GatewayError::MalformedUpstreamResponse,
        },
{
    let status = parse_status_code_from_head(head)?;
    let extra = proxy_headers(upstream, status);
    let label = label_proxy_bytes();
    let out = rebuild_response_with_extra_headers(
        variant,
        head,
        body,
        label.as_slice(),
        &extra,
    )?;
    assert(headers_text(extra@) =~= proxy_header_lines(upstream.raw_url@, status as nat));
    Ok(out)
}

proof fn lemma_label_proxy_no_cr()
    ensures
        no_cr(label_proxy()),
{
    assert forall|k: int| 0 <= k < label_proxy().len() implies label_proxy()[k] != 13u8 by {
        assert(k == 0 || k == 1 || k == 2 || k == 3 || k == 4);
    }
}

/// The bytes after the first head terminator of a proxied response.
pub open spec fn framed_body(out: Seq<u8>, body: Seq<u8>) -> bool {
    exists|j: int| is_first_terminator(out, j) && out.subrange(j + 4, out.len() as int) == body
}

/// On the proxy path the body that the client reads after the first head
/// terminator is the transformed upstream body, byte for byte: the upstream
/// body itself under the identity transform, and the prefix followed by it
/// under a prefixing one. This holds when the upstream head, the variant
/// and the diagnostic headers hold no carriage return but in the CRLF
/// separators of the head.
pub proof fn lemma_transform_transparency(
    variant: Seq<u8>,
    raw: Seq<u8>,
    i: int,
    prefix: Seq<u8>,
    extra: Seq<Header>,
)
    requires
        is_first_terminator(raw, i),
        clean_head(raw.subrange(0, i)),
        no_cr(variant),
        clean_headers(extra),
    ensures
        ({
            let head = raw.subrange(0, i);
            let body = raw.subrange(i + 4, raw.len() as int);
            framed_body(proxy_head_block(variant, head, extra, body.len()) + body, body)
        }),
        ({
            let head = raw.subrange(0, i);
            let body = raw.subrange(i + 4, raw.len() as int);
            framed_body(
                proxy_head_block(variant, head, extra, (prefix + body).len()) + (prefix + body),
                prefix + body,
            )
        }),
{
    let head = raw.subrange(0, i);
    let body = raw.subrange(i + 4, raw.len() as int);
    lemma_label_proxy_no_cr();
    let status = split_crlf(head)[0];
    let l1 = rebuilt_lines(head, variant, label_proxy(), extra, body.len());
    lemma_rebuilt_framing(head, variant, label_proxy(), extra, body);
    let o1 = proxy_head_block(variant, head, extra, body.len()) + body;
    assert(o1 =~= response_bytes(status, l1, body));
    let j1 = (status + crlf() + join_lines(l1)).len() - 2;
    assert(j1 + 4 == (status + crlf() + join_lines(l1)).len() + 2);
    assert(is_first_terminator(o1, j1) && o1.subrange(j1 + 4, o1.len() as int) == body);
    let b2 = prefix + body;
    let l2 = rebuilt_lines(head, variant, label_proxy(), extra, b2.len());
    lemma_rebuilt_framing(head, variant, label_proxy(), extra, b2);
    let o2 = proxy_head_block(variant, head, extra, b2.len()) + b2;
    assert(o2 =~= response_bytes(status, l2, b2));
    let j2 = (status + crlf() + join_lines(l2)).len() - 2;
    assert(is_first_terminator(o2, j2) && o2.subrange(j2 + 4, o2.len() as int) == b2);
}

} // verus!
