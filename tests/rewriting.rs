use http_gateway::config::{parse_upstream, upstream_from_parts};
use http_gateway::dispatch::{finish_proxy, proxy_headers};
use http_gateway::error::{ConfigError, GatewayError};
use http_gateway::forward::{build_forwarded_request, forwarded_path, Upstream};
use http_gateway::headers::Header;
use http_gateway::request::parse_request_head;
use http_gateway::response::{
    build_response, parse_status_code_from_head, rebuild_response_with_extra_headers,
    split_http_response,
};
use http_gateway::workload::{identity_transform, prefix_transform};

fn upstream(base: &[u8]) -> Upstream {
    Upstream {
        host: b"backend".to_vec(),
        port: 8081,
        base_path: base.to_vec(),
        raw_url: b"http://backend:8081/v1".to_vec(),
    }
}

fn count_named(resp: &[u8], name: &str) -> usize {
    let text = String::from_utf8_lossy(resp);
    let head = text.split("\r\n\r\n").next().unwrap();
    head.split("\r\n")
        .skip(1)
        .filter(|l| l.to_ascii_lowercase().starts_with(&format!("{}:", name)))
        .count()
}

#[test]
fn base_path_is_prefixed() {
    assert_eq!(forwarded_path(b"/v1", b"/users?x=1"), b"/v1/users?x=1".to_vec());
    assert_eq!(forwarded_path(b"/v1///", b"//users"), b"/v1/users".to_vec());
}

#[test]
fn empty_or_root_base_keeps_target() {
    assert_eq!(forwarded_path(b"", b"/users?x=1"), b"/users?x=1".to_vec());
    assert_eq!(forwarded_path(b"", b"weird target"), b"weird target".to_vec());
    assert_eq!(forwarded_path(b"/", b"/a/b"), b"/a/b".to_vec());
}

#[test]
fn forwarded_request_rewrites_host_and_connection() {
    let head = b"POST /users?x=1 HTTP/1.1\r\nHost: front\r\nX-A: 1\r\nconnection: keep-alive\r\nContent-Length: 2";
    let req = parse_request_head(head).unwrap();
    let out = build_forwarded_request(&req, head, b"hi", &upstream(b"/v1")).unwrap();
    assert_eq!(
        out,
        b"POST /v1/users?x=1 HTTP/1.1\r\nX-A: 1\r\nContent-Length: 2\r\nHost: backend\r\nConnection: close\r\n\r\nhi"
            .to_vec()
    );
}

#[test]
fn split_response_at_terminator() {
    let (h, b) = split_http_response(b"HTTP/1.1 404 Not Found\r\nA: b\r\n\r\nbody\r\n\r\nmore").unwrap();
    assert_eq!(h, b"HTTP/1.1 404 Not Found\r\nA: b".to_vec());
    assert_eq!(b, b"body\r\n\r\nmore".to_vec());
    assert_eq!(
        split_http_response(b"HTTP/1.1 200 OK\r\n").unwrap_err(),
        GatewayError::MalformedUpstreamResponse
    );
}

#[test]
fn status_code_is_read() {
    assert_eq!(parse_status_code_from_head(b"HTTP/1.1 404 Not Found\r\nA: b"), Ok(404));
    assert_eq!(
        parse_status_code_from_head(b"HTTP/1.1"),
        Err(GatewayError::MalformedUpstreamResponse)
    );
    assert_eq!(
        parse_status_code_from_head(b"HTTP/1.1 99999 Big"),
        Err(GatewayError::MalformedUpstreamResponse)
    );
}

#[test]
fn local_response_has_gateway_headers() {
    let out = build_response(b"native", b"HTTP/1.1 200 OK", b"hello", b"hello", Some(&b"text/plain"[..]), &Vec::new());
    assert_eq!(
        out,
        b"HTTP/1.1 200 OK\r\nContent-Type: text/plain\r\nX-Gateway-Variant: native\r\nX-Gateway-Workload: hello\r\nContent-Length: 5\r\nConnection: close\r\n\r\nhello"
            .to_vec()
    );
}

#[test]
fn upstream_owned_headers_are_replaced() {
    let head = b"HTTP/1.1 200 OK\r\nContent-Length: 999\r\nX-Keep: yes\r\nCONNECTION: keep-alive\r\nx-gateway-variant: evil\r\nX-Upstream-Status: 1";
    let extra = vec![
        Header { name: b"X-Upstream-Url".to_vec(), value: b"http://u".to_vec() },
        Header { name: b"X-Upstream-Status".to_vec(), value: b"200".to_vec() },
    ];
    let out = rebuild_response_with_extra_headers(b"native", head, b"abc", b"proxy", &extra).unwrap();
    assert_eq!(
        out,
        b"HTTP/1.1 200 OK\r\nX-Keep: yes\r\nX-Gateway-Variant: native\r\nX-Gateway-Workload: proxy\r\nX-Upstream-Url: http://u\r\nX-Upstream-Status: 200\r\nContent-Length: 3\r\nConnection: close\r\n\r\nabc"
            .to_vec()
    );
    assert_eq!(count_named(&out, "content-length"), 1);
    assert_eq!(count_named(&out, "connection"), 1);
    assert_eq!(count_named(&out, "x-gateway-variant"), 1);
    assert_eq!(count_named(&out, "x-upstream-status"), 1);
}

#[test]
fn rebuild_rejects_invalid_utf8_head() {
    assert_eq!(
        rebuild_response_with_extra_headers(b"native", b"HTTP/1.1 200 \xff", b"", b"proxy", &Vec::new()),
        Err(GatewayError::MalformedUpstreamResponse)
    );
}

#[test]
fn identity_transform_keeps_upstream_body() {
    let raw = b"HTTP/1.1 201 Created\r\nX-A: 1\r\n\r\n\x00payload\xff";
    let (head, body) = split_http_response(raw).unwrap();
    let out = finish_proxy(b"native", &head, &identity_transform(&body), &upstream(b"/v1")).unwrap();
    assert!(out.ends_with(b"\r\n\r\n\x00payload\xff"));
    assert_eq!(count_named(&out, "x-upstream-status"), 1);
    assert!(out.starts_with(b"HTTP/1.1 201 Created\r\nX-A: 1\r\n"));
    assert!(String::from_utf8_lossy(&out).contains("X-Upstream-Status: 201\r\n"));
    assert!(String::from_utf8_lossy(&out).contains("X-Upstream-Url: http://backend:8081/v1\r\n"));
    assert!(String::from_utf8_lossy(&out).contains("Content-Length: 9\r\n"));
}

#[test]
fn prefix_transform_prepends_to_upstream_body() {
    let raw = b"HTTP/1.1 200 OK\r\n\r\nupstream";
    let (head, body) = split_http_response(raw).unwrap();
    let out = finish_proxy(b"wasm-host", &head, &prefix_transform(b"wasm:", &body), &upstream(b"")).unwrap();
    assert!(out.ends_with(b"\r\n\r\nwasm:upstream"));
    assert!(String::from_utf8_lossy(&out).contains("Content-Length: 13\r\n"));
}

#[test]
fn proxy_headers_carry_url_and_status() {
    let hs = proxy_headers(&upstream(b""), 503);
    assert_eq!(hs[0].name, b"X-Upstream-Url".to_vec());
    assert_eq!(hs[0].value, b"http://backend:8081/v1".to_vec());
    assert_eq!(hs[1].name, b"X-Upstream-Status".to_vec());
    assert_eq!(hs[1].value, b"503".to_vec());
}

#[test]
fn upstream_url_is_read() {
    let u = parse_upstream(b"http://127.0.0.1:18080").unwrap();
    assert_eq!(u.host, b"127.0.0.1".to_vec());
    assert_eq!(u.port, 18080);
    assert_eq!(u.base_path, b"".to_vec());
    assert_eq!(u.raw_url, b"http://127.0.0.1:18080".to_vec());
    let u = parse_upstream(b"http://example.com/api/v1/").unwrap();
    assert_eq!(u.host, b"example.com".to_vec());
    assert_eq!(u.port, 80);
    assert_eq!(u.base_path, b"/api/v1".to_vec());
}

#[test]
fn upstream_url_errors() {
    assert_eq!(parse_upstream(b"https://example.com").unwrap_err(), ConfigError::UnsupportedScheme);
    assert_eq!(parse_upstream(b"not a url").unwrap_err(), ConfigError::InvalidUrl);
    assert_eq!(
        upstream_from_parts(b"http:x", b"http", None, Some(80), b"/").unwrap_err(),
        ConfigError::MissingHost
    );
    assert_eq!(
        upstream_from_parts(b"http://h", b"http", Some(&b"h"[..]), None, b"/").unwrap_err(),
        ConfigError::MissingPort
    );
}

#[test]
fn rebuilt_response_splits_at_gateway_block() {
    let raw = b"HTTP/1.1 200 OK\r\nContent-Length: 1\r\nConnection: keep-alive\r\n\r\nbody\r\n\r\ntail";
    let (head, body) = split_http_response(raw).unwrap();
    let out = finish_proxy(b"native", &head, &prefix_transform(b"wasm:", &body), &upstream(b"")).unwrap();
    let (out_head, out_body) = split_http_response(&out).unwrap();
    assert_eq!(out_body, b"wasm:body\r\n\r\ntail".to_vec());
    let text = String::from_utf8(out_head).unwrap();
    let lines: Vec<&str> = text.split("\r\n").collect();
    assert_eq!(lines.iter().filter(|l| l.to_ascii_lowercase().starts_with("content-length:")).count(), 1);
    assert!(lines.contains(&"Content-Length: 17"));
    assert_eq!(lines.iter().filter(|l| l.to_ascii_lowercase().starts_with("connection:")).count(), 1);
    assert!(lines.contains(&"Connection: close"));
}
