use http_gateway::dispatch::{local_response, plan_request, route_request, Counter, Plan, Route};
use http_gateway::request::parse_request_head;
use http_gateway::workload::{chain_input, compute_iters, cpu_heavy, query_param, DEFAULT_ITERS};

fn route_of(head: &[u8]) -> Route {
    route_request(&parse_request_head(head).unwrap())
}

#[test]
fn zero_rounds_give_the_seed() {
    assert_eq!(cpu_heavy(0), vec![b'0'; 64]);
}

#[test]
fn hash_chain_rounds() {
    assert_eq!(
        cpu_heavy(1),
        b"2c34ce1df23b838c5abf2a7f6437cca3d3067ed509ff25f11df6b11b582b51eb".to_vec()
    );
    assert_eq!(
        cpu_heavy(2),
        b"69f51877729a7a5efa1024179760e87f6cc6f5cdfbf3d90ef0e6a97078000976".to_vec()
    );
}

#[test]
fn chain_input_appends_little_endian_round() {
    assert_eq!(chain_input(&[9, 9], 0x0102), vec![9, 9, 2, 1, 0, 0, 0, 0, 0, 0]);
}

#[test]
fn query_parameters() {
    assert_eq!(query_param(b"/compute?iters=123", b"iters"), Some(b"123".to_vec()));
    assert_eq!(query_param(b"/compute?a=1&iters=7&iters=8", b"iters"), Some(b"7".to_vec()));
    assert_eq!(query_param(b"/compute?iters", b"iters"), Some(b"".to_vec()));
    assert_eq!(query_param(b"/compute?x=a=b", b"x"), Some(b"a=b".to_vec()));
    assert_eq!(query_param(b"/compute?a=1", b"iters"), None);
    assert_eq!(query_param(b"/compute", b"iters"), None);
    assert_eq!(query_param(b"/c?a=1&", b""), Some(b"".to_vec()));
}

#[test]
fn iteration_count_defaults() {
    assert_eq!(compute_iters(b"/compute?iters=0"), 0);
    assert_eq!(compute_iters(b"/compute?iters=42"), 42);
    assert_eq!(compute_iters(b"/compute?iters=abc"), DEFAULT_ITERS);
    assert_eq!(compute_iters(b"/compute"), DEFAULT_ITERS);
    assert_eq!(compute_iters(b"/compute?iters=abc"), compute_iters(b"/compute"));
    assert_eq!(compute_iters(b"/compute?iters=99999999999999999999"), 50000);
}

#[test]
fn routes_by_method_and_target() {
    assert_eq!(route_of(b"GET /health HTTP/1.1"), Route::Health);
    assert_eq!(route_of(b"GET /healthz HTTP/1.1"), Route::Proxy);
    assert_eq!(route_of(b"GET / HTTP/1.1"), Route::Hello);
    assert_eq!(route_of(b"GET /?q=1 HTTP/1.1"), Route::Hello);
    assert_eq!(route_of(b"GET /compute?iters=0 HTTP/1.1"), Route::Compute(0));
    assert_eq!(route_of(b"GET /compute?iters=abc HTTP/1.1"), Route::Compute(50000));
    assert_eq!(route_of(b"GET /compute HTTP/1.1"), Route::Compute(50000));
    assert_eq!(route_of(b"GET /state/x HTTP/1.1"), Route::State);
    assert_eq!(route_of(b"POST /health HTTP/1.1"), Route::Proxy);
    assert_eq!(route_of(b"GET /other HTTP/1.1"), Route::Proxy);
}

#[test]
fn counter_counts_from_zero() {
    let mut c = Counter::new();
    let got: Vec<u64> = (0..5).map(|_| c.fetch_increment()).collect();
    assert_eq!(got, vec![0, 1, 2, 3, 4]);
}

#[test]
fn state_plans_hand_out_consecutive_values() {
    let mut c = Counter::new();
    for expected in 0..3u64 {
        match plan_request(b"native", Route::State, &mut c) {
            Plan::Transform(label, payload) => {
                assert_eq!(label, b"state".to_vec());
                assert_eq!(payload, expected.to_string().into_bytes());
            }
            _ => panic!("expected a payload"),
        }
    }
}

#[test]
fn health_is_answered_without_transform() {
    let mut c = Counter::new();
    match plan_request(b"native", Route::Health, &mut c) {
        Plan::Respond(out) => assert_eq!(out, local_response(b"native", b"health", b"OK")),
        _ => panic!("expected a response"),
    }
    match plan_request(b"native", Route::Proxy, &mut c) {
        Plan::Proxy => {}
        _ => panic!("expected the proxy path"),
    }
    assert_eq!(c.fetch_increment(), 0);
}

#[test]
fn compute_plan_runs_the_chain() {
    let mut c = Counter::new();
    match plan_request(b"native", Route::Compute(0), &mut c) {
        Plan::Transform(label, payload) => {
            assert_eq!(label, b"compute".to_vec());
            assert_eq!(payload, vec![b'0'; 64]);
        }
        _ => panic!("expected a payload"),
    }
    match plan_request(b"native", Route::Hello, &mut c) {
        Plan::Transform(label, payload) => {
            assert_eq!(label, b"hello".to_vec());
            assert_eq!(payload, b"hello".to_vec());
        }
        _ => panic!("expected a payload"),
    }
}
