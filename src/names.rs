use vstd::prelude::*;

verus! {

/// `content-length:`
pub open spec fn content_length_name() -> Seq<u8> {
    seq![99u8, 111, 110, 116, 101, 110, 116, 45, 108, 101, 110, 103, 116, 104, 58]
}

pub fn content_length_name_bytes() -> (r: Vec<u8>)
    ensures
        r@ == content_length_name(),
{
    vec![99u8, 111, 110, 116, 101, 110, 116, 45, 108, 101, 110, 103, 116, 104, 58]
}

/// `host:`
pub open spec fn host_name() -> Seq<u8> {
    seq![104u8, 111, 115, 116, 58]
}

pub fn host_name_bytes() -> (r: Vec<u8>)
    ensures
        r@ == host_name(),
{
    vec![104u8, 111, 115, 116, 58]
}

/// `connection:`
pub open spec fn connection_name() -> Seq<u8> {
    seq![99u8, 111, 110, 110, 101, 99, 116, 105, 111, 110, 58]
}

pub fn connection_name_bytes() -> (r: Vec<u8>)
    ensures
        r@ == connection_name(),
{
    vec![99u8, 111, 110, 110, 101, 99, 116, 105, 111, 110, 58]
}

/// `x-gateway-variant:`
pub open spec fn gateway_variant_name() -> Seq<u8> {
    seq![120u8, 45, 103, 97, 116, 101, 119, 97, 121, 45, 118, 97, 114, 105, 97, 110, 116, 58]
}

pub fn gateway_variant_name_bytes() -> (r: Vec<u8>)
    ensures
        r@ == gateway_variant_name(),
{
    vec![120u8, 45, 103, 97, 116, 101, 119, 97, 121, 45, 118, 97, 114, 105, 97, 110, 116, 58]
}

/// `x-gateway-workload:`
pub open spec fn gateway_workload_name() -> Seq<u8> {
    seq![120u8, 45, 103, 97, 116, 101, 119, 97, 121, 45, 119, 111, 114, 107, 108, 111, 97, 100, 58]
}

pub fn gateway_workload_name_bytes() -> (r: Vec<u8>)
    ensures
        r@ == gateway_workload_name(),
{
    vec![120u8, 45, 103, 97, 116, 101, 119, 97, 121, 45, 119, 111, 114, 107, 108, 111, 97, 100, 58]
}

/// `x-upstream-url:`
pub open spec fn upstream_url_name() -> Seq<u8> {
    seq![120u8, 45, 117, 112, 115, 116, 114, 101, 97, 109, 45, 117, 114, 108, 58]
}

pub fn upstream_url_name_bytes() -> (r: Vec<u8>)
    ensures
        r@ == upstream_url_name(),
{
    vec![120u8, 45, 117, 112, 115, 116, 114, 101, 97, 109, 45, 117, 114, 108, 58]
}

/// `x-upstream-status:`
pub open spec fn upstream_status_name() -> Seq<u8> {
    seq![120u8, 45, 117, 112, 115, 116, 114, 101, 97, 109, 45, 115, 116, 97, 116, 117, 115, 58]
}

pub fn upstream_status_name_bytes() -> (r: Vec<u8>)
    ensures
        r@ == upstream_status_name(),
{
    vec![120u8, 45, 117, 112, 115, 116, 114, 101, 97, 109, 45, 115, 116, 97, 116, 117, 115, 58]
}

/// `Host: `
pub open spec fn host_field() -> Seq<u8> {
    seq![72u8, 111, 115, 116, 58, 32]
}

pub fn host_field_bytes() -> (r: Vec<u8>)
    ensures
        r@ == host_field(),
{
    vec![72u8, 111, 115, 116, 58, 32]
}

/// `Connection: close`
pub open spec fn connection_close() -> Seq<u8> {
    seq![67u8, 111, 110, 110, 101, 99, 116, 105, 111, 110, 58, 32, 99, 108, 111, 115, 101]
}

pub fn connection_close_bytes() -> (r: Vec<u8>)
    ensures
        r@ == connection_close(),
{
    vec![67u8, 111, 110, 110, 101, 99, 116, 105, 111, 110, 58, 32, 99, 108, 111, 115, 101]
}

/// `X-Gateway-Variant: `
pub open spec fn gateway_variant_field() -> Seq<u8> {
    seq![88u8, 45, 71, 97, 116, 101, 119, 97, 121, 45, 86, 97, 114, 105, 97, 110, 116, 58, 32]
}

pub fn gateway_variant_field_bytes() -> (r: Vec<u8>)
    ensures
        r@ == gateway_variant_field(),
{
    vec![88u8, 45, 71, 97, 116, 101, 119, 97, 121, 45, 86, 97, 114, 105, 97, 110, 116, 58, 32]
}

/// `X-Gateway-Workload: `
pub open spec fn gateway_workload_field() -> Seq<u8> {
    seq![88u8, 45, 71, 97, 116, 101, 119, 97, 121, 45, 87, 111, 114, 107, 108, 111, 97, 100, 58, 32]
}

pub fn gateway_workload_field_bytes() -> (r: Vec<u8>)
    ensures
        r@ == gateway_workload_field(),
{
    vec![88u8, 45, 71, 97, 116, 101, 119, 97, 121, 45, 87, 111, 114, 107, 108, 111, 97, 100, 58, 32]
}

/// `Content-Length: `
pub open spec fn content_length_field() -> Seq<u8> {
    seq![67u8, 111, 110, 116, 101, 110, 116, 45, 76, 101, 110, 103, 116, 104, 58, 32]
}

pub fn content_length_field_bytes() -> (r: Vec<u8>)
    ensures
        r@ == content_length_field(),
{
    vec![67u8, 111, 110, 116, 101, 110, 116, 45, 76, 101, 110, 103, 116, 104, 58, 32]
}

/// `Content-Type: `
pub open spec fn content_type_field() -> Seq<u8> {
    seq![67u8, 111, 110, 116, 101, 110, 116, 45, 84, 121, 112, 101, 58, 32]
}

pub fn content_type_field_bytes() -> (r: Vec<u8>)
    ensures
        r@ == content_type_field(),
{
    vec![67u8, 111, 110, 116, 101, 110, 116, 45, 84, 121, 112, 101, 58, 32]
}

/// `X-Upstream-Url`
pub open spec fn upstream_url_header() -> Seq<u8> {
    seq![88u8, 45, 85, 112, 115, 116, 114, 101, 97, 109, 45, 85, 114, 108]
}

pub fn upstream_url_header_bytes() -> (r: Vec<u8>)
    ensures
        r@ == upstream_url_header(),
{
    vec![88u8, 45, 85, 112, 115, 116, 114, 101, 97, 109, 45, 85, 114, 108]
}

/// `X-Upstream-Status`
pub open spec fn upstream_status_header() -> Seq<u8> {
    seq![88u8, 45, 85, 112, 115, 116, 114, 101, 97, 109, 45, 83, 116, 97, 116, 117, 115]
}

pub fn upstream_status_header_bytes() -> (r: Vec<u8>)
    ensures
        r@ == upstream_status_header(),
{
    vec![88u8, 45, 85, 112, 115, 116, 114, 101, 97, 109, 45, 83, 116, 97, 116, 117, 115]
}

/// `: `
pub open spec fn name_separator() -> Seq<u8> {
    seq![58u8, 32]
}

pub fn name_separator_bytes() -> (r: Vec<u8>)
    ensures
        r@ == name_separator(),
{
    vec![58u8, 32]
}

/// `HTTP/1.1 200 OK`
pub open spec fn status_ok() -> Seq<u8> {
    seq![72u8, 84, 84, 80, 47, 49, 46, 49, 32, 50, 48, 48, 32, 79, 75]
}

pub fn status_ok_bytes() -> (r: Vec<u8>)
    ensures
        r@ == status_ok(),
{
    vec![72u8, 84, 84, 80, 47, 49, 46, 49, 32, 50, 48, 48, 32, 79, 75]
}

/// `text/plain`
pub open spec fn text_plain() -> Seq<u8> {
    seq![116u8, 101, 120, 116, 47, 112, 108, 97, 105, 110]
}

pub fn text_plain_bytes() -> (r: Vec<u8>)
    ensures
        r@ == text_plain(),
{
    vec![116u8, 101, 120, 116, 47, 112, 108, 97, 105, 110]
}

/// `GET`
pub open spec fn method_get() -> Seq<u8> {
    seq![71u8, 69, 84]
}

pub fn method_get_bytes() -> (r: Vec<u8>)
    ensures
        r@ == method_get(),
{
    vec![71u8, 69, 84]
}

/// `/health`
pub open spec fn path_health() -> Seq<u8> {
    seq![47u8, 104, 101, 97, 108, 116, 104]
}

pub fn path_health_bytes() -> (r: Vec<u8>)
    ensures
        r@ == path_health(),
{
    vec![47u8, 104, 101, 97, 108, 116, 104]
}

/// `/`
pub open spec fn path_root() -> Seq<u8> {
    seq![47u8]
}

pub fn path_root_bytes() -> (r: Vec<u8>)
    ensures
        r@ == path_root(),
{
    vec![47u8]
}

/// `/?`
pub open spec fn path_root_query() -> Seq<u8> {
    seq![47u8, 63]
}

pub fn path_root_query_bytes() -> (r: Vec<u8>)
    ensures
        r@ == path_root_query(),
{
    vec![47u8, 63]
}

/// `/compute`
pub open spec fn path_compute() -> Seq<u8> {
    seq![47u8, 99, 111, 109, 112, 117, 116, 101]
}

pub fn path_compute_bytes() -> (r: Vec<u8>)
    ensures
        r@ == path_compute(),
{
    vec![47u8, 99, 111, 109, 112, 117, 116, 101]
}

/// `/state`
pub open spec fn path_state() -> Seq<u8> {
    seq![47u8, 115, 116, 97, 116, 101]
}

pub fn path_state_bytes() -> (r: Vec<u8>)
    ensures
        r@ == path_state(),
{
    vec![47u8, 115, 116, 97, 116, 101]
}

/// `iters`
pub open spec fn iters_key() -> Seq<u8> {
    seq![105u8, 116, 101, 114, 115]
}

pub fn iters_key_bytes() -> (r: Vec<u8>)
    ensures
        r@ == iters_key(),
{
    vec![105u8, 116, 101, 114, 115]
}

/// `http`
pub open spec fn scheme_http() -> Seq<u8> {
    seq![104u8, 116, 116, 112]
}

pub fn scheme_http_bytes() -> (r: Vec<u8>)
    ensures
        r@ == scheme_http(),
{
    vec![104u8, 116, 116, 112]
}

/// `health`
pub open spec fn label_health() -> Seq<u8> {
    seq![104u8, 101, 97, 108, 116, 104]
}

pub fn label_health_bytes() -> (r: Vec<u8>)
    ensures
        r@ == label_health(),
{
    vec![104u8, 101, 97, 108, 116, 104]
}

/// `hello`
pub open spec fn label_hello() -> Seq<u8> {
    seq![104u8, 101, 108, 108, 111]
}

pub fn label_hello_bytes() -> (r: Vec<u8>)
    ensures
        r@ == label_hello(),
{
    vec![104u8, 101, 108, 108, 111]
}

/// `compute`
pub open spec fn label_compute() -> Seq<u8> {
    seq![99u8, 111, 109, 112, 117, 116, 101]
}

pub fn label_compute_bytes() -> (r: Vec<u8>)
    ensures
        r@ == label_compute(),
{
    vec![99u8, 111, 109, 112, 117, 116, 101]
}

/// `state`
pub open spec fn label_state() -> Seq<u8> {
    seq![115u8, 116, 97, 116, 101]
}

pub fn label_state_bytes() -> (r: Vec<u8>)
    ensures
        r@ == label_state(),
{
    vec![115u8, 116, 97, 116, 101]
}

/// `proxy`
pub open spec fn label_proxy() -> Seq<u8> {
    seq![112u8, 114, 111, 120, 121]
}

pub fn label_proxy_bytes() -> (r: Vec<u8>)
    ensures
        r@ == label_proxy(),
{
    vec![112u8, 114, 111, 120, 121]
}

/// `OK`
pub open spec fn body_ok() -> Seq<u8> {
    seq![79u8, 75]
}

pub fn body_ok_bytes() -> (r: Vec<u8>)
    ensures
        r@ == body_ok(),
{
    vec![79u8, 75]
}

/// `hello`
pub open spec fn body_hello() -> Seq<u8> {
    seq![104u8, 101, 108, 108, 111]
}

pub fn body_hello_bytes() -> (r: Vec<u8>)
    ensures
        r@ == body_hello(),
{
    vec![104u8, 101, 108, 108, 111]
}

} // verus!
