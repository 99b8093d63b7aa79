use vstd::prelude::*;
use crate::bytes::{
    after_first_token, copy_range, first_token, lemma_split_crlf_nonempty, lines_view, next_token,
    parse_bounded, parse_u64, split_crlf, split_lines, starts_with_ci, starts_with_ignore_case,
    trim, trim_bytes,
};
use crate::error::GatewayError;
use vstd::utf8::valid_utf8;
use crate::names::{content_length_name, content_length_name_bytes};

verus! {

/// Relies on std::str::from_utf8, which succeeds exactly on well-formed UTF-8.
#[verifier::external_body]
pub(crate) fn is_utf8(b: &[u8]) -> (r: bool)
    ensures
        r == valid_utf8(b@),
{
    std::str::from_utf8(b).is_ok()
}

/// The value of a `Content-Length` line: the text after the colon, trimmed,
/// read as an unsigned integer that fits in `usize`.
pub open spec fn length_value(line: Seq<u8>) -> Option<nat> {
    parse_bounded(
        trim(line.subrange(content_length_name().len() as int, line.len() as int)),
        usize::MAX as nat,
    )
}

/// The body length that the header lines declare: the value of the last
/// `Content-Length` line, 0 when there is none; an error when any such line
/// holds something else than an unsigned integer.
pub open spec fn declared_length(lines: Seq<Seq<u8>>) -> Result<nat, GatewayError>
    decreases lines.len(),
{
    if lines.len() == 0 {
        Ok(0)
    } else {
        match declared_length(lines.drop_last()) {
            Err(e) => Err(e),
            Ok(v) => if starts_with_ci(lines.last(), content_length_name()) {
                match length_value(lines.last()) {
                    Some(n) => Ok(n),
                    None => Err(GatewayError::InvalidContentLength),
                }
            } else {
                Ok(v)
            },
        }
    }
}

/// A parsed request head.
pub ghost struct RequestModel {
    pub method: Seq<u8>,
    pub path: Seq<u8>,
    pub version: Seq<u8>,
    pub content_length: nat,
}

/// The three tokens of a start line, when it has them.
pub open spec fn start_line_tokens(line: Seq<u8>) -> Option<(Seq<u8>, Seq<u8>, Seq<u8>)> {
    let a = first_token(line);
    let rest1 = after_first_token(line);
    let b = first_token(rest1);
    let c = first_token(after_first_token(rest1));
    if a.len() == 0 || b.len() == 0 || c.len() == 0 {
        None
    } else {
        Some((a, b, c))
    }
}

/// What a request head parses to.
pub open spec fn parse_head_spec(head: Seq<u8>) -> Result<RequestModel, GatewayError> {
    if !valid_utf8(head) {
        Err(GatewayError::MalformedHead)
    } else {
        let lines = split_crlf(head);
        match start_line_tokens(lines[0]) {
            None => Err(GatewayError::MalformedHead),
            Some(t) => match declared_length(lines.drop_first()) {
                Err(e) => Err(e),
                Ok(n) => Ok(RequestModel { method: t.0, path: t.1, version: t.2, content_length: n }),
            },
        }
    }
}

/// The request line of a client request and the body length it declares.
#[derive(Debug, Clone)]
pub struct RequestLine {
    pub method: Vec<u8>,
    pub path: Vec<u8>,
    pub version: Vec<u8>,
    pub content_length: usize,
}

impl View for RequestLine {
    type V = RequestModel;

    open spec fn view(&self) -> RequestModel {
        RequestModel {
            method: self.method@,
            path: self.path@,
            version: self.version@,
            content_length: self.content_length as nat,
        }
    }
}

/// The three tokens of a start line, as vectors.
pub fn start_line_parts(line: &[u8]) -> (r: Option<(Vec<u8>, Vec<u8>, Vec<u8>)>)
    ensures
        match r {
            Some(t) => start_line_tokens(line@) == Some((t.0@, t.1@, t.2@)),
            None => start_line_tokens(line@) is None,
        },
{
    assert(line@.subrange(0, line@.len() as int) =~= line@);
    let (a0, a1) = next_token(line, 0);
    let (b0, b1) = next_token(line, a1);
    let (c0, c1) = next_token(line, b1);
    if a0 == a1 || b0 == b1 || c0 == c1 {
        return None;
    }
    let a = copy_range(line, a0, a1);
    let b = copy_range(line, b0, b1);
    let c = copy_range(line, c0, c1);
    Some((a, b, c))
}

/// The value of a `Content-Length` line.
fn parse_length_value(line: &[u8]) -> (r: Option<usize>)
    requires
        starts_with_ci(line@, content_length_name()),
    ensures
        match r {
            Some(n) => length_value(line@) == Some(n as nat),
            None => length_value(line@) is None,
        },
{
    let rest = copy_range(line, 15, line.len());
    let value = trim_bytes(rest.as_slice());
    match parse_u64(value.as_slice()) {
        Some(v) => {
            if v <= usize::MAX as u64 {
                Some(v as usize)
            } else {
                None
            }
        },
        None => None,
    }
}

/// Parses a request head (the bytes before the head terminator).
pub fn parse_request_head(head: &[u8]) -> (r: Result<RequestLine, GatewayError>)
    ensures
        match r {
            Ok(req) => parse_head_spec(head@) == Ok::<RequestModel, GatewayError>(req@),
            Err(e) => parse_head_spec(head@) == Err::<RequestModel, GatewayError>(e),
        },
{
    if !is_utf8(head) {
        return Err(GatewayError::MalformedHead);
    }
    let lines = split_lines(head);
    proof {
        lemma_split_crlf_nonempty(head@);
    }
    let ghost lv = lines_view(lines@);
    assert(lv[0] == lines@[0]@);
    let (method, path, version) = match start_line_parts(lines[0].as_slice()) {
        Some(t) => t,
        None => {
            return Err(GatewayError::MalformedHead);
        },
    };
    let name = content_length_name_bytes();
    let mut content_length: usize = 0;
    let mut i: usize = 1;
    assert(lv.subrange(1, 1) =~= Seq::<Seq<u8>>::empty());
    while i < lines.len()
        invariant
            1 <= i <= lines@.len(),
            lv == lines_view(lines@),
            lv == split_crlf(head@),
            lv.len() >= 1,
            valid_utf8(head@),
            start_line_tokens(lv[0]) == Some((method@, path@, version@)),
            name@ == content_length_name(),
            declared_length(lv.subrange(1, i as int)) == Ok::<nat, GatewayError>(
                content_length as nat,
            ),
        decreases lines@.len() - i,
    {
        let line = &lines[i];
        let ghost prev = lv.subrange(1, i as int);
        assert(lv.subrange(1, i + 1).drop_last() =~= prev);
        assert(lv.subrange(1, i + 1).last() == line@);
        if starts_with_ignore_case(line.as_slice(), name.as_slice()) {
            match parse_length_value(line.as_slice()) {
                Some(n) => {
                    content_length = n;
                },
                None => {
                    proof {
                        assert(declared_length(lv.subrange(1, i + 1)) is Err);
                        assert(lv.subrange(1, lv.len() as int).subrange(0, i as int) =~= lv.subrange(
                            1,
                            i + 1,
                        ));
                        lemma_declared_length_err_prefix(
                            lv.subrange(1, lv.len() as int),
                            i as int,
                        );
                        assert(lv.subrange(1, lv.len() as int) =~= split_crlf(head@).drop_first());
                    }
                    return Err(GatewayError::InvalidContentLength);
                },
            }
        }
        i = i + 1;
    }
    assert(lv.subrange(1, lv.len() as int) =~= split_crlf(head@).drop_first());
    Ok(RequestLine { method, path, version, content_length })
}

/// Once a prefix of the lines holds a bad `Content-Length`, so do the lines.
pub proof fn lemma_declared_length_err_prefix(lines: Seq<Seq<u8>>, k: int)
    requires
        0 <= k <= lines.len(),
        declared_length(lines.subrange(0, k)) == Err::<nat, GatewayError>(
            GatewayError::InvalidContentLength,
        ),
    ensures
        declared_length(lines) == Err::<nat, GatewayError>(GatewayError::InvalidContentLength),
    decreases lines.len() - k,
{
    if k == lines.len() {
        assert(lines.subrange(0, k) =~= lines);
    } else {
        assert(lines.subrange(0, k + 1).drop_last() =~= lines.subrange(0, k));
        lemma_declared_length_err_prefix(lines, k + 1);
    }
}

} // verus!
