use vstd::prelude::*;
use crate::bytes::{bytes_eq, copy_range};
use crate::error::ConfigError;
use crate::forward::{strip_trailing, Upstream};
use crate::names::{scheme_http, scheme_http_bytes};

verus! {

/// What url::Url::parse makes of the text of the bytes, as its scheme,
/// host, port (given or the scheme's default) and path; `None` where the
/// bytes are not UTF-8 or the parser refuses them.
pub uninterp spec fn url_parts_of(s: Seq<u8>) -> Option<(Seq<u8>, Option<Seq<u8>>, Option<u16>, Seq<u8>)>;

/// The parts of a parsed URL, as bytes.
pub struct UrlParts {
    pub scheme: Vec<u8>,
    pub host: Option<Vec<u8>>,
    pub port: Option<u16>,
    pub path: Vec<u8>,
}

pub open spec fn parts_view(p: UrlParts) -> (Seq<u8>, Option<Seq<u8>>, Option<u16>, Seq<u8>) {
    (
        p.scheme@,
        match p.host {
            Some(h) => Some(h@),
            None => None,
        },
        p.port,
        p.path@,
    )
}

/// Relies on url::Url::parse and its accessors scheme, host_str,
/// port_or_known_default and path, which depend on the parsed text alone.
#[verifier::external_body]
fn url_parts(s: &[u8]) -> (r: Option<UrlParts>)
    ensures
        match r {
            Some(p) => url_parts_of(s@) == Some(parts_view(p)),
            None => url_parts_of(s@) is None,
        },
{
    let u = url::Url::parse(std::str::from_utf8(s).ok()?).ok()?;
    Some(UrlParts {
        scheme: u.scheme().as_bytes().to_vec(),
        host: u.host_str().map(|h| h.as_bytes().to_vec()),
        port: u.port_or_known_default(),
        path: u.path().as_bytes().to_vec(),
    })
}

/// The upstream made of the parts of a parsed URL: the scheme must be
/// `http`, and host and port must be known; the base path loses its
/// trailing slashes.
pub fn upstream_from_parts(
    raw_url: &[u8],
    scheme: &[u8],
    host: Option<&[u8]>,
    port: Option<u16>,
    path: &[u8],
) -> (r: Result<Upstream, ConfigError>)
    ensures
        scheme@ != scheme_http() ==> r == Err::<Upstream, ConfigError>(
            ConfigError::UnsupportedScheme,
        ),
        scheme@ == scheme_http() && host is None ==> r == Err::<Upstream, ConfigError>(
            ConfigError::MissingHost,
        ),
        scheme@ == scheme_http() && host is Some && port is None ==> r == Err::<
            Upstream,
            ConfigError,
        >(ConfigError::MissingPort),
        scheme@ == scheme_http() && host is Some && port is Some ==> (r matches Ok(u) && u.host@
            == host.unwrap()@ && u.port == port.unwrap() && u.base_path@ == strip_trailing(
            path@,
            47u8,
        ) && u.raw_url@ == raw_url@),
{
    let http = scheme_http_bytes();
    if !bytes_eq(scheme, http.as_slice()) {
        return Err(ConfigError::UnsupportedScheme);
    }
    let host = match host {
        Some(h) => h,
        None => {
            return Err(ConfigError::MissingHost);
        },
    };
    let port = match port {
        Some(p) => p,
        None => {
            return Err(ConfigError::MissingPort);
        },
    };
    let mut hi: usize = path.len();
    assert(path@.subrange(0, hi as int) =~= path@);
    while hi > 0 && path[hi - 1] == 47
        invariant
            hi <= path@.len(),
            strip_trailing(path@, 47u8) == strip_trailing(path@.subrange(0, hi as int), 47u8),
        decreases hi,
    {
        assert(path@.subrange(0, hi as int).drop_last() =~= path@.subrange(0, hi - 1));
        hi = hi - 1;
    }
    Ok(
        Upstream {
            host: copy_range(host, 0, host.len()),
            port,
            base_path: copy_range(path, 0, hi),
            raw_url: copy_range(raw_url, 0, raw_url.len()),
        },
    )
}

/// Reads the configured upstream URL.
pub fn parse_upstream(s: &[u8]) -> (r: Result<Upstream, ConfigError>)
    ensures
        match url_parts_of(s@) {
            None => r == Err::<Upstream, ConfigError>(ConfigError::InvalidUrl),
            Some((scheme, host, port, path)) => if scheme != scheme_http() {
                r == Err::<Upstream, ConfigError>(ConfigError::UnsupportedScheme)
            } else if host is None {
                r == Err::<Upstream, ConfigError>(ConfigError::MissingHost)
            } else if port is None {
                r == Err::<Upstream, ConfigError>(ConfigError::MissingPort)
            } else {
                r matches Ok(u) && u.host@ == host.unwrap() && u.port == port.unwrap()
                    && u.base_path@ == strip_trailing(path, 47u8) && u.raw_url@ == s@
            },
        },
{
    let parts = match url_parts(s) {
        Some(p) => p,
        None => {
            return Err(ConfigError::InvalidUrl);
        },
    };
    let host_ref: Option<&[u8]> = match &parts.host {
        Some(h) => Some(h.as_slice()),
        None => None,
    };
    upstream_from_parts(s, parts.scheme.as_slice(), host_ref, parts.port, parts.path.as_slice())
}

} // verus!
