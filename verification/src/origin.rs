//! The origin policy: which upgrade requests may become sessions.

use vstd::prelude::*;
use vstd::string::{StrSliceExecFns, StringExecFns};

verus! {

/// The `Origin` header of an upgrade request, as far as it can be read.
#[derive(Debug, PartialEq, Eq)]
pub enum OriginHeader {
    /// The request carries no such header.
    Missing,
    /// The header's value is not text.
    Unreadable,
    /// The header's value.
    Text(String),
}

pub enum OriginHeaderView {
    Missing,
    Unreadable,
    Text(Seq<char>),
}

impl View for OriginHeader {
    type V = OriginHeaderView;

    open spec fn view(&self) -> OriginHeaderView {
        match self {
            OriginHeader::Missing => OriginHeaderView::Missing,
            OriginHeader::Unreadable => OriginHeaderView::Unreadable,
            OriginHeader::Text(origin) => OriginHeaderView::Text(origin@),
        }
    }
}

/// What becomes of an upgrade request.
#[derive(Debug, Clone, Copy, PartialEq, Eq, Structural)]
pub enum OriginDecision {
    /// The upgrade goes on.
    Accept,
    /// The request is answered with status 400.
    BadRequest,
    /// The request is answered with status 403.
    Forbidden,
}

impl OriginDecision {
    /// The status that answers a request that is turned away.
    pub fn status(&self) -> (code: Option<u16>)
        ensures
            code == match self {
                OriginDecision::Accept => None::<u16>,
                OriginDecision::BadRequest => Some(400u16),
                OriginDecision::Forbidden => Some(403u16),
            },
    {
        match self {
            OriginDecision::Accept => None,
            OriginDecision::BadRequest => Some(400),
            OriginDecision::Forbidden => Some(403),
        }
    }
}

/// The host that `http::Uri` finds in `origin`: `None` where the text is
/// no URI or the URI names no host.
pub uninterp spec fn uri_host(origin: Seq<char>) -> Option<Seq<char>>;

/// Whether `s` ends with `suffix`.
pub open spec fn is_suffix(suffix: Seq<char>, s: Seq<char>) -> bool {
    suffix.len() <= s.len() && s.subrange(s.len() - suffix.len(), s.len() as int) == suffix
}

/// Whether a request from `origin_host` is let in where `allowed` is
/// configured: the host is the configured one or a subdomain of it.
pub open spec fn host_allowed(origin_host: Seq<char>, allowed: Seq<char>) -> bool {
    origin_host == allowed || is_suffix(seq!['.'] + allowed, origin_host)
}

/// The decision for a request whose origin names `origin_host`, or none.
pub open spec fn decision_for_host(
    allowed: Seq<char>,
    origin_host: Option<Seq<char>>,
) -> OriginDecision {
    match origin_host {
        None => OriginDecision::BadRequest,
        Some(h) => if host_allowed(h, allowed) {
            OriginDecision::Accept
        } else {
            OriginDecision::Forbidden
        },
    }
}

/// What the policy says of a request. With nothing configured every request passes.
pub open spec fn origin_decision(allowed: Seq<char>, header: OriginHeaderView) -> OriginDecision {
    if allowed.len() == 0 {
        OriginDecision::Accept
    } else {
        match header {
            OriginHeaderView::Missing => OriginDecision::BadRequest,
            OriginHeaderView::Unreadable => OriginDecision::BadRequest,
            OriginHeaderView::Text(origin) => decision_for_host(allowed, uri_host(origin)),
        }
    }
}

/// Parses `origin` with `http::Uri`'s `FromStr` and asks the result for its
/// `host`.
///
/// Trusted: the result is the named `uri_host` of the text, `None` both where
/// parsing fails and where the URI has no authority. Nothing more is claimed
/// of which texts parse or which host they name.
#[verifier::external_body]
fn host_of_origin(origin: &str) -> (host: Option<String>)
    ensures
        match host {
            Some(h) => uri_host(origin@) == Some(h@),
            None => uri_host(origin@).is_none(),
        },
{
    match origin.parse::<tungstenite::http::Uri>() {
        Ok(uri) => match uri.host() {
            Some(h) => Some(h.to_string()),
            None => None,
        },
        Err(_) => None,
    }
}

/// Whether `s` ends with `suffix`.
fn ends_with(s: &str, suffix: &str) -> (r: bool)
    ensures
        r == is_suffix(suffix@, s@),
{
    let n: usize = s.unicode_len();
    let m: usize = suffix.unicode_len();
    if m > n {
        return false;
    }
    let tail = s.substring_char(n - m, n).to_owned();
    let wanted = suffix.to_owned();
    tail == wanted
}

/// Decides on a request whose origin names `origin_host`, or names none.
pub fn decide_for_host(allowed: &String, origin_host: Option<String>) -> (decision: OriginDecision)
    ensures
        decision == decision_for_host(
            allowed@,
            match origin_host {
                Some(h) => Some(h@),
                None => None,
            },
        ),
{
    match origin_host {
        None => OriginDecision::BadRequest,
        Some(h) => {
            if h == *allowed {
                return OriginDecision::Accept;
            }
            let mut dotted = String::from_str(".");
            dotted.append(allowed.as_str());
            proof {
                reveal_strlit(".");
                assert("."@ =~= seq!['.']);
            }
            if ends_with(h.as_str(), dotted.as_str()) {
                OriginDecision::Accept
            } else {
                OriginDecision::Forbidden
            }
        },
    }
}

/// Decides whether an upgrade request with the given `Origin` header may go
/// on, where `allowed` is the configured host.
pub fn check_origin(allowed: &String, header: OriginHeader) -> (decision: OriginDecision)
    ensures
        decision == origin_decision(allowed@, header@),
{
    if allowed.as_str().is_empty() {
        return OriginDecision::Accept;
    }
    match header {
        OriginHeader::Missing => OriginDecision::BadRequest,
        OriginHeader::Unreadable => OriginDecision::BadRequest,
        OriginHeader::Text(origin) => decide_for_host(allowed, host_of_origin(origin.as_str())),
    }
}

} // verus!
