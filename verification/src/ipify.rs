//! Public-IP discovery: one probe per address family against an
//! IP-echo endpoint, IPv6 preferred with a single IPv4 fallback.

use vstd::prelude::*;
use crate::ipaddr::{
    ip_wf, IpAddress, IpAddressV, is_ipv4_literal, is_ipv6_literal, is_valid_ipv4,
    is_valid_ipv6,
};

verus! {

/// Capability interface over the transport that fetches an IP-echo
/// response body.  The application implements it with an HTTP client;
/// tests substitute a double.
pub trait IpFetcher {
    /// Issue exactly one GET to `url` and return the response body,
    /// or a transport error.
    fn fetch_ip(&self, url: &str) -> Result<String, String>;
}

/// Discovery of the caller's public address through an `IpFetcher`.
/// Stateless: every call probes afresh, nothing is cached.
pub struct Ipify<F: IpFetcher> {
    fetcher: F,
}

/// The IPv4 echo endpoint, the one URL the IPv4 probe fetches.
pub fn ipv4_echo_url() -> (r: &'static str)
    ensures
        r@ == "https://api.ipify.org?format=text"@,
{
    "https://api.ipify.org?format=text"
}

/// The IPv6 echo endpoint, the one URL the IPv6 probe fetches.
pub fn ipv6_echo_url() -> (r: &'static str)
    ensures
        r@ == "https://api6.ipify.org?format=text"@,
{
    "https://api6.ipify.org?format=text"
}

/// Decide an IPv4 echo response: success exactly when the body is a
/// dotted-quad literal, which then becomes the address verbatim.
pub fn interpret_v4_body(body: String) -> (r: Result<IpAddress, String>)
    ensures
        r is Ok <==> is_ipv4_literal(body@),
        r matches Result::Ok(ip) ==> ip@ == IpAddressV::V4(body@),
        r matches Result::Err(e) ==> e@ == "response body is not an IPv4 literal"@,
{
    if is_valid_ipv4(body.as_str()) {
        Result::Ok(IpAddress::V4(body))
    } else {
        Result::Err("response body is not an IPv4 literal".to_owned())
    }
}

/// Decide an IPv6 echo response: success exactly when the body is an
/// IPv6 literal of the library's grammar, taken as the address
/// verbatim.
pub fn interpret_v6_body(body: String) -> (r: Result<IpAddress, String>)
    ensures
        r is Ok <==> is_ipv6_literal(body@),
        r matches Result::Ok(ip) ==> ip@ == IpAddressV::V6(body@),
        r matches Result::Err(e) ==> e@ == "response body is not an IPv6 literal"@,
{
    if is_valid_ipv6(body.as_str()) {
        Result::Ok(IpAddress::V6(body))
    } else {
        Result::Err("response body is not an IPv6 literal".to_owned())
    }
}

impl<F: IpFetcher> Ipify<F> {
    pub fn new(fetcher: F) -> (r: Ipify<F>) {
        Ipify { fetcher }
    }

    /// Discover the public IPv4 address: one request to
    /// `ipv4_echo_url`, whose body `interpret_v4_body` decides — the
    /// address is the body itself when it is a dotted-quad literal.
    pub fn ipv4(&self) -> (r: Result<IpAddress, String>)
        ensures
            r matches Result::Ok(ip) ==> ip@ is V4 && ip_wf(ip@),
    {
        match self.fetcher.fetch_ip(ipv4_echo_url()) {
            Result::Err(e) => Result::Err(e),
            Result::Ok(body) => interpret_v4_body(body),
        }
    }

    /// Discover the public IPv6 address: one request to
    /// `ipv6_echo_url`, whose body `interpret_v6_body` decides — the
    /// address is the body itself when it is an IPv6 literal.
    pub fn ipv6(&self) -> (r: Result<IpAddress, String>)
        ensures
            r matches Result::Ok(ip) ==> ip@ is V6 && ip_wf(ip@),
    {
        match self.fetcher.fetch_ip(ipv6_echo_url()) {
            Result::Err(e) => Result::Err(e),
            Result::Ok(body) => interpret_v6_body(body),
        }
    }

    /// Resolve the address to publish: one IPv6 attempt, and on any
    /// failure one IPv4 attempt.  The decision between the two probe
    /// outcomes is `spec_preferred`.
    pub fn resolve_preferred(&self) -> (r: Result<IpAddress, String>)
        ensures
            r matches Result::Ok(ip) ==> ip_wf(ip@),
    {
        match self.ipv6() {
            Result::Ok(ip) => {
                proof {
                    assert(forall|v4: Result<IpAddress, String>|
                        spec_preferred(Result::Ok(ip), v4) == Result::<IpAddress, String>::Ok(
                            ip,
                        ));
                }
                Result::Ok(ip)
            },
            Result::Err(e) => {
                let r = self.ipv4();
                proof {
                    assert(spec_preferred(Result::Err(e), r) == r);
                }
                r
            },
        }
    }
}

/// The preference rule of `resolve_preferred` over the two probe
/// outcomes: the IPv6 result whenever that probe succeeds, else the
/// IPv4 result.
pub open spec fn spec_preferred(
    v6: Result<IpAddress, String>,
    v4: Result<IpAddress, String>,
) -> Result<IpAddress, String> {
    if v6 is Ok {
        v6
    } else {
        v4
    }
}

/// A successful IPv6 probe decides the resolution by itself: the IPv4
/// outcome, whatever it is, changes nothing.
pub proof fn lemma_preferred_v6_wins(
    v6: Result<IpAddress, String>,
    v4: Result<IpAddress, String>,
    v4_other: Result<IpAddress, String>,
)
    requires
        v6 is Ok,
    ensures
        spec_preferred(v6, v4) == v6,
        spec_preferred(v6, v4) == spec_preferred(v6, v4_other),
{
}

/// When the IPv6 probe fails the IPv4 result is returned, and the
/// resolution fails exactly when both probes fail.
pub proof fn lemma_preferred_fallback(
    v6: Result<IpAddress, String>,
    v4: Result<IpAddress, String>,
)
    requires
        v6 is Err,
    ensures
        spec_preferred(v6, v4) == v4,
        spec_preferred(v6, v4) is Err <==> (v6 is Err && v4 is Err),
{
}

} // verus!
