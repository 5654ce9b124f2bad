//! The provider's update protocol: query-parameter assembly and the
//! prefix-based interpretation of response bodies.

use vstd::prelude::*;
use crate::text::{join_strs, spec_join};

verus! {

/// Capability interface over the transport that carries one update
/// request.  The application implements it with an HTTP client; tests
/// substitute a double.
pub trait DuckDnsClient {
    /// Issue exactly one GET to the provider's update endpoint with
    /// these query parameters and return the raw response body, or a
    /// transport error.
    fn send_request(&self, params: &Vec<(String, String)>) -> Result<String, String>;
}

/// The update client: builds one request per call, no retry.
pub struct DuckDns<T: DuckDnsClient> {
    client: T,
}

/// A response body means success exactly when it starts with `OK`;
/// anything after that prefix is diagnostic only.
pub open spec fn is_ok_response(body: Seq<char>) -> bool {
    body.len() >= 2 && body.subrange(0, 2) == seq!['O', 'K']
}

/// The error detail reported for a rejected update.
pub open spec fn spec_update_err(body: Seq<char>) -> Seq<char> {
    "Update failed: "@ + body
}

/// Decide one provider response.
pub fn interpret_update_response(body: &str) -> (r: Result<(), String>)
    ensures
        r is Ok <==> is_ok_response(body@),
        r matches Result::Err(e) ==> e@ == spec_update_err(body@),
{
    let n = body.unicode_len();
    if n >= 2 && body.get_char(0) == 'O' && body.get_char(1) == 'K' {
        proof {
            assert(body@.subrange(0, 2) =~= seq!['O', 'K']);
        }
        Result::Ok(())
    } else {
        proof {
            if is_ok_response(body@) {
                assert(body@.subrange(0, 2)[0] == body@[0]);
                assert(body@.subrange(0, 2)[1] == body@[1]);
            }
        }
        let mut e = "Update failed: ".to_owned();
        e.append(body);
        Result::Err(e)
    }
}

/// What one update request carries: `domains` comma-joined and
/// `token` always, then whichever optional parameters were supplied,
/// in a fixed order.
pub open spec fn spec_params(
    domains: Seq<Seq<char>>,
    token: Seq<char>,
    ip: Option<Seq<char>>,
    ipv6: Option<Seq<char>>,
    verbose: Option<bool>,
    clear: Option<bool>,
) -> Seq<(Seq<char>, Seq<char>)> {
    seq![("domains"@, spec_join(domains, seq![','])), ("token"@, token)] + (match ip {
        Option::None => Seq::<(Seq<char>, Seq<char>)>::empty(),
        Option::Some(v) => seq![("ip"@, v)],
    }) + (match ipv6 {
        Option::None => Seq::<(Seq<char>, Seq<char>)>::empty(),
        Option::Some(v) => seq![("ipv6"@, v)],
    }) + (match verbose {
        Option::None => Seq::<(Seq<char>, Seq<char>)>::empty(),
        Option::Some(b) => seq![("verbose"@, spec_bool_chars(b))],
    }) + (match clear {
        Option::None => Seq::<(Seq<char>, Seq<char>)>::empty(),
        Option::Some(b) => seq![("clear"@, spec_bool_chars(b))],
    })
}

/// What one TXT update request carries: `domains`, `token` and `txt`
/// always, then the optional flags.
pub open spec fn spec_txt_params(
    domains: Seq<Seq<char>>,
    token: Seq<char>,
    txt: Seq<char>,
    verbose: Option<bool>,
    clear: Option<bool>,
) -> Seq<(Seq<char>, Seq<char>)> {
    seq![("domains"@, spec_join(domains, seq![','])), ("token"@, token), ("txt"@, txt)] + (
    match verbose {
        Option::None => Seq::<(Seq<char>, Seq<char>)>::empty(),
        Option::Some(b) => seq![("verbose"@, spec_bool_chars(b))],
    }) + (match clear {
        Option::None => Seq::<(Seq<char>, Seq<char>)>::empty(),
        Option::Some(b) => seq![("clear"@, spec_bool_chars(b))],
    })
}

pub open spec fn spec_bool_chars(b: bool) -> Seq<char> {
    if b {
        "true"@
    } else {
        "false"@
    }
}

fn bool_string(b: bool) -> (r: String)
    ensures
        r@ == spec_bool_chars(b),
{
    if b {
        "true".to_owned()
    } else {
        "false".to_owned()
    }
}

impl<T: DuckDnsClient> DuckDns<T> {
    pub fn new(client: T) -> (r: DuckDns<T>) {
        DuckDns { client }
    }

    /// Assemble the query parameters of an address update.
    pub fn build_params(
        &self,
        domains: &Vec<String>,
        token: String,
        ip: Option<String>,
        ipv6: Option<String>,
        verbose: Option<bool>,
        clear: Option<bool>,
    ) -> (r: Vec<(String, String)>)
        ensures
            r.deep_view() == spec_params(
                domains.deep_view(),
                token@,
                ip.deep_view(),
                ipv6.deep_view(),
                verbose,
                clear,
            ),
    {
        proof {
            reveal_strlit(",");
            assert(","@ =~= seq![',']);
        }
        let mut r: Vec<(String, String)> = Vec::new();
        r.push(("domains".to_owned(), join_strs(domains, ",")));
        r.push(("token".to_owned(), token));
        match ip {
            Option::None => {},
            Option::Some(v) => {
                r.push(("ip".to_owned(), v));
            },
        }
        match ipv6 {
            Option::None => {},
            Option::Some(v) => {
                r.push(("ipv6".to_owned(), v));
            },
        }
        match verbose {
            Option::None => {},
            Option::Some(b) => {
                r.push(("verbose".to_owned(), bool_string(b)));
            },
        }
        match clear {
            Option::None => {},
            Option::Some(b) => {
                r.push(("clear".to_owned(), bool_string(b)));
            },
        }
        proof {
            assert(r.deep_view() =~= spec_params(
                domains.deep_view(),
                token@,
                ip.deep_view(),
                ipv6.deep_view(),
                verbose,
                clear,
            ));
        }
        r
    }

    /// Assemble the query parameters of a TXT update.
    pub fn build_txt_params(
        &self,
        domains: &Vec<String>,
        token: String,
        txt: String,
        verbose: Option<bool>,
        clear: Option<bool>,
    ) -> (r: Vec<(String, String)>)
        ensures
            r.deep_view() == spec_txt_params(
                domains.deep_view(),
                token@,
                txt@,
                verbose,
                clear,
            ),
    {
        proof {
            reveal_strlit(",");
            assert(","@ =~= seq![',']);
        }
        let mut r: Vec<(String, String)> = Vec::new();
        r.push(("domains".to_owned(), join_strs(domains, ",")));
        r.push(("token".to_owned(), token));
        r.push(("txt".to_owned(), txt));
        match verbose {
            Option::None => {},
            Option::Some(b) => {
                r.push(("verbose".to_owned(), bool_string(b)));
            },
        }
        match clear {
            Option::None => {},
            Option::Some(b) => {
                r.push(("clear".to_owned(), bool_string(b)));
            },
        }
        proof {
            assert(r.deep_view() =~= spec_txt_params(
                domains.deep_view(),
                token@,
                txt@,
                verbose,
                clear,
            ));
        }
        r
    }

    /// Update the address records of domains sharing one token: build
    /// the parameters, send one request, and decide the raw body with
    /// `interpret_update_response` — success exactly on an `OK`-prefixed
    /// body, the transport's own error otherwise.
    pub fn update(
        &self,
        domains: &Vec<String>,
        token: String,
        ip: Option<String>,
        ipv6: Option<String>,
        verbose: Option<bool>,
        clear: Option<bool>,
    ) -> (r: Result<(), String>)
        requires
            domains@.len() > 0,
    {
        let params = self.build_params(domains, token, ip, ipv6, verbose, clear);
        match self.client.send_request(&params) {
            Result::Err(e) => Result::Err(e),
            Result::Ok(body) => interpret_update_response(body.as_str()),
        }
    }

    /// Update the TXT record of domains sharing one token, deciding
    /// the response exactly as `update` does.
    pub fn update_txt(
        &self,
        domains: &Vec<String>,
        token: String,
        txt: String,
        verbose: Option<bool>,
        clear: Option<bool>,
    ) -> (r: Result<(), String>)
        requires
            domains@.len() > 0,
    {
        let params = self.build_txt_params(domains, token, txt, verbose, clear);
        match self.client.send_request(&params) {
            Result::Err(e) => Result::Err(e),
            Result::Ok(body) => interpret_update_response(body.as_str()),
        }
    }
}

} // verus!
