//! The batch orchestrator: walk the configured domains in file order,
//! discover or take each entry's address, push the update, and record
//! every per-domain outcome without ever aborting the batch.

use vstd::prelude::*;
use crate::config::{Config, IpV};
use crate::duckdns::{DuckDns, DuckDnsClient};
use crate::ipaddr::{ip_wf, IpAddress, IpAddressV, is_ipv4_literal, is_ipv6_literal};
use crate::ipify::{IpFetcher, Ipify};

verus! {

/// What one batch run hands back for each success: the updated
/// domain list and the literal it now publishes.
pub type IpMap = Vec<(Vec<String>, String)>;

/// What happened to one entry of the batch.
#[derive(Debug)]
pub enum UpdateOutcome {
    /// The provider accepted the update with this address.
    Updated(IpAddress),
    /// Public discovery failed; the entry was skipped before any
    /// update call.
    ResolveFailed(String),
    /// The provider rejected the update.
    UpdateFailed(String),
    /// The entry selects no address; nothing was asked of anyone.
    NotSelected,
}

/// One entry's name with its outcome.
#[derive(Debug)]
pub struct DomainOutcome {
    pub name: String,
    pub outcome: UpdateOutcome,
}

/// Mathematical model of an outcome.
pub enum UpdateOutcomeV {
    Updated(IpAddressV),
    ResolveFailed(Seq<char>),
    UpdateFailed(Seq<char>),
    NotSelected,
}

pub struct DomainOutcomeV {
    pub name: Seq<char>,
    pub outcome: UpdateOutcomeV,
}

impl View for UpdateOutcome {
    type V = UpdateOutcomeV;

    open spec fn view(&self) -> UpdateOutcomeV {
        match self {
            UpdateOutcome::Updated(ip) => UpdateOutcomeV::Updated(ip@),
            UpdateOutcome::ResolveFailed(e) => UpdateOutcomeV::ResolveFailed(e@),
            UpdateOutcome::UpdateFailed(e) => UpdateOutcomeV::UpdateFailed(e@),
            UpdateOutcome::NotSelected => UpdateOutcomeV::NotSelected,
        }
    }
}

impl DeepView for UpdateOutcome {
    type V = UpdateOutcomeV;

    open spec fn deep_view(&self) -> UpdateOutcomeV {
        self.view()
    }
}

impl View for DomainOutcome {
    type V = DomainOutcomeV;

    open spec fn view(&self) -> DomainOutcomeV {
        DomainOutcomeV { name: self.name@, outcome: self.outcome@ }
    }
}

impl DeepView for DomainOutcome {
    type V = DomainOutcomeV;

    open spec fn deep_view(&self) -> DomainOutcomeV {
        self.view()
    }
}

/// What the batch may record for an entry, given its address
/// selection: no selection asks for nothing; a fixed address is
/// pushed without discovery and keeps its literal; public discovery
/// may fail before the update, and a published address is well
/// formed.
pub open spec fn outcome_fits(sel: Option<IpV>, o: UpdateOutcomeV) -> bool {
    match sel {
        Option::None => o is NotSelected,
        Option::Some(IpV::Public) => {
            &&& (o is Updated || o is ResolveFailed || o is UpdateFailed)
            &&& (o matches UpdateOutcomeV::Updated(ip) ==> ip_wf(ip))
        },
        Option::Some(IpV::IPv4(l)) => {
            &&& (o is Updated || o is UpdateFailed)
            &&& (o matches UpdateOutcomeV::Updated(ip) ==> ip == IpAddressV::V4(l))
        },
        Option::Some(IpV::IPv6(l)) => {
            &&& (o is Updated || o is UpdateFailed)
            &&& (o matches UpdateOutcomeV::Updated(ip) ==> ip == IpAddressV::V6(l))
        },
    }
}

/// Run the config-driven batch: one pass in file order, one outcome
/// per entry, and a failure of one entry never touches its siblings.
pub fn run_config_sync<F: IpFetcher, T: DuckDnsClient>(
    config: &Config,
    ipify: &Ipify<F>,
    duckdns: &DuckDns<T>,
) -> (r: Vec<DomainOutcome>)
    ensures
        r.deep_view().len() == config@.len(),
        forall|i: int|
            0 <= i < config@.len() ==> (#[trigger] r.deep_view()[i]).name == config@[i].name,
        forall|i: int|
            0 <= i < config@.len() ==> outcome_fits(
                config@[i].ip,
                (#[trigger] r.deep_view()[i]).outcome,
            ),
{
    let mut r: Vec<DomainOutcome> = Vec::new();
    let n = config.domains.len();
    let mut i: usize = 0;
    while i < n
        invariant
            0 <= i <= n == config.domains.len(),
            r.deep_view().len() == i,
            forall|k: int|
                0 <= k < i ==> (#[trigger] r.deep_view()[k]).name == config@[k].name,
            forall|k: int|
                0 <= k < i ==> outcome_fits(config@[k].ip, (#[trigger] r.deep_view()[k]).outcome),
        decreases n - i,
    {
        proof {
            assert(config@[i as int] == config.domains@[i as int]@);
        }
        let domain = &config.domains[i];
        let outcome: UpdateOutcome = match &domain.ip {
            Option::None => UpdateOutcome::NotSelected,
            Option::Some(crate::config::Ip::Public) => {
                match ipify.resolve_preferred() {
                    Result::Err(e) => UpdateOutcome::ResolveFailed(e),
                    Result::Ok(ip) => {
                        let one_domain = vec![domain.name.clone()];
                        let lit = ip.literal().clone();
                        let (ip4_param, ip6_param) = if ip.is_v6() {
                            (Option::None, Option::Some(lit))
                        } else {
                            (Option::Some(lit), Option::None)
                        };
                        match duckdns.update(
                            &one_domain,
                            domain.token.clone(),
                            ip4_param,
                            ip6_param,
                            Option::None,
                            Option::None,
                        ) {
                            Result::Ok(_) => UpdateOutcome::Updated(ip),
                            Result::Err(e) => UpdateOutcome::UpdateFailed(e),
                        }
                    },
                }
            },
            Option::Some(crate::config::Ip::IPv4(l)) => {
                let one_domain = vec![domain.name.clone()];
                match duckdns.update(
                    &one_domain,
                    domain.token.clone(),
                    Option::Some(l.clone()),
                    Option::None,
                    Option::None,
                    Option::None,
                ) {
                    Result::Ok(_) => UpdateOutcome::Updated(IpAddress::V4(l.clone())),
                    Result::Err(e) => UpdateOutcome::UpdateFailed(e),
                }
            },
            Option::Some(crate::config::Ip::IPv6(l)) => {
                let one_domain = vec![domain.name.clone()];
                match duckdns.update(
                    &one_domain,
                    domain.token.clone(),
                    Option::None,
                    Option::Some(l.clone()),
                    Option::None,
                    Option::None,
                ) {
                    Result::Ok(_) => UpdateOutcome::Updated(IpAddress::V6(l.clone())),
                    Result::Err(e) => UpdateOutcome::UpdateFailed(e),
                }
            },
        };
        let ghost before = r.deep_view();
        r.push(DomainOutcome { name: domain.name.clone(), outcome });
        proof {
            assert(r.deep_view() =~= before + seq![
                DomainOutcomeV { name: domain.name@, outcome: outcome@ },
            ]);
        }
        i = i + 1;
    }
    r
}

/// The literal inside an address, family left aside.
pub open spec fn spec_ip_literal(ip: IpAddressV) -> Seq<char> {
    match ip {
        IpAddressV::V4(l) => l,
        IpAddressV::V6(l) => l,
    }
}

/// The successes of a run, in order: each updated domain paired with
/// the literal it now publishes.
pub open spec fn spec_successes(os: Seq<DomainOutcomeV>) -> Seq<(Seq<Seq<char>>, Seq<char>)>
    decreases os.len(),
{
    if os.len() == 0 {
        Seq::<(Seq<Seq<char>>, Seq<char>)>::empty()
    } else {
        (match os[0].outcome {
            UpdateOutcomeV::Updated(ip) => seq![(seq![os[0].name], spec_ip_literal(ip))],
            _ => Seq::<(Seq<Seq<char>>, Seq<char>)>::empty(),
        }) + spec_successes(os.drop_first())
    }
}

proof fn lemma_successes_snoc(s: Seq<DomainOutcomeV>, d: DomainOutcomeV)
    ensures
        spec_successes(s + seq![d]) == spec_successes(s) + (match d.outcome {
            UpdateOutcomeV::Updated(ip) => seq![(seq![d.name], spec_ip_literal(ip))],
            _ => Seq::<(Seq<Seq<char>>, Seq<char>)>::empty(),
        }),
    decreases s.len(),
{
    let tail = match d.outcome {
        UpdateOutcomeV::Updated(ip) => seq![(seq![d.name], spec_ip_literal(ip))],
        _ => Seq::<(Seq<Seq<char>>, Seq<char>)>::empty(),
    };
    if s.len() == 0 {
        assert((s + seq![d])[0] == d);
        assert((s + seq![d]).drop_first() =~= Seq::<DomainOutcomeV>::empty());
        assert(spec_successes(Seq::<DomainOutcomeV>::empty())
            == Seq::<(Seq<Seq<char>>, Seq<char>)>::empty());
        assert(spec_successes(s + seq![d]) =~= spec_successes(s) + tail);
    } else {
        assert((s + seq![d])[0] == s[0]);
        assert((s + seq![d]).drop_first() =~= s.drop_first() + seq![d]);
        lemma_successes_snoc(s.drop_first(), d);
        assert(spec_successes(s + seq![d]) =~= spec_successes(s) + tail);
    }
}

/// Collect the successes of a run as the original result map.
pub fn successes(outcomes: &Vec<DomainOutcome>) -> (r: IpMap)
    ensures
        r.deep_view() == spec_successes(outcomes.deep_view()),
{
    let mut r: IpMap = Vec::new();
    let n = outcomes.len();
    let mut i: usize = 0;
    proof {
        assert(outcomes.deep_view().subrange(0, 0) =~= Seq::<DomainOutcomeV>::empty());
        assert(r.deep_view() =~= Seq::<(Seq<Seq<char>>, Seq<char>)>::empty());
    }
    while i < n
        invariant
            0 <= i <= n == outcomes.len(),
            r.deep_view() == spec_successes(outcomes.deep_view().subrange(0, i as int)),
        decreases n - i,
    {
        proof {
            assert(outcomes.deep_view()[i as int] == outcomes@[i as int]@);
            assert(outcomes.deep_view().subrange(0, i + 1 as int) =~= outcomes.deep_view()
                .subrange(0, i as int) + seq![outcomes.deep_view()[i as int]]);
            lemma_successes_snoc(
                outcomes.deep_view().subrange(0, i as int),
                outcomes.deep_view()[i as int],
            );
        }
        match &outcomes[i].outcome {
            UpdateOutcome::Updated(ip) => {
                let ghost before = r.deep_view();
                let name_list = vec![outcomes[i].name.clone()];
                let lit = ip.literal().clone();
                r.push((name_list, lit));
                proof {
                    assert(r.deep_view() =~~= before + seq![
                        (seq![outcomes@[i as int].name@], lit@),
                    ]);
                }
            },
            _ => {},
        }
        i = i + 1;
    }
    proof {
        assert(outcomes.deep_view().subrange(0, n as int) =~= outcomes.deep_view());
    }
    r
}

/// Whether every requested update went through: entries that select
/// no address request nothing, every other outcome must be a success.
pub open spec fn spec_all_succeeded(os: Seq<DomainOutcomeV>) -> bool {
    forall|i: int|
        0 <= i < os.len() ==> ((#[trigger] os[i]).outcome is Updated || os[i].outcome
            is NotSelected)
}

/// Decide the run's overall success, the exit-status concern.
pub fn all_succeeded(outcomes: &Vec<DomainOutcome>) -> (r: bool)
    ensures
        r == spec_all_succeeded(outcomes.deep_view()),
{
    let n = outcomes.len();
    let mut i: usize = 0;
    while i < n
        invariant
            0 <= i <= n == outcomes.len(),
            forall|k: int|
                0 <= k < i ==> ((#[trigger] outcomes.deep_view()[k]).outcome is Updated
                    || outcomes.deep_view()[k].outcome is NotSelected),
        decreases n - i,
    {
        proof {
            assert(outcomes.deep_view()[i as int] == outcomes@[i as int]@);
        }
        let ok = match &outcomes[i].outcome {
            UpdateOutcome::Updated(_) => true,
            UpdateOutcome::NotSelected => true,
            _ => false,
        };
        if !ok {
            return false;
        }
        i = i + 1;
    }
    true
}

/// Run the ad-hoc batch: resolve one address and push it to every
/// listed domain in a single combined update call.
pub fn update_dns_batch<F: IpFetcher, T: DuckDnsClient>(
    domains: Vec<String>,
    token: String,
    ipify: &Ipify<F>,
    duckdns: &DuckDns<T>,
) -> (r: Result<IpMap, String>)
    requires
        domains@.len() > 0,
    ensures
        r matches Result::Ok(m) ==> m.deep_view().len() == 1 && m.deep_view()[0].0
            == domains.deep_view() && (is_ipv4_literal(m.deep_view()[0].1) || is_ipv6_literal(
            m.deep_view()[0].1,
        )),
{
    let ip = match ipify.resolve_preferred() {
        Result::Ok(ip) => ip,
        Result::Err(_) => {
            return Result::Err("Failed to get public ip".to_owned());
        },
    };
    let lit = ip.literal().clone();
    let (ip4_param, ip6_param) = if ip.is_v6() {
        (Option::None, Option::Some(lit.clone()))
    } else {
        (Option::Some(lit.clone()), Option::None)
    };
    match duckdns.update(&domains, token, ip4_param, ip6_param, Option::None, Option::None) {
        Result::Err(e) => Result::Err(e),
        Result::Ok(_) => {
            let mut m: IpMap = Vec::new();
            m.push((domains, lit));
            proof {
                assert(m.deep_view() =~= seq![m@[0].deep_view()]);
            }
            Result::Ok(m)
        },
    }
}

/// Whether a run's result counts as a success for the process exit
/// status.
pub fn print_res(res: &Result<IpMap, String>) -> (ok: bool)
    ensures
        ok == (res is Ok),
{
    match res {
        Result::Ok(_) => true,
        Result::Err(_) => false,
    }
}

} // verus!
