//! The health report of a link group: what it holds, and how it is derived
//! from a snapshot of the group's counters.

use crate::machine::machine_text;
use crate::arith64::percent_binary64;
use crate::arith64::percent_value;
use crate::proxy_api::ProxyApiImpl;
use crate::reading::Reading;
use crate::stats::ServerStats;
use vstd::prelude::*;

verus! {

/// The overall state of a link group.
#[derive(Clone, Copy, Debug, PartialEq, Eq, Structural)]
pub enum LinkStatus {
    Disabled,
    NoConfig,
    Down,
    Degraded,
    Okay,
}

/// The state of a link group: disabled where the group is not found;
/// without servers, not configured; without a healthy server, down; with
/// more than half of the servers healthy, by whole percent, in order;
/// degraded otherwise.
pub open spec fn link_status(found: bool, server_count: nat, healthy_count: nat) -> LinkStatus {
    if !found {
        LinkStatus::Disabled
    } else if server_count == 0 {
        LinkStatus::NoConfig
    } else if healthy_count == 0 {
        LinkStatus::Down
    } else if (healthy_count * 100) / server_count > 50 {
        LinkStatus::Okay
    } else {
        LinkStatus::Degraded
    }
}

impl LinkStatus {
    /// The name under which the state is reported.
    pub open spec fn label(self) -> Seq<char> {
        match self {
            LinkStatus::Disabled => "DISABLED"@,
            LinkStatus::NoConfig => "NO CONFIG"@,
            LinkStatus::Down => "DOWN"@,
            LinkStatus::Degraded => "DEGRADED"@,
            LinkStatus::Okay => "OK"@,
        }
    }

    pub fn as_str(self) -> (name: &'static str)
        ensures
            name@ == self.label(),
    {
        match self {
            LinkStatus::Disabled => "DISABLED",
            LinkStatus::NoConfig => "NO CONFIG",
            LinkStatus::Down => "DOWN",
            LinkStatus::Degraded => "DEGRADED",
            LinkStatus::Okay => "OK",
        }
    }

    /// Decides the state of a link group from whether it was found, the
    /// number of its servers and the number of healthy ones among them.
    pub fn decide(found: bool, server_count: usize, healthy_count: usize) -> (status: LinkStatus)
        ensures
            status == link_status(found, server_count as nat, healthy_count as nat),
    {
        if !found {
            LinkStatus::Disabled
        } else if server_count == 0 {
            LinkStatus::NoConfig
        } else if healthy_count == 0 {
            LinkStatus::Down
        } else if (healthy_count as u128 * 100) / (server_count as u128) > 50 {
            LinkStatus::Okay
        } else {
            LinkStatus::Degraded
        }
    }
}

/// The output options of a report, each settled.
#[derive(Clone, Copy, Debug, PartialEq, Eq, Structural)]
pub struct LinkFlags {
    pub summary: bool,
    pub links: bool,
    pub data: bool,
    pub display: bool,
    pub debug: bool,
}

/// An option as given, or `default` where none was given.
pub open spec fn given_or(option: Option<bool>, default: bool) -> bool {
    match option {
        Some(b) => b,
        None => default,
    }
}

/// The options of a report as settled from what the caller gave: the
/// summary and the links are on unless switched off; the debug text is off
/// unless switched on; the display follows the debug text unless given; and
/// the data is on, unless given, exactly when neither of those two is.
pub open spec fn resolved_flags(
    summary: Option<bool>,
    links: Option<bool>,
    data: Option<bool>,
    display: Option<bool>,
    debug: Option<bool>,
) -> LinkFlags {
    let debug = given_or(debug, false);
    let display = given_or(display, debug);
    LinkFlags {
        summary: given_or(summary, true),
        links: given_or(links, true),
        data: given_or(data, !(debug || display)),
        display,
        debug,
    }
}

impl LinkFlags {
    /// Settles the options of a report.
    pub fn resolve(
        summary: Option<bool>,
        links: Option<bool>,
        data: Option<bool>,
        display: Option<bool>,
        debug: Option<bool>,
    ) -> (flags: LinkFlags)
        ensures
            flags == resolved_flags(summary, links, data, display, debug),
    {
        let summary = summary.unwrap_or(true);
        let links = links.unwrap_or(true);
        let debug = debug.unwrap_or(false);
        let display = display.unwrap_or(debug);
        let data = data.unwrap_or(!(debug || display));
        LinkFlags { summary, links, data, display, debug }
    }
}

/// The request totals of a link group.
#[derive(Clone, Copy, Debug, PartialEq, Eq, Structural)]
pub struct LinksSummary {
    pub success_on_first_attempt: u64,
    pub success_on_retry: u64,
    pub fail_network_down: u64,
    pub fail_bad_request: u64,
    pub fail_others: u64,
}

/// The request totals held in the summed counters of a link group.
pub open spec fn summary_of(all: ServerStats) -> LinksSummary {
    LinksSummary {
        success_on_first_attempt: all.success_on_first_attempt,
        success_on_retry: all.success_on_retry,
        fail_network_down: all.fail_network_down,
        fail_bad_request: all.fail_bad_request,
        fail_others: all.fail_others,
    }
}

impl LinksSummary {
    /// Totals of zero.
    pub fn new() -> (summary: LinksSummary)
        ensures
            summary == (LinksSummary {
                success_on_first_attempt: 0,
                success_on_retry: 0,
                fail_network_down: 0,
                fail_bad_request: 0,
                fail_others: 0,
            }),
    {
        LinksSummary {
            success_on_first_attempt: 0,
            success_on_retry: 0,
            fail_network_down: 0,
            fail_bad_request: 0,
            fail_others: 0,
        }
    }

    /// The totals held in the summed counters `all`.
    pub fn from_stats(all: &ServerStats) -> (summary: LinksSummary)
        ensures
            summary == summary_of(*all),
    {
        LinksSummary {
            success_on_first_attempt: all.success_on_first_attempt,
            success_on_retry: all.success_on_retry,
            fail_network_down: all.fail_network_down,
            fail_bad_request: all.fail_bad_request,
            fail_others: all.fail_others,
        }
    }
}

/// The metrics of one server in the machine-readable report. A metric
/// without data is the empty text.
#[derive(Debug)]
pub struct LinkStats {
    pub alias: String,
    pub health_pct: String,
    pub load_pct: String,
    pub resp_time: String,
    pub success_pct: String,
}

/// The texts of a [`LinkStats`].
pub struct LinkStatsView {
    pub alias: Seq<char>,
    pub health_pct: Seq<char>,
    pub load_pct: Seq<char>,
    pub resp_time: Seq<char>,
    pub success_pct: Seq<char>,
}

impl View for LinkStats {
    type V = LinkStatsView;

    open spec fn view(&self) -> LinkStatsView {
        LinkStatsView {
            alias: self.alias@,
            health_pct: self.health_pct@,
            load_pct: self.load_pct@,
            resp_time: self.resp_time@,
            success_pct: self.success_pct@,
        }
    }
}

impl LinkStats {
    /// The metrics of the server `alias`, all without data.
    pub fn new(alias: String) -> (link: LinkStats)
        ensures
            link@ == (LinkStatsView {
                alias: alias@,
                health_pct: Seq::empty(),
                load_pct: Seq::empty(),
                resp_time: Seq::empty(),
                success_pct: Seq::empty(),
            }),
    {
        LinkStats {
            alias,
            health_pct: String::new(),
            load_pct: String::new(),
            resp_time: String::new(),
            success_pct: String::new(),
        }
    }
}

/// The texts of each of `links`, in order.
pub open spec fn link_views(links: Seq<LinkStats>) -> Seq<LinkStatsView> {
    Seq::new(links.len(), |i: int| links[i]@)
}

/// The requests handled by all of `servers` together.
pub open spec fn total_requests(servers: Seq<ServerStats>) -> nat
    decreases servers.len(),
{
    if servers.len() == 0 {
        0
    } else {
        total_requests(servers.drop_last()) + servers.last().requests as nat
    }
}

/// How many of `servers` are healthy.
pub open spec fn healthy_count(servers: Seq<ServerStats>) -> nat
    decreases servers.len(),
{
    if servers.len() == 0 {
        0
    } else {
        healthy_count(servers.drop_last()) + if servers.last().is_healthy() {
            1nat
        } else {
            0nat
        }
    }
}

/// The exact share of a server in `total` requests, as a percentage.
pub open spec fn load_share(server: ServerStats, total: nat) -> Reading {
    Reading::fraction(100 * server.requests as nat, total)
}

/// The metrics of one server of a group that handled `total` requests.
///
/// The health score and the average latency are passed on as they are.
/// The success rate is the percentage of successes among the requests of
/// the server, and the load the percentage of its requests among those of
/// the group, both computed in binary64. The success rate is without data
/// for a server without requests, and the load for a group without
/// requests.
pub open spec fn link_metrics(server: ServerStats, total: nat) -> LinkStatsView {
    LinkStatsView {
        alias: server.alias@,
        health_pct: machine_text(server.health_score@),
        load_pct: if total == 0 {
            Seq::empty()
        } else {
            machine_text(percent_value(server.requests as nat, total)@)
        },
        resp_time: machine_text(server.avg_latency_ms@),
        success_pct: if server.requests == 0 {
            Seq::empty()
        } else {
            machine_text(percent_value(server.successes as nat, server.requests as nat)@)
        },
    }
}

/// The metrics of each of `servers`, in their order.
pub open spec fn group_metrics(servers: Seq<ServerStats>) -> Seq<LinkStatsView> {
    Seq::new(servers.len(), |i: int| link_metrics(servers[i], total_requests(servers)))
}

/// The requests handled by all of `servers` together.
pub fn sum_requests(servers: &Vec<ServerStats>) -> (total: u128)
    ensures
        total == total_requests(servers@),
{
    let mut total: u128 = 0;
    let mut i: usize = 0;
    proof {
        assert(servers@.take(0).len() == 0);
    }
    while i < servers.len()
        invariant
            i <= servers.len(),
            total == total_requests(servers@.take(i as int)),
            total <= i * 0xffff_ffff_ffff_ffff,
        decreases servers.len() - i,
    {
        proof {
            assert(servers@.take(i + 1).drop_last() == servers@.take(i as int));
            assert(servers@.take(i + 1).last() == servers[i as int]);
        }
        total = total + servers[i].requests as u128;
        i = i + 1;
    }
    proof {
        assert(servers@.take(servers.len() as int) == servers@);
    }
    total
}

/// How many of `servers` are healthy.
pub fn count_healthy(servers: &Vec<ServerStats>) -> (count: usize)
    ensures
        count == healthy_count(servers@),
        count <= servers.len(),
{
    let mut count: usize = 0;
    let mut i: usize = 0;
    proof {
        assert(servers@.take(0).len() == 0);
    }
    while i < servers.len()
        invariant
            i <= servers.len(),
            count == healthy_count(servers@.take(i as int)),
            count <= i,
        decreases servers.len() - i,
    {
        proof {
            assert(servers@.take(i + 1).drop_last() == servers@.take(i as int));
            assert(servers@.take(i + 1).last() == servers[i as int]);
        }
        if servers[i].health_score.is_positive() {
            count = count + 1;
        }
        i = i + 1;
    }
    proof {
        assert(servers@.take(servers.len() as int) == servers@);
    }
    count
}

/// Derives the metrics of one server of a group that handled `total` requests.
pub fn measure_link(server: &ServerStats, total: u128) -> (link: LinkStats)
    ensures
        link@ == link_metrics(*server, total as nat),
{
    let mut link = LinkStats::new(server.alias.clone());
    if server.requests != 0 {
        link.success_pct = percent_binary64(server.successes, server.requests as u128).machine_form();
    }
    link.health_pct = ProxyApiImpl::fmt_f64_api(server.health_score);
    link.resp_time = ProxyApiImpl::fmt_f64_api(server.avg_latency_ms);
    if total != 0 {
        link.load_pct = percent_binary64(server.requests, total).machine_form();
    }
    link
}

/// Derives the metrics of each of `servers`, in their order.
pub fn measure_group(servers: &Vec<ServerStats>) -> (links: Vec<LinkStats>)
    ensures
        link_views(links@) == group_metrics(servers@),
        links.len() == servers.len(),
{
    let total = sum_requests(servers);
    let mut links: Vec<LinkStats> = Vec::new();
    let mut i: usize = 0;
    while i < servers.len()
        invariant
            i <= servers.len(),
            links.len() == i,
            total == total_requests(servers@),
            forall|k: int| 0 <= k < i ==> (#[trigger] links[k])@ == link_metrics(
                servers[k],
                total as nat,
            ),
        decreases servers.len() - i,
    {
        let link = measure_link(&servers[i], total);
        links.push(link);
        i = i + 1;
    }
    proof {
        assert(link_views(links@) =~= group_metrics(servers@));
    }
    links
}

} // verus!
