use suibase_daemon::links::{LinkFlags, LinkStats, LinkStatus, LinksSummary};
use suibase_daemon::links::{count_healthy, measure_group, measure_link, sum_requests};
use suibase_daemon::proxy_api::{ProxyApiImpl, RpcInputError};
use suibase_daemon::reading::Binary64;
use suibase_daemon::report::{build_report, LinksResponse};
use suibase_daemon::stats::{Globals, InputPort, ServerStats, StatsSnapshot, TargetServer};

fn b(x: f64) -> Binary64 {
    Binary64::from_bits(x.to_bits())
}

fn server(alias: &str, requests: u64, successes: u64, latency: f64, health: f64) -> ServerStats {
    ServerStats {
        alias: alias.to_string(),
        requests,
        successes,
        success_on_first_attempt: successes,
        success_on_retry: 0,
        fail_network_down: requests - successes,
        fail_bad_request: 0,
        fail_others: 0,
        avg_latency_ms: b(latency),
        health_score: b(health),
    }
}

fn totals() -> ServerStats {
    ServerStats {
        alias: "all".to_string(),
        requests: 1000,
        successes: 990,
        success_on_first_attempt: 980,
        success_on_retry: 10,
        fail_network_down: 5,
        fail_bad_request: 3,
        fail_others: 2,
        avg_latency_ms: b(0.0),
        health_score: b(0.0),
    }
}

fn group(name: &str, servers: Vec<ServerStats>) -> InputPort {
    InputPort {
        name: name.to_string(),
        all_servers_stats: totals(),
        target_servers: servers.into_iter().map(|stats| TargetServer { stats }).collect(),
    }
}

fn three_servers() -> Vec<ServerStats> {
    vec![
        server("mainnet-a", 600, 594, 102.125, 98.5),
        server("mainnet-b", 0, 0, f64::NAN, f64::NAN),
        server("a-rather-long-alias-for-a-server", 200, 100, 20000.0, -12.25),
    ]
}

fn api() -> ProxyApiImpl {
    ProxyApiImpl::new(Globals {
        input_ports: vec![
            group("localnet", vec![]),
            group("mainnet", three_servers()),
            group("mainnet", vec![server("shadowed", 1, 1, 1.0, 1.0)]),
        ],
    })
}

fn float_percent(part: u64, whole: u128) -> String {
    format!("{:.2}", (part as f64 * 100.0f64) / (whole as f64))
}

fn texts(link: &LinkStats) -> [&str; 5] {
    [&link.alias, &link.health_pct, &link.load_pct, &link.resp_time, &link.success_pct]
}

#[test]
fn status_table() {
    assert_eq!(LinkStatus::decide(true, 0, 0), LinkStatus::NoConfig);
    assert_eq!(LinkStatus::decide(true, 4, 0), LinkStatus::Down);
    assert_eq!(LinkStatus::decide(true, 4, 2), LinkStatus::Degraded);
    assert_eq!(LinkStatus::decide(true, 4, 3), LinkStatus::Okay);
    assert_eq!(LinkStatus::decide(true, 4, 4), LinkStatus::Okay);
    assert_eq!(LinkStatus::decide(true, 1, 1), LinkStatus::Okay);
    assert_eq!(LinkStatus::decide(true, 3, 2), LinkStatus::Okay);
    assert_eq!(LinkStatus::decide(true, 100, 50), LinkStatus::Degraded);
    assert_eq!(LinkStatus::decide(true, 100, 51), LinkStatus::Okay);
    // Whole percent: 100 of 199 is 50 percent, and not more.
    assert_eq!(LinkStatus::decide(true, 199, 100), LinkStatus::Degraded);
    assert_eq!(LinkStatus::decide(true, usize::MAX, usize::MAX), LinkStatus::Okay);
    assert_eq!(LinkStatus::decide(false, 0, 0), LinkStatus::Disabled);
    assert_eq!(LinkStatus::decide(false, 4, 4), LinkStatus::Disabled);
}

#[test]
fn status_names() {
    assert_eq!(LinkStatus::Disabled.as_str(), "DISABLED");
    assert_eq!(LinkStatus::NoConfig.as_str(), "NO CONFIG");
    assert_eq!(LinkStatus::Down.as_str(), "DOWN");
    assert_eq!(LinkStatus::Degraded.as_str(), "DEGRADED");
    assert_eq!(LinkStatus::Okay.as_str(), "OK");
}

#[test]
fn flags_by_default() {
    let flags = LinkFlags::resolve(None, None, None, None, None);
    assert_eq!(
        flags,
        LinkFlags { summary: true, links: true, data: true, display: false, debug: false }
    );
}

#[test]
fn flags_with_debug_only() {
    let flags = LinkFlags::resolve(None, None, None, None, Some(true));
    assert_eq!(
        flags,
        LinkFlags { summary: true, links: true, data: false, display: true, debug: true }
    );
}

#[test]
fn flags_in_combination() {
    let f = LinkFlags::resolve(None, None, None, Some(true), None);
    assert_eq!((f.data, f.display, f.debug), (false, true, false));
    let f = LinkFlags::resolve(None, None, None, Some(false), Some(true));
    assert_eq!((f.data, f.display, f.debug), (false, false, true));
    let f = LinkFlags::resolve(Some(false), Some(false), Some(true), Some(true), Some(true));
    assert_eq!(
        f,
        LinkFlags { summary: false, links: false, data: true, display: true, debug: true }
    );
    let f = LinkFlags::resolve(None, None, Some(false), None, None);
    assert_eq!((f.data, f.display, f.debug), (false, false, false));
}

#[test]
fn metrics_of_one_server() {
    let link = measure_link(&server("a", 3, 1, 1.005, 0.125), 7);
    assert_eq!(texts(&link), ["a", "0.12", "42.86", "1.00", "33.33"]);
    let link = measure_link(&server("b", 0, 0, f64::INFINITY, f64::NAN), 7);
    assert_eq!(texts(&link), ["b", "", "0.00", "", ""]);
    let link = measure_link(&server("c", 0, 0, 5.0, -3.0), 0);
    assert_eq!(texts(&link), ["c", "-3.00", "", "5.00", ""]);
    let link = measure_link(&server("d", 1, 1, 5.0, 3.0), 20000);
    assert_eq!(texts(&link), ["d", "3.00", "0.01", "5.00", "100.00"]);
    let link = measure_link(&server("d", 1, 1, 5.0, 3.0), 4000);
    assert_eq!(texts(&link), ["d", "3.00", "0.03", "5.00", "100.00"]);
    let link = measure_link(&server("e", 3, 3, 5.0, 3.0), 20000);
    assert_eq!(texts(&link), ["e", "3.00", "0.01", "5.00", "100.00"]);
    let link = measure_link(&server("f", u64::MAX, 1, 5.0, 3.0), u64::MAX as u128 * 3);
    assert_eq!(texts(&link), ["f", "3.00", "33.33", "5.00", "0.00"]);
}

#[test]
fn metrics_stay_in_the_order_of_the_servers() {
    let servers = three_servers();
    let links = measure_group(&servers);
    assert_eq!(links.len(), 3);
    assert_eq!(texts(&links[0]), ["mainnet-a", "98.50", "75.00", "102.12", "99.00"]);
    assert_eq!(texts(&links[1]), ["mainnet-b", "", "0.00", "", ""]);
    assert_eq!(
        texts(&links[2]),
        ["a-rather-long-alias-for-a-server", "-12.25", "25.00", "20000.00", "50.00"]
    );
    assert_eq!(sum_requests(&servers), 800);
    assert_eq!(count_healthy(&servers), 1);
}

#[test]
fn percentages_agree_with_float_arithmetic() {
    let mut x: u64 = 0xD1B54A32D192ED03;
    for round in 0..1500 {
        x ^= x << 13;
        x ^= x >> 7;
        x ^= x << 17;
        let (part, whole): (u64, u128) = match round % 5 {
            0 => (x % 4000, 4000),
            1 => (x % 20000, 20000),
            2 => ((x >> 20) % 1_000_000, 1 + (x % 1_000_000) as u128),
            3 => (x, 1 + (x.rotate_left(17) as u128)),
            _ => (x >> 7, (x as u128) << 40 | 1),
        };
        let link = measure_link(&server("s", part, part, 1.0, 1.0), whole);
        assert_eq!(link.load_pct, float_percent(part, whole), "{} of {}", part, whole);
        if part != 0 {
            let inner = (x >> 9) % (part + 1);
            let link = measure_link(&server("s", part, inner, 1.0, 1.0), whole);
            assert_eq!(link.success_pct, float_percent(inner, part as u128), "{} of {}", inner, part);
        }
    }
    for (part, whole) in [
        (0u64, 1u128), (1, 1), (1, 3), (2, 3), (u64::MAX, 1), (u64::MAX, u64::MAX as u128),
        (1, u64::MAX as u128), (9007199254740993, 7), (1, u128::MAX), (u64::MAX, u128::MAX),
        (u64::MAX, (1u128 << 64) + 1), (1 << 53, (1 << 53) + 1),
    ] {
        let link = measure_link(&server("s", part, 0, 1.0, 1.0), whole);
        assert_eq!(link.load_pct, float_percent(part, whole), "{} of {}", part, whole);
    }
}

#[test]
fn loads_add_up() {
    let servers: Vec<ServerStats> =
        [17u64, 0, 4, 979].iter().map(|n| server("s", *n, 0, 1.0, 1.0)).collect();
    let total = sum_requests(&servers);
    assert_eq!(total, 1000);
    let parts: u128 = servers.iter().map(|s| 100 * s.requests as u128).sum();
    assert_eq!(parts, 100 * total);
    let links = measure_group(&servers);
    let loads: Vec<&str> = links.iter().map(|l| l.load_pct.as_str()).collect();
    assert_eq!(loads, ["1.70", "0.00", "0.40", "97.90"]);
}

#[test]
fn loads_are_unset_without_requests() {
    let servers = vec![server("a", 0, 0, 1.0, 1.0), server("b", 0, 0, 1.0, 1.0)];
    let links = measure_group(&servers);
    assert_eq!(links.len(), 2);
    assert_eq!(links[0].load_pct, "");
    assert_eq!(links[1].load_pct, "");
    assert_eq!(links[0].success_pct, "");
    assert_eq!(links[1].alias, "b");
}

#[test]
fn unknown_group_is_an_error() {
    let result = api().get_links(
        "testnet".to_string(),
        None,
        None,
        None,
        None,
        None,
        String::new(),
    );
    match result {
        Err(RpcInputError::InvalidParams(name, value)) => {
            assert_eq!(name, "workdir");
            assert_eq!(value, "testnet");
        }
        Ok(_) => panic!("a report on a group that does not exist"),
    }
}

#[test]
fn report_by_default_holds_the_data() {
    let response: LinksResponse = api()
        .get_links("mainnet".to_string(), None, None, None, None, None, "dump".to_string())
        .unwrap();
    assert_eq!(response.status, "DEGRADED");
    assert_eq!(
        response.summary,
        Some(LinksSummary {
            success_on_first_attempt: 980,
            success_on_retry: 10,
            fail_network_down: 5,
            fail_bad_request: 3,
            fail_others: 2,
        })
    );
    let links = response.links.unwrap();
    assert_eq!(links.len(), 3);
    assert_eq!(texts(&links[0]), ["mainnet-a", "98.50", "75.00", "102.12", "99.00"]);
    assert!(response.display.is_none());
    assert!(response.debug.is_none());
}

#[test]
fn report_of_a_group_without_servers() {
    let response = api()
        .get_links("localnet".to_string(), None, None, None, None, None, String::new())
        .unwrap();
    assert_eq!(response.status, "NO CONFIG");
    assert_eq!(response.links.unwrap().len(), 0);
}

#[test]
fn report_states() {
    let make = |healths: &[f64]| {
        let servers = healths.iter().map(|h| server("s", 1, 1, 1.0, *h)).collect();
        let snapshot = StatsSnapshot { all_servers_stats: totals(), target_servers_stats: servers };
        let flags = LinkFlags::resolve(None, None, None, None, None);
        build_report(&snapshot, flags, String::new()).status
    };
    assert_eq!(make(&[]), "NO CONFIG");
    assert_eq!(make(&[0.0, -1.0, f64::NAN, f64::INFINITY]), "DOWN");
    assert_eq!(make(&[1.0, 2.0, 0.0, -5.0]), "DEGRADED");
    assert_eq!(make(&[1.0, 2.0, 3.0, -5.0]), "OK");
    assert_eq!(make(&[5e-324]), "OK");
}

#[test]
fn report_for_display() {
    let response = api()
        .get_links(
            "mainnet".to_string(),
            None,
            None,
            None,
            Some(true),
            None,
            "dump".to_string(),
        )
        .unwrap();
    assert!(response.summary.is_none());
    assert!(response.links.is_none());
    assert!(response.debug.is_none());
    let expected = "\
Multi-Link RPC status: DEGRADED

Cummulative Request Stats
-------------------------
Success first attempt       980   (  0.0 %)
Success after retry          10   (  0.0 %)
Failure network down          5   (  0.0 %)
Failure bad request           3   (  0.0 %)
Failure others                2   (  0.0 %)

alias                Health %    Load %    RespT ms   Success %
---------------------------------------------------------------
mainnet-a               +98.5      75.0      102.12        99.0    
mainnet-b                  -        0.0           -           -    
a-rather-long-alias-for-a-server    -12.2      25.0     >10secs        50.0    
";
    assert_eq!(response.display.unwrap(), expected);
}

#[test]
fn report_rows_follow_the_column_format() {
    let servers = three_servers();
    let links = measure_group(&servers);
    let snapshot = StatsSnapshot { all_servers_stats: totals(), target_servers_stats: servers };
    let flags = LinkFlags::resolve(Some(false), None, None, Some(true), None);
    let display = build_report(&snapshot, flags, String::new()).display.unwrap();
    let mut expected = String::from(
        "alias                Health %    Load %    RespT ms   Success %\n---------------------------------------------------------------\n",
    );
    for link in links.iter() {
        expected.push_str(&format!(
            "{:<20}   {:9}  {:9} {:9}     {:9}\n",
            link.alias,
            ProxyApiImpl::fmt_str_score(&link.health_pct),
            ProxyApiImpl::fmt_str_pct(&link.load_pct),
            ProxyApiImpl::fmt_str_ms(&link.resp_time),
            ProxyApiImpl::fmt_str_pct(&link.success_pct),
        ));
    }
    assert_eq!(display, expected);
}

#[test]
fn report_summary_follows_the_line_format() {
    let mut all = totals();
    all.success_on_first_attempt = 12_345_678_901;
    let snapshot = StatsSnapshot { all_servers_stats: all, target_servers_stats: vec![] };
    let flags = LinkFlags::resolve(None, Some(false), None, Some(true), None);
    let display = build_report(&snapshot, flags, String::new()).display.unwrap();
    let zero = ProxyApiImpl::fmt_f64_pct(b(0.0));
    let expected = format!(
        "Multi-Link RPC status: {}\n\nCummulative Request Stats\n-------------------------\nSuccess first attempt {:>9}   ({:>5} %)\nSuccess after retry   {:>9}   ({:>5} %)\nFailure network down  {:>9}   ({:>5} %)\nFailure bad request   {:>9}   ({:>5} %)\nFailure others        {:>9}   ({:>5} %)\n\n",
        "NO CONFIG", 12_345_678_901u64, zero, 10, zero, 5, zero, 3, zero, 2, zero
    );
    assert_eq!(display, expected);
}

#[test]
fn report_with_debug_only() {
    let response = api()
        .get_links(
            "mainnet".to_string(),
            None,
            None,
            None,
            None,
            Some(true),
            "state of the world".to_string(),
        )
        .unwrap();
    assert_eq!(response.debug.as_deref(), Some("state of the world"));
    assert!(response.display.is_some());
    assert!(response.summary.is_none());
    assert!(response.links.is_none());
}

#[test]
fn report_with_everything() {
    let response = api()
        .get_links(
            "mainnet".to_string(),
            Some(true),
            Some(false),
            Some(true),
            Some(true),
            Some(true),
            "x".to_string(),
        )
        .unwrap();
    assert!(response.summary.is_some());
    assert!(response.links.is_none());
    assert!(response.display.unwrap().ends_with("(  0.0 %)\n\n"));
    assert_eq!(response.debug.as_deref(), Some("x"));
}

#[test]
fn lookup_takes_the_first_group_of_a_name() {
    let api = api();
    let key = "mainnet";
    let port = api.globals.find_input_port_by_name(key).unwrap();
    assert_eq!(port.target_servers.len(), 3);
    assert!(api.globals.find_input_port_by_name("devnet").is_none());
    let snapshot = api.globals.snapshot(key).unwrap();
    assert_eq!(snapshot.target_servers_stats.len(), 3);
    assert_eq!(snapshot.target_servers_stats[2].alias, "a-rather-long-alias-for-a-server");
    assert_eq!(snapshot.all_servers_stats.success_on_retry, 10);
    assert!(api.globals.snapshot("devnet").is_none());
}

#[test]
fn empty_values() {
    let link = LinkStats::new("x".to_string());
    assert_eq!(texts(&link), ["x", "", "", "", ""]);
    let summary = LinksSummary::new();
    assert_eq!(summary.success_on_first_attempt + summary.fail_others, 0);
    let response = LinksResponse::new();
    assert_eq!(response.status, "");
    assert!(response.summary.is_none() && response.links.is_none());
    assert!(response.display.is_none() && response.debug.is_none());
}
