use xmip_test_playground::capability::Capability;
use xmip_test_playground::handoff::Hop;
use xmip_test_playground::roster::Roster;
use xmip_test_playground::stage::Stage;
use xmip_test_playground::health::{Health, HealthRecord};
use xmip_test_playground::topology::{
    configured_pairs, drawn_stages, handoff_links, ids, label, link_evidence, mood, node_id,
    origin, transports, Link, Origin,
};

fn hop(from: &str, from_stage: &str, to: &str, to_stage: &str, count: u64) -> Hop {
    Hop {
        from: from.to_string(),
        from_stage: from_stage.to_string(),
        to: to.to_string(),
        to_stage: to_stage.to_string(),
        count,
        last_unix_nanos: 0,
    }
}

#[test]
fn a_scope_is_called_by_its_last_segment() {
    assert_eq!(label("xmip:///playground/node/alpha"), "alpha");
    assert_eq!(label("plain"), "plain");
    assert_eq!(label("ends/"), "");
    assert_eq!(node_id("alpha"), "node/alpha");
}

#[test]
fn the_roster_configures_receive_to_process_to_send_over_who_declared_them() {
    let roster = Roster::parse("alpha=receive,beta=process,gamma=send,zeta=send").expect("roster");
    let pairs = configured_pairs(&roster);
    assert_eq!(
        pairs,
        [
            ("alpha".to_string(), Stage::Receive, "beta".to_string(), Stage::Process),
            ("beta".to_string(), Stage::Process, "gamma".to_string(), Stage::Send),
            ("beta".to_string(), Stage::Process, "zeta".to_string(), Stage::Send),
        ]
    );
    assert!(configured_pairs(&Roster::default()).is_empty());
}

#[test]
fn hops_count_onto_configured_links_and_an_unconfigured_one_is_observed() {
    let roster = Roster::parse("alpha=receive,beta=process,gamma=send").expect("roster");
    let hops = [
        hop("alpha", "receive", "beta", "process", 3),
        hop("gamma", "process", "alpha", "send", 2),
        hop("old", "", "file", "", 9),
        hop("alpha", "receive", "beta", "process", 4),
    ];
    let links = handoff_links(Some(&roster), &hops);
    let seen: Vec<(String, Stage, String, Stage, bool, u64)> = links
        .iter()
        .map(|link| {
            (
                link.pair.0.clone(),
                link.pair.1,
                link.pair.2.clone(),
                link.pair.3,
                link.configured,
                link.count,
            )
        })
        .collect();
    assert_eq!(
        seen,
        [
            ("alpha".to_string(), Stage::Receive, "beta".to_string(), Stage::Process, true, 7),
            ("beta".to_string(), Stage::Process, "gamma".to_string(), Stage::Send, true, 0),
            ("gamma".to_string(), Stage::Process, "alpha".to_string(), Stage::Send, false, 2),
        ]
    );
    assert_eq!(handoff_links(None, &hops).len(), 2);
}

#[test]
fn a_link_says_whether_it_was_configured_observed_or_both() {
    let pair = ("beta".to_string(), Stage::Process, "zeta".to_string(), Stage::Send);
    let configured = Link { pair: pair.clone(), configured: true, count: 0 };
    assert_eq!(
        origin(&configured),
        (Origin::Configured, "configured beta to zeta; no handoff observed yet".to_string())
    );
    let both = Link { pair: pair.clone(), configured: true, count: 12 };
    assert_eq!(origin(&both), (Origin::Both, "12 handoffs beta to zeta".to_string()));
    let observed = Link { pair: pair.clone(), configured: false, count: 1 };
    assert_eq!(
        origin(&observed),
        (
            Origin::Observed,
            "1 handoffs beta to zeta, which no configuration declares".to_string()
        )
    );
    assert_eq!(
        ids(&pair),
        (
            "handoff/beta/process/zeta/send".to_string(),
            "node/beta/process".to_string(),
            "node/zeta/send".to_string()
        )
    );
}

#[test]
fn a_node_draws_the_stages_it_declared_and_those_it_reported_on() {
    let declared = Capability::of(&[Stage::Send]);
    assert_eq!(drawn_stages(declared, &[]), [Stage::Send]);
    assert_eq!(
        drawn_stages(declared, &[Stage::Receive]),
        [Stage::Receive, Stage::Send]
    );
    assert!(drawn_stages(Capability::none(), &[]).is_empty());
}

#[test]
fn a_stage_s_endpoints_are_the_transports_it_reported_on_once_each_in_order() {
    let scopes: Vec<String> = [
        "x/node/a/receive/tcp/json",
        "x/node/a/receive/file/json",
        "x/node/a/receive/tcp/xml",
        "x/node/a/receive",
        "x/node/a/send/udp/json",
        "x/node/a/receive//json",
        "x/node/a/receiver/ftp",
    ]
    .iter()
    .map(ToString::to_string)
    .collect();
    assert_eq!(transports("x/node/a/receive", &scopes), ["file", "tcp"]);
    assert_eq!(transports("x/node/a/send", &scopes), ["udp"]);
    assert!(transports("x/node/b/send", &scopes).is_empty());
}

#[test]
fn a_pair_handed_over_again_is_still_one_link() {
    let roster = Roster::parse("R1=receive,P1=process+send").expect("roster");
    let hops = [
        hop("P1", "process", "P1", "send", 1),
        hop("X9", "receive", "P1", "process", 5),
        hop("X9", "receive", "P1", "process", 6),
        hop("P1", "process", "P1", "send", 2),
    ];
    let links = handoff_links(Some(&roster), &hops);
    let mut pairs: Vec<_> = links.iter().map(|link| link.pair.clone()).collect();
    let drawn = pairs.len();
    pairs.sort_by(|a, b| (&a.0, &a.2).cmp(&(&b.0, &b.2)));
    pairs.dedup();
    assert_eq!(pairs.len(), drawn, "no pair is drawn twice");
    let counts: Vec<u64> = links.iter().map(|link| link.count).collect();
    assert_eq!(counts, [0, 3, 11]);
}

#[test]
fn a_link_shows_the_worst_leaf_at_either_end() {
    let link = Link {
        pair: ("alpha".to_string(), Stage::Receive, "beta".to_string(), Stage::Process),
        configured: true,
        count: 4,
    };
    let worse = HealthRecord {
        scope: "xmip:///C1/node/beta/process/json".to_string(),
        health: Health::Stressed,
        severity: 60,
        evidence: "contract not held".to_string(),
        observed_unix_nanos: 1,
    };
    let (origin, state, evidence) = link_evidence(&link, Some(&worse));
    assert_eq!((origin, state), (Origin::Both, Health::Stressed));
    assert_eq!(evidence, "4 handoffs alpha to beta; worst leaf at either end: contract not held");
    let (_, quiet, said) = link_evidence(&link, None);
    assert_eq!(quiet, Health::Working);
    assert!(said.ends_with("; worst leaf at either end: nothing published yet"));
    assert_eq!(mood(None), (Health::Working, "nothing published yet".to_string()));
}
