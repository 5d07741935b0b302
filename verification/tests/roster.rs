use xmip_test_playground::capability::Capability;
use xmip_test_playground::handoff::CONTRACTS;
use xmip_test_playground::roster::Roster;
use xmip_test_playground::stage::Stage;

fn roster(text: &str) -> Roster {
    Roster::parse(text).expect("a well-formed roster")
}

#[test]
fn a_node_serves_what_it_declared_and_a_name_decides_nothing() {
    let declared = roster("R1=receive,P1=process,S1=send,node-01");
    assert_eq!(declared.with(Stage::Receive), ["R1"]);
    assert_eq!(declared.with(Stage::Send), ["S1"]);
    assert!(declared.capability("node-01").declares_no_stage());
    assert_eq!(declared.names(), ["R1", "P1", "S1", "node-01"]);

    // The same three stages under names that say nothing at all.
    let anonymous = roster("alpha=receive,beta=process,gamma=send");
    assert_eq!(anonymous.with(Stage::Receive), ["alpha"]);
    assert_eq!(anonymous.with(Stage::Process), ["beta"]);
    assert_eq!(anonymous.with(Stage::Send), ["gamma"]);
    assert_eq!(anonymous.refusal(), None);

    // And a name that looks like a role decides nothing on its own.
    let misleading = roster("R1=send,P1,S1=receive+process");
    assert_eq!(misleading.with(Stage::Receive), ["S1"]);
    assert_eq!(misleading.with(Stage::Process), ["S1"]);
    assert_eq!(misleading.with(Stage::Send), ["R1"]);
    assert!(misleading.capability("P1").declares_no_stage());
    assert_eq!(misleading.refusal(), None);
}

#[test]
fn a_missing_capability_is_refused_by_capability_and_no_stage_is_no_refusal() {
    assert_eq!(Roster::of(&["node-01".to_string()]).refusal(), None);
    assert_eq!(roster("R1=receive,P1=process,S1=send,x").refusal(), None);
    let refusal = roster("R1=receive,R2=receive,S1=send")
        .refusal()
        .expect("nobody processes");
    assert!(refusal.starts_with("REFUSED"), "{refusal}");
    assert!(refusal.ends_with("no node declares process."), "{refusal}");
    let refusal = roster("R1=receive").refusal().expect("two missing");
    assert!(refusal.ends_with("declares process or send."), "{refusal}");
}

#[test]
fn a_roster_is_written_read_back_and_a_node_has_the_last_word_on_itself() {
    let text = "R1=receive,P1=process+send,node-01";
    assert_eq!(roster(text).text(), text);
    assert_eq!(Roster::of(&["a".to_string(), "b".into()]).text(), "a,b");

    let names = ["alpha".to_string(), "beta".into()];
    let declaring = Roster::declaring(&names, "alpha=receive").expect("alpha is a node");
    assert_eq!(declaring.with(Stage::Receive), ["alpha"]);
    assert!(declaring.capability("beta").declares_no_stage());
    let stranger = Roster::declaring(&names, "gamma=send").expect_err("gamma is no node");
    assert!(
        stranger.contains("gamma") && stranger.contains("alpha, beta"),
        "{stranger}"
    );
    assert!(Roster::parse("alpha=relay").is_err());

    let own = roster("alpha,beta=send")
        .declared("alpha", Capability::parse("receive").expect("receive"));
    assert_eq!(own.with(Stage::Receive), ["alpha"]);
    assert_eq!(own.names(), ["alpha", "beta"], "no node is added twice");
    assert!(Roster::default().is_empty());
}

#[test]
fn every_pair_has_one_receiver_and_one_stable_target_per_stage() {
    let roster = roster("R1=receive,R2=receive,P1=process,P2=process,S1=send,S2=send,n1");
    for index in 0..40 {
        let takers = ["R1", "R2", "P1", "n1"]
            .into_iter()
            .filter(|name| roster.receives(name, index))
            .count();
        assert_eq!(takers, 1, "pair {index} has exactly one receiver");
    }
    let mut seen = std::collections::BTreeSet::new();
    for contract in CONTRACTS {
        let first = roster.target(Stage::Process, "tcp", contract);
        assert_eq!(first, roster.target(Stage::Process, "tcp", contract));
        assert!(first.is_some_and(|name| roster.capability(name).can(Stage::Process)));
        seen.extend(first);
    }
    assert_eq!(seen.len(), 2, "the pairs spread over both process nodes");
    let crossed = CONTRACTS.into_iter().any(|contract| {
        let process = roster.target(Stage::Process, "tcp", contract);
        let send = roster.target(Stage::Send, "tcp", contract);
        process == Some("P1") && send == Some("S2")
    });
    let straight = CONTRACTS.into_iter().any(|contract| {
        let process = roster.target(Stage::Process, "tcp", contract);
        let send = roster.target(Stage::Send, "tcp", contract);
        process == Some("P1") && send == Some("S1")
    });
    assert!(
        crossed && straight,
        "a pair's process node does not decide its send node"
    );
    assert_eq!(Roster::default().target(Stage::Send, "tcp", "json"), None);
}

#[test]
fn a_capability_is_found_by_name_whatever_the_case() {
    let roster = roster("alpha=receive,beta");
    assert!(roster.capability("ALPHA").can(Stage::Receive));
    assert!(roster.capability("gamma").declares_no_stage());
    assert!(roster.capability("Beta").declares_no_stage());
}
