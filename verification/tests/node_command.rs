use xmip_test_playground::capability::Capability;
use xmip_test_playground::node_command::{command_line, parse, NodeArguments};
use xmip_test_playground::roster::Roster;
use xmip_test_playground::stage::Stage;
use xmip_test_playground::stress::Stress;

fn arguments(extra: &[&str]) -> Result<NodeArguments, String> {
    let required = [
        "--name",
        "alpha",
        "--shared",
        "s",
        "--stress",
        "calm",
        "--rounds",
        "1",
        "--snapshot",
        "alpha.toml",
    ];
    let all: Vec<String> = required.iter().chain(extra).map(ToString::to_string).collect();
    parse(&all)
}

#[test]
fn the_scenarios_and_the_roster_are_read_and_absent_means_every_one() {
    let bare = arguments(&[]).expect("the required flags suffice");
    assert!(bare.scenarios.is_empty() && bare.roster.is_empty());
    assert!(
        bare.capability.declares_no_stage(),
        "a node told nothing declares nothing and runs whole tests"
    );

    let told = arguments(&[
        "--scenarios",
        "Round-Trip",
        "--nodes",
        "alpha=receive, beta=process,gamma=send",
        "--can",
        "receive",
    ])
    .expect("all three are well formed");
    assert_eq!(told.scenarios, ["round-trip"]);
    assert_eq!(told.roster.names(), ["alpha", "beta", "gamma"]);
    assert_eq!(told.capability.words(), "receive");
    assert!(
        arguments(&["--scenarios", ""])
            .expect("empty is every one")
            .scenarios
            .is_empty()
    );
}

#[test]
fn an_unknown_scenario_or_capability_is_refused_with_the_names_there_are() {
    let refusal = arguments(&["--scenarios", "round-trip,pingpong"])
        .err()
        .expect("pingpong is no scenario");
    assert!(refusal.starts_with("REFUSED"), "{refusal}");
    assert!(
        refusal.contains("pingpong") && refusal.contains("exclusive-claim"),
        "{refusal}"
    );

    for extra in [["--can", "relay"], ["--nodes", "alpha=relay"]] {
        let refusal = arguments(&extra)
            .err()
            .unwrap_or_else(|| panic!("{extra:?}"));
        assert!(refusal.starts_with("REFUSED"), "{refusal}");
        assert!(
            refusal.contains("relay") && refusal.contains("receive, process, send"),
            "{refusal}"
        );
    }
}

#[test]
fn the_online_switch_joins_what_the_node_can_do() {
    let told = arguments(&["--can", "process+send", "--online", "yes", "--interval-ms", "1000"])
        .expect("well formed");
    assert_eq!(
        told.capability,
        Capability::of(&[Stage::Process, Stage::Send]).with_online(true)
    );
    assert_eq!(told.interval_ms, 1000);
    assert_eq!((told.name.as_str(), told.stress, told.rounds), ("alpha", Stress::Calm, 1));
    assert_eq!(
        arguments(&["--online", "maybe"]).err(),
        Some("--online wants true or false, not maybe".to_string())
    );
    assert_eq!(
        arguments(&["--rounds", "x"]).err(),
        Some("--rounds wants a number, not x".to_string())
    );
    assert_eq!(arguments(&["--colour", "red"]).err(), Some("unknown flag --colour".to_string()));
    assert_eq!(
        arguments(&["--stress", "gentle"]).err(),
        Some("unknown stress gentle".to_string())
    );
    assert_eq!(
        parse(&["--name".to_string(), "a".to_string()]).err(),
        Some("--shared is required".to_string())
    );
}

#[test]
fn a_node_reads_back_the_command_line_its_cluster_starts_it_with() {
    let roster = Roster::parse("R1=receive,P1=process+send,n1").expect("roster");
    let capability = Capability::of(&[Stage::Process, Stage::Send]).with_online(true);
    let scenarios = vec!["round-trip".to_string(), "filing".to_string()];
    let args = command_line("P1", Stress::Harsh, 7, &roster, &scenarios, capability, "shared", "P1.toml");
    assert_eq!(
        args,
        [
            "--name", "P1", "--stress", "harsh", "--rounds", "7", "--interval-ms", "1000",
            "--nodes", "R1=receive,P1=process+send,n1", "--scenarios", "round-trip,filing",
            "--can", "process,send", "--online", "true", "--shared", "shared",
            "--snapshot", "P1.toml"
        ]
    );
    let read = parse(&args).expect("a node reads what its cluster says");
    assert_eq!(read.name, "P1");
    assert_eq!(read.stress, Stress::Harsh);
    assert_eq!((read.rounds, read.interval_ms), (7, 1000));
    assert_eq!(read.roster.text(), roster.text());
    assert_eq!(read.scenarios, scenarios);
    assert_eq!(read.capability, capability);
    assert_eq!((read.shared.as_str(), read.snapshot.as_str()), ("shared", "P1.toml"));
    let bare = command_line("n1", Stress::Calm, 0, &roster, &[], Capability::none(), "s", "n1.toml");
    assert!(!bare.contains(&"--scenarios".to_string()));
    assert!(parse(&bare).expect("reads").scenarios.is_empty());
}
