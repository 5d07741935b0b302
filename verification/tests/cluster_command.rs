use xmip_test_playground::cluster_command::{
    cluster_command_line, cluster_named, parse, ClusterArguments,
};
use xmip_test_playground::roster::Roster;
use xmip_test_playground::stress::Stress;

fn arguments(extra: &[&str]) -> Result<ClusterArguments, String> {
    let required = [
        "--name",
        "Zt",
        "--shared",
        "s",
        "--nodes",
        "R1=receive,P1=process,S1=send",
        "--stress",
        "calm",
        "--rounds",
        "0",
        "--snapshot",
        "Zt-cluster.toml",
    ];
    let all: Vec<String> = required.iter().chain(extra).map(ToString::to_string).collect();
    parse(&all)
}

#[test]
fn the_required_flags_are_read_and_the_optional_ones_have_the_nodes_defaults() {
    let bare = arguments(&[]).expect("the required flags suffice");
    assert_eq!(bare.name, "Zt");
    assert_eq!(bare.nodes.names(), ["R1", "P1", "S1"]);
    assert_eq!(bare.nodes.capability("P1").words(), "process");
    assert_eq!(bare.stress, Stress::Calm);
    assert_eq!(bare.interval_ms, 250);
    assert!(bare.online.is_none() && bare.scenarios.is_empty());

    let told = arguments(&[
        "--online",
        "R1, S1",
        "--scenarios",
        "Round-Trip",
        "--interval-ms",
        "500",
    ])
    .expect("all three are well formed");
    assert_eq!(
        told.online.as_deref(),
        Some(["R1".to_string(), "S1".into()].as_slice())
    );
    assert_eq!(told.scenarios, ["round-trip"]);
    assert_eq!(told.interval_ms, 500);
}

#[test]
fn every_malformed_argument_is_refused_with_what_would_be_right() {
    for (extra, wrong, right) in [
        (["--stress", "gentle"], "gentle", "brutal"),
        (["--name", "9lives"], "9lives", "starting with a letter"),
        (["--rounds", "many"], "many", "whole number"),
        (["--scenarios", "pingpong"], "pingpong", "exclusive-claim"),
        (["--nodes", "R1=relay"], "relay", "receive, process, send"),
        (["--wobble", "yes"], "--wobble", "the flags are"),
    ] {
        let refusal = arguments(&extra)
            .err()
            .unwrap_or_else(|| panic!("{extra:?}"));
        assert!(refusal.starts_with("REFUSED"), "{refusal}");
        assert!(refusal.contains(wrong), "{refusal}");
        assert!(refusal.contains(right), "{refusal}");
    }

    for missing in [
        "--name",
        "--shared",
        "--nodes",
        "--stress",
        "--rounds",
        "--snapshot",
    ] {
        let given: Vec<String> = ["--name", "Zt", "--shared", "s", "--nodes", "R1=receive"]
            .into_iter()
            .chain(["--stress", "calm", "--rounds", "0", "--snapshot", "z.toml"])
            .map(ToString::to_string)
            .collect();
        let without: Vec<String> = given
            .chunks(2)
            .filter(|pair| pair[0] != missing)
            .flatten()
            .cloned()
            .collect();
        let refusal = parse(&without).err().expect(missing);
        assert!(refusal.contains(missing), "{refusal}");
    }
}

#[test]
fn a_flag_without_its_value_is_refused() {
    let refusal = arguments(&["--online"]).err().expect("no value");
    assert_eq!(refusal, "--online needs a value");
}

#[test]
fn a_cluster_name_is_trimmed_and_shaped_like_a_node_s() {
    assert_eq!(cluster_named(" W1 "), Ok("W1".to_string()));
    assert_eq!(
        cluster_named("a_b"),
        Err("REFUSED: a cluster's name is letters, digits and hyphens starting with a letter: not a_b".to_string())
    );
}

#[test]
fn a_roll_starts_its_cluster_with_what_the_cluster_reads_back() {
    let roster = Roster::parse("R1=receive,P1=process,S1=send").expect("a well-formed roster");
    let online = vec!["R1".to_string()];
    let scenarios = vec!["round-trip".to_string(), "filing".to_string()];
    let args = cluster_command_line("Zt", Stress::Harsh, &roster, Some(&online), &scenarios, "s", "Zt-cluster.toml");
    assert_eq!(
        args,
        [
            "--name", "Zt", "--stress", "harsh", "--nodes", "R1=receive,P1=process,S1=send",
            "--rounds", "0", "--online", "R1", "--scenarios", "round-trip,filing", "--shared", "s",
            "--snapshot", "Zt-cluster.toml",
        ]
    );
    let read = parse(&args).expect("what a roll writes, a cluster reads");
    assert_eq!(read.name, "Zt");
    assert_eq!(read.stress, Stress::Harsh);
    assert_eq!(read.nodes.text(), roster.text());
    assert_eq!(read.online, Some(online));
    assert_eq!(read.scenarios, scenarios);
    assert_eq!(read.rounds, 0);
    assert_eq!((read.shared.as_str(), read.snapshot.as_str()), ("s", "Zt-cluster.toml"));
    assert_eq!(read.interval_ms, 250);

    let bare = cluster_command_line("Zt", Stress::Calm, &roster, None, &[], "s", "p");
    assert_eq!(bare.len(), 12, "no --online and no --scenarios when none were named");
    let read = parse(&bare).expect("the bare line reads too");
    assert!(read.online.is_none() && read.scenarios.is_empty());
}
