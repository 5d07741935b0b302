use xmip_test_playground::in_process::InProcess;

#[test]
fn a_round_here_ticks_every_chosen_scenario_but_a_relayed_round_trip() {
    let every = InProcess::new(Vec::new(), false).due();
    assert_eq!(
        every,
        [
            "round-trip",
            "low-latency",
            "heavy-load",
            "retention",
            "filing",
            "exclusive-claim",
            "daily-backlog"
        ]
    );
    let relayed = InProcess::new(Vec::new(), true).due();
    assert_eq!(relayed.len(), 6);
    assert!(!relayed.contains(&"round-trip".to_string()));
    let chosen = InProcess::new(vec!["filing".to_string(), "round-trip".to_string()], false).due();
    assert_eq!(chosen, ["round-trip", "filing"]);
    let only_relayed = InProcess::new(vec!["round-trip".to_string()], true).due();
    assert!(only_relayed.is_empty());
}
