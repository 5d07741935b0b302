use xmip_test_playground::scenario::{
    chosen, drives, DAILY_BACKLOG, EXCLUSIVE_CLAIM, ROUND_TRIP, SCENARIOS,
};

#[test]
fn nothing_chosen_drives_every_scenario() {
    for raw in [None, Some(""), Some(" , ")] {
        assert_eq!(chosen(raw), Ok(Vec::new()));
    }
    for scenario in SCENARIOS {
        assert!(drives(&[], scenario));
    }
    for named in [ROUND_TRIP, EXCLUSIVE_CLAIM, DAILY_BACKLOG] {
        assert!(SCENARIOS.contains(&named), "{named} is a scenario");
    }
}

#[test]
fn a_list_drives_only_what_it_names() {
    let picked = chosen(Some(" Round-Trip, heavy-load ")).expect("both are scenarios");
    assert_eq!(picked, ["round-trip", "heavy-load"]);
    assert!(drives(&picked, ROUND_TRIP));
    assert!(drives(&picked, "heavy-load"));
    assert!(!drives(&picked, "low-latency"));
}

#[test]
fn an_unknown_name_is_refused_with_the_names_there_are() {
    let refusal = chosen(Some("round-trip,typo")).expect_err("typo is no scenario");
    assert!(refusal.starts_with("REFUSED"), "{refusal}");
    assert!(refusal.contains("typo"), "{refusal}");
    assert!(refusal.contains("daily-backlog"), "{refusal}");
}

#[test]
fn every_stranger_is_named_in_the_refusal() {
    assert_eq!(
        chosen(Some("ping,filing,pong")),
        Err("REFUSED: no scenario is named ping, pong; the scenarios are round-trip, low-latency, heavy-load, retention, filing, exclusive-claim, daily-backlog".to_string())
    );
}
