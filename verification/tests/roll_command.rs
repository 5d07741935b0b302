use xmip_test_playground::roll_command::{relayed, the_complement};
use xmip_test_playground::roster::Roster;
use xmip_test_playground::stress::Stress;

fn names(list: &[&str]) -> Vec<String> {
    list.iter().map(ToString::to_string).collect()
}

fn roster(text: &str) -> Roster {
    Roster::parse(text).expect("a well-formed roster")
}

#[test]
fn round_trip_is_the_nodes_when_any_declares_a_stage_and_it_was_chosen() {
    let path = roster("R1=receive,P1=process,S1=send");
    assert_eq!(relayed(&[], &path), Ok(true));
    assert_eq!(relayed(&names(&["round-trip"]), &path), Ok(true));
    assert_eq!(relayed(&names(&["heavy-load"]), &path), Ok(false));
    assert_eq!(relayed(&[], &roster("node-01,node-02")), Ok(false));
    assert_eq!(relayed(&[], &Roster::default()), Ok(false));
    // A capability missing is no refusal when RoundTrip was not chosen.
    assert_eq!(
        relayed(&names(&["filing"]), &roster("R1=receive")),
        Ok(false)
    );
    let refused = relayed(&[], &roster("R1=receive")).expect_err("no node processes");
    assert!(refused.starts_with("REFUSED"), "{refused}");
}

#[test]
fn an_unknown_level_is_refused_naming_the_levels() {
    let refused = the_complement(Some("gentle")).expect_err("gentle is no level");
    assert!(
        refused.contains("gentle") && refused.contains("brutal"),
        "{refused}"
    );
    assert!(the_complement(Some("calm")).is_ok());
}

#[test]
fn a_level_s_complement_is_printed_as_nodes_takes_it_back() {
    let printed = the_complement(Some("realistic")).expect("a level");
    assert_eq!(printed, "node-01=receive,node-02=process,node-03=send");
    assert_eq!(roster(&printed).text(), printed);
    assert_eq!(the_complement(Some("calm")), Ok("node-01".to_string()));
    assert_eq!(
        the_complement(None),
        Err("REFUSED: --roster takes a stress level; '' is none. The levels are calm, realistic, harsh, brutal.".to_string())
    );
}

#[test]
fn a_run_says_its_level_its_cluster_and_its_roster_first() {
    let roster = xmip_test_playground::complement::of_count(4);
    let lines = xmip_test_playground::roll_command::announcement("Zt", Stress::Harsh, &roster);
    assert_eq!(
        lines,
        [
            "roll at harsh as cluster Zt: 4 nodes, 2 receive, 1 process, 1 send".to_string(),
            format!("  roster: {}", roster.text()),
        ]
    );
    let none = xmip_test_playground::complement::of_count(0);
    assert_eq!(
        xmip_test_playground::roll_command::announcement("Zt", Stress::Calm, &none),
        ["roll at calm as cluster Zt: no nodes"]
    );
}
