use xmip_test_playground::capability::Capability;
use xmip_test_playground::roster::Roster;
use xmip_test_playground::run::{started, test_name};
use xmip_test_playground::stress::Stress;

#[test]
fn a_run_names_its_tests_and_what_each_node_was_started_with() {
    let roster = Roster::parse("R1=receive,P1=process+send,n1")
        .expect("a well-formed roster")
        .declared(
            "R1",
            Capability::parse("receive")
                .expect("receive")
                .with_online(true),
        );
    let run = started("C1", &["round-trip".to_string()], &roster, Stress::Harsh);
    assert_eq!(run.tests, ["RoundTrip"]);
    assert_eq!(run.nodes, ["R1", "P1", "n1"]);
    assert_eq!(run.capabilities, ["R1=receive", "P1=process+send", "n1"]);
    assert_eq!(run.online, ["R1"]);
    assert_eq!((run.cluster.as_str(), run.stress.as_str()), ("C1", "harsh"));

    let every = started("C1", &[], &Roster::default(), Stress::Calm);
    assert_eq!(
        every.tests,
        [
            "RoundTrip",
            "LowLatency",
            "HeavyLoad",
            "Retention",
            "Filing",
            "ExclusiveClaim",
            "DailyBacklog"
        ]
    );
}

#[test]
fn a_test_name_is_the_scenario_in_capitals_without_hyphens() {
    assert_eq!(test_name("exclusive-claim"), "ExclusiveClaim");
    assert_eq!(test_name("filing"), "Filing");
    assert_eq!(test_name("a--b"), "AB");
    assert_eq!(test_name(""), "");
}
