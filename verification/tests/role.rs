use xmip_test_playground::handoff::CONTRACTS;
use xmip_test_playground::role::{Role, Roster};
use xmip_test_playground::stage::Stage;

fn roster(names: &[&str]) -> Roster {
    Roster::of(&names.iter().map(ToString::to_string).collect::<Vec<_>>())
}

#[test]
fn the_letter_is_the_role_and_other_names_have_none() {
    for (name, role) in [
        ("R1", Role::Receive),
        ("r2", Role::Receive),
        ("P1", Role::Process),
        ("Send3", Role::Send),
        ("node-01", Role::Whole),
        ("left", Role::Whole),
        ("R-1", Role::Whole),
        ("", Role::Whole),
    ] {
        assert_eq!(Role::of(name), role, "{name}");
    }
}

#[test]
fn a_missing_role_is_refused_by_name_and_no_roles_is_no_refusal() {
    assert_eq!(roster(&["node-01", "node-02"]).refusal(), None);
    assert_eq!(roster(&["R1", "P1", "S1", "node-01"]).refusal(), None);
    let refusal = roster(&["R1", "R2", "S1"]).refusal().expect("no P");
    assert!(refusal.starts_with("REFUSED"), "{refusal}");
    assert!(refusal.ends_with("name no P."), "{refusal}");
    let refusal = roster(&["R1"]).refusal().expect("no P, no S");
    assert!(refusal.ends_with("name no P and no S."), "{refusal}");
}

#[test]
fn every_pair_has_one_receiver_and_one_stable_target_per_role() {
    let roster = roster(&["R1", "R2", "P1", "P2", "S1", "S2", "node-01"]);
    for index in 0..40 {
        let takers = ["R1", "R2", "P1", "node-01"]
            .into_iter()
            .filter(|name| roster.receives(name, index))
            .count();
        assert_eq!(takers, 1, "pair {index} has exactly one receiver");
    }
    let mut seen = std::collections::BTreeSet::new();
    for contract in CONTRACTS {
        let first = roster.target(Role::Process, "tcp", contract);
        assert_eq!(first, roster.target(Role::Process, "tcp", contract));
        assert!(first.is_some_and(|name| Role::of(name) == Role::Process));
        seen.extend(first);
    }
    assert_eq!(seen.len(), 2, "the pairs spread over both P nodes");
    let crossed = CONTRACTS.into_iter().any(|contract| {
        let process = roster.target(Role::Process, "tcp", contract);
        let send = roster.target(Role::Send, "tcp", contract);
        process == Some("P1") && send == Some("S2")
    });
    let straight = CONTRACTS.into_iter().any(|contract| {
        let process = roster.target(Role::Process, "tcp", contract);
        let send = roster.target(Role::Send, "tcp", contract);
        process == Some("P1") && send == Some("S1")
    });
    assert!(
        crossed && straight,
        "a pair's P node does not decide its S node"
    );
    assert_eq!(roster.target(Role::Whole, "tcp", "json"), Some("node-01"));
    assert_eq!(Roster::default().target(Role::Send, "tcp", "json"), None);
}

#[test]
fn a_role_runs_its_stage_and_hands_on_to_the_next() {
    assert_eq!(Role::Receive.letter(), "R");
    assert_eq!(Role::Whole.letter(), "");
    assert_eq!(Role::Process.stage(), Some(Stage::Process));
    assert_eq!(Role::Whole.stage(), None);
    assert_eq!(Role::Receive.next(), Some(Role::Process));
    assert_eq!(Role::Process.next(), Some(Role::Send));
    assert_eq!(Role::Send.next(), None);
    assert!(roster(&["R1"]).has_roles());
    assert!(!roster(&["left"]).has_roles());
}
