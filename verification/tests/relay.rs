use xmip_test_playground::handoff::CONTRACTS;
use xmip_test_playground::health::Health;
use xmip_test_playground::relay::{after_hand_on, delivery_failed, Relay, PER_ROUND};
use xmip_test_playground::role::{Role, Roster};
use xmip_test_playground::round_trip::Outcome;
use xmip_test_playground::stage::Stage;

fn roster(names: &[&str]) -> Roster {
    let names: Vec<String> = names.iter().map(|name| name.to_string()).collect();
    Roster::of(&names)
}

fn relay(name: &str, names: &[&str]) -> Relay {
    Relay::new(name, &roster(names), "/tmp/shared").expect("a role node of a whole path")
}

#[test]
fn a_relay_is_for_a_role_node_of_a_whole_path() {
    let names = ["R1", "P1", "S1"];
    let r1 = relay("R1", &names);
    assert_eq!(r1.name(), "R1");
    assert_eq!(r1.role(), Role::Receive);
    assert_eq!(r1.stage(), Stage::Receive);
    assert_eq!(r1.inbox().node(), "R1");
    assert_eq!(r1.inbox().shared(), "/tmp/shared");
    assert_eq!(r1.inbox().stage(), Stage::Receive);
    assert_eq!(r1.per_round(), PER_ROUND);
    assert_eq!(r1.workers(), 1);
    assert_eq!(r1.round(), 0);
    assert!(r1.hops().links().is_empty());
    assert_eq!(relay("P1", &names).stage(), Stage::Process);
    assert_eq!(relay("S1", &names).stage(), Stage::Send);
}

#[test]
fn a_roster_without_a_role_or_without_the_node_has_no_relay() {
    assert!(Relay::new("R1", &roster(&["R1", "S1"]), "/tmp").is_none());
    assert!(Relay::new("node-01", &roster(&["node-01"]), "/tmp").is_none());
    assert!(Relay::new("R2", &roster(&["R1", "P1", "S1"]), "/tmp").is_none());
    assert!(Relay::new("node-01", &roster(&["R1", "P1", "S1", "node-01"]), "/tmp").is_none());
}

#[test]
fn a_pair_is_handed_from_r_to_p_to_s_and_s_closes_it() {
    let names = ["R1", "P1", "S1"];
    let mut r1 = relay("R1", &names);
    let mut p1 = relay("P1", &names);
    let mut s1 = relay("S1", &names);
    let (to, stage, sequence) = r1.hand_on("tcp", "json").expect("a P node");
    assert_eq!((to.as_str(), stage, sequence), ("P1", Stage::Process, 1));
    let (to, stage, sequence) = p1.hand_on("tcp", "json").expect("an S node");
    assert_eq!((to.as_str(), stage, sequence), ("S1", Stage::Send, 1));
    assert_eq!(s1.hand_on("tcp", "json"), Err("no node to hand on to".to_string()));
    let (_, _, again) = r1.hand_on("udp", "xml").expect("a P node");
    assert_eq!(again, 2);
}

#[test]
fn every_sender_hands_a_pair_to_the_same_node() {
    let names = ["R1", "R2", "P1", "P2", "P3", "S1"];
    let mut r1 = relay("R1", &names);
    let mut r2 = relay("R2", &names);
    for contract in CONTRACTS {
        let (one, _, _) = r1.hand_on("file", contract).expect("a P node");
        let (two, _, _) = r2.hand_on("file", contract).expect("a P node");
        assert_eq!(one, two);
        assert!(one.starts_with('P'));
    }
}

#[test]
fn two_receivers_share_the_matrix_between_them() {
    let names = ["R1", "R2", "P1", "S1"];
    let pairs = 2 * CONTRACTS.len();
    let one = relay("R1", &names).share(pairs);
    let two = relay("R2", &names).share(pairs);
    assert_eq!(one, vec![0, 2, 4, 6, 8, 10]);
    assert_eq!(two, vec![1, 3, 5, 7, 9, 11]);
    let mut all: Vec<usize> = one.iter().chain(two.iter()).copied().collect();
    all.sort();
    assert_eq!(all, (0..pairs).collect::<Vec<_>>());
}

#[test]
fn a_bounded_round_rotates_through_the_share() {
    let names = ["R1", "R2", "P1", "S1"];
    let mut r1 = relay("R1", &names).bounded(0, 0);
    assert_eq!((r1.per_round(), r1.workers()), (1, 1));
    r1 = r1.bounded(7, 2);
    assert_eq!((r1.per_round(), r1.workers()), (7, 2));
    assert_eq!(r1.begin_round(), 1);
    assert_eq!(r1.begin_round(), 2);
    assert_eq!(r1.cursor(), 0);
    r1.advance(4, 6);
    assert_eq!(r1.cursor(), 4);
    r1.advance(4, 6);
    assert_eq!(r1.cursor(), 2, "two rounds of four over a share of six wrap to its third pair");
    r1.advance(4, 0);
    assert_eq!(r1.cursor(), 0, "an empty share starts from the top");
    assert_eq!(r1.round(), 2);
}

#[test]
fn a_faulted_or_failed_stage_hands_nothing_on() {
    let names = ["R1", "P1", "S1"];
    let r1 = relay("R1", &names);
    let failed = Outcome::Failed("injected".to_string());
    assert_eq!(r1.judge(Some(failed.clone()), Ok(10)), (failed.clone(), 0, false));
    assert_eq!(r1.judge(None, Err(failed.clone())), (failed.clone(), 0, false));
    assert_eq!(r1.judge(None, Ok(10)), (Outcome::Delivered, 0, true));
    let p1 = relay("P1", &names);
    assert_eq!(p1.judge(None, Ok(0)), (Outcome::Delivered, 0, true));
    let s1 = relay("S1", &names);
    assert_eq!(s1.judge(None, Ok(10)), (Outcome::Delivered, 10, false));
    let one_sided = Outcome::OneSided("one direction".to_string());
    assert_eq!(s1.judge(None, Err(one_sided.clone())), (one_sided, 0, false));
}

#[test]
fn a_handoff_that_did_not_go_fails_the_verdict() {
    let said = delivery_failed("P1", "disk full");
    assert_eq!(said, "handoff to P1 failed: disk full");
    assert_eq!(after_hand_on(Outcome::Delivered, 12, Some(said.clone())), (Outcome::Failed(said), 0));
    assert_eq!(after_hand_on(Outcome::Delivered, 12, None), (Outcome::Delivered, 12));
}

#[test]
fn the_records_say_each_link_and_the_inbox() {
    let names = ["R1", "P1", "P2", "S1"];
    let mut r1 = relay("R1", &names);
    r1.delivered("P1", Stage::Process, 5);
    r1.delivered("P2", Stage::Process, 6);
    r1.delivered("P1", Stage::Process, 9);
    let node = "xmip:///playground/node/R1";
    let records = r1.handoff_records(node, 3, 11);
    assert_eq!(records.len(), 2, "an R node has no inbox record");
    assert_eq!(records[0].scope, "xmip:///playground/node/R1/handoff/P1");
    assert_eq!(records[0].evidence, "2 handoffs to P1");
    assert_eq!(records[0].health, Health::Fine);
    assert_eq!(records[1].evidence, "1 handoffs to P2");
    assert_eq!(records[1].observed_unix_nanos, 11);
    let link = &r1.hops().links()[0];
    assert_eq!((link.from.as_str(), link.from_stage.as_str()), ("R1", "receive"));
    assert_eq!((link.to_stage.as_str(), link.count, link.last_unix_nanos), ("process", 2, 9));

    let mut p1 = relay("P1", &names);
    let quiet = p1.handoff_records("n/P1", 4, 1);
    assert_eq!(quiet.len(), 1);
    assert_eq!(quiet[0].scope, "n/P1/handoff/inbox");
    assert_eq!(quiet[0].evidence, "4 waiting, 0 unreadable");
    assert_eq!((quiet[0].health, quiet[0].severity), (Health::Fine, 0));
    p1.claimed(2);
    let torn = p1.handoff_records("n/P1", 0, 1);
    assert_eq!(torn[0].evidence, "0 waiting, 2 unreadable");
    assert_eq!((torn[0].health, torn[0].severity), (Health::Stressed, 50));
}
