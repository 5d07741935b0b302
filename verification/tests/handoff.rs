use xmip_test_playground::handoff::{Handoff, Hops, Inbox, CONTRACTS, MAGIC, READY};
use xmip_test_playground::stage::Stage;

fn handoff(round: u64, bytes: &[u8]) -> Handoff {
    Handoff {
        transport: "tcp".to_string(),
        contract: "fixed-width".to_string(),
        round,
        from: "R1".to_string(),
        bytes: bytes.to_vec(),
    }
}

#[test]
fn hops_count_per_link_with_the_stages_at_each_end_and_the_last_time() {
    let mut hops = Hops::new();
    hops.record(("R1", Stage::Receive), ("P1", Stage::Process), 5);
    hops.record(("R1", Stage::Receive), ("P2", Stage::Process), 6);
    hops.record(("R1", Stage::Receive), ("P1", Stage::Process), 9);
    let links: Vec<_> = hops.links().to_vec();
    assert_eq!(links.len(), 2);
    assert_eq!(
        (
            links[0].to.as_str(),
            links[0].count,
            links[0].last_unix_nanos
        ),
        ("P1", 2, 9)
    );
    assert_eq!(
        (links[0].from_stage.as_str(), links[0].to_stage.as_str()),
        ("receive", "process"),
        "the link says which stages it runs between"
    );
    assert_eq!((links[1].to.as_str(), links[1].count), ("P2", 1));
}

#[test]
fn a_handoff_reads_back_whole_whatever_its_bytes() {
    let binary = [0x00, b'\n', 0xff, b' ', b'\n'];
    for one in [handoff(1, &binary), handoff(2, b"second"), handoff(3, b"")] {
        let encoded = one.encode();
        assert_eq!(Handoff::decode(&encoded), Some(one.clone()));
    }
    let encoded = handoff(7, b"abc").encode();
    assert_eq!(
        &encoded[..],
        format!("{MAGIC} tcp fixed-width 7 R1 3\nabc").as_bytes()
    );
}

#[test]
fn what_is_not_a_handoff_reads_as_nothing() {
    assert_eq!(Handoff::decode(b"not a handoff"), None);
    assert_eq!(Handoff::decode(b"xmip-handoff-1 tcp json 1 R1 4\nabc"), None);
    assert_eq!(Handoff::decode(b"xmip-handoff-1 tcp yaml 1 R1 3\nabc"), None);
    assert_eq!(Handoff::decode(b"xmip-handoff-2 tcp json 1 R1 3\nabc"), None);
    assert_eq!(Handoff::decode(b"xmip-handoff-1 tcp json x R1 3\nabc"), None);
    assert_eq!(
        Handoff::decode(b"xmip-handoff-1 tcp json 1 R1 3\nabc").map(|one| one.bytes),
        Some(b"abc".to_vec())
    );
    assert_eq!(CONTRACTS.len(), 6);
}

#[test]
fn a_delivered_file_is_named_to_sort_oldest_round_first() {
    assert_eq!(
        Inbox::file_name(&handoff(2, b"x"), 17),
        "0000000002-R1-0000000017-tcp-fixed-width"
    );
    let names: Vec<String> = [
        "0000000003-R1-0000000001-tcp-json.handoff",
        "0000000001-R1-0000000002-tcp-json.handoff",
        "0000000002-R1-x.writing",
        "0000000002-R1-0000000003-tcp-json.handoff",
        ".handoff",
        "0000000004-R1-0000000009-tcp-json.claimed-12",
    ]
    .iter()
    .map(ToString::to_string)
    .collect();
    assert_eq!(
        Inbox::oldest(&names, 2),
        [
            "0000000001-R1-0000000002-tcp-json.handoff",
            "0000000002-R1-0000000003-tcp-json.handoff"
        ]
    );
    assert_eq!(Inbox::oldest(&names, 8).len(), 3);
    assert!(Inbox::oldest(&names, 0).is_empty());
    assert_eq!(READY, "handoff");
}

#[test]
fn one_node_s_two_stages_have_two_inboxes() {
    let process = Inbox::of("shared", "P1", Stage::Process);
    let send = Inbox::of("shared", "P1", Stage::Send);
    assert_eq!((process.shared(), process.node()), ("shared", "P1"));
    assert_ne!(process.stage(), send.stage());
}

#[test]
fn round_nine_is_claimed_before_round_ten_whoever_sent_them() {
    let mut late = handoff(10, b"x");
    late.from = "A1".to_string();
    let early = handoff(9, b"y");
    let names = vec![
        format!("{}.{READY}", Inbox::file_name(&late, 1)),
        format!("{}.{READY}", Inbox::file_name(&early, 99)),
    ];
    assert_eq!(Inbox::oldest(&names, 1), [names[1].clone()]);
}
