use xmip_test_playground::ledger::{detail, item_kind, ItemKind, Throughput};
use xmip_test_playground::ledger::{item, waiting, Counted};
use xmip_test_playground::round_trip::Outcome;
use xmip_test_playground::stage::Stage;

#[test]
fn only_a_delivered_transport_verdict_counts_and_send_moves_its_bytes() {
    let mut counted = Throughput::new();
    counted.count(Stage::Receive, true, &Outcome::Delivered, 10);
    counted.count(Stage::Receive, false, &Outcome::Delivered, 10);
    counted.count(Stage::Process, true, &Outcome::Delivered, 10);
    counted.count(Stage::Send, true, &Outcome::Delivered, 10);
    counted.count(Stage::Send, true, &Outcome::Failed("lost".to_string()), 10);
    assert_eq!(
        counted,
        Throughput { streams: 1, journeys: 1, messages: 1, moved_bytes: 10 }
    );
}

#[test]
fn an_item_is_a_stream_a_journey_or_a_message_and_says_what_became_of_it() {
    assert_eq!(item_kind(Stage::Receive), ItemKind::Stream);
    assert_eq!(item_kind(Stage::Process), ItemKind::Journey);
    assert_eq!(item_kind(Stage::Send), ItemKind::Message);
    assert_eq!(detail(&Outcome::Delivered), "delivered");
    assert_eq!(detail(&Outcome::OneSided("send only".to_string())), "send only");
    assert_eq!(detail(&Outcome::Failed("timed out".to_string())), "timed out");
}

#[test]
fn a_round_closes_with_the_four_running_totals() {
    let mut throughput = Throughput::new();
    throughput.count(Stage::Receive, true, &Outcome::Delivered, 10);
    throughput.count(Stage::Send, true, &Outcome::Delivered, 42);
    let counts = throughput.counts("xmip:///C1/node/S1", 9);
    let said: Vec<(Counted, u64)> = counts.iter().map(|count| (count.counted, count.value)).collect();
    assert_eq!(
        said,
        [(Counted::Streams, 1), (Counted::Journeys, 0), (Counted::Messages, 1), (Counted::Bytes, 42)]
    );
    assert!(counts.iter().all(|count| count.scope == "xmip:///C1/node/S1"
        && count.window_start_unix_nanos == 9
        && count.window_end_unix_nanos == 9
        && count.observed_unix_nanos == 9));
}

#[test]
fn an_item_is_numbered_in_eight_digits_and_says_what_became_of_it() {
    let listed = item(42, Stage::Process, "xmip:///C1/round-trip/process/tcp/json", 0, &Outcome::Delivered, 5);
    assert_eq!(listed.kind, ItemKind::Journey);
    assert_eq!(listed.id, "00000042");
    assert_eq!(listed.detail, "delivered");
    let failed = item(123456789, Stage::Send, "s", 7, &Outcome::Failed("late".to_string()), 5);
    assert_eq!(failed.id, "123456789");
    assert_eq!((failed.kind, failed.bytes, failed.detail.as_str()), (ItemKind::Message, 7, "late"));
}

#[test]
fn a_pair_that_waited_keeps_its_standing() {
    let tallied: Vec<String> = ["a/tcp/json", "a/tcp/xml", "a/udp/json"].iter().map(ToString::to_string).collect();
    let published: Vec<String> = ["a/tcp/xml", "a/other"].iter().map(ToString::to_string).collect();
    assert_eq!(waiting(&tallied, &published), ["a/tcp/json", "a/udp/json"]);
    assert!(waiting(&tallied, &tallied).is_empty());
}
