use xmip_test_playground::complement::{covers_the_path, describe, full, of_count};
use xmip_test_playground::stage::Stage;
use xmip_test_playground::stress::Stress;

#[test]
fn the_deal_covers_the_path_and_spreads_evenly() {
    let three = of_count(3);
    assert_eq!(three.text(), "node-01=receive,node-02=process,node-03=send");
    assert!(covers_the_path(&three));
    assert_eq!(three.refusal(), None);

    let twenty = of_count(20);
    assert_eq!(twenty.names().len(), 20);
    assert_eq!(twenty.with(Stage::Receive).len(), 7);
    assert_eq!(twenty.with(Stage::Process).len(), 7);
    assert_eq!(twenty.with(Stage::Send).len(), 6);
    assert_eq!(describe(&twenty), "20 nodes, 7 receive, 7 process, 6 send");
}

#[test]
fn too_few_for_the_path_declare_nothing_rather_than_refuse_themselves() {
    for count in [1, 2] {
        let small = of_count(count);
        assert_eq!(small.names().len(), count);
        assert!(!small.serves_any_stage(), "{count} cannot cover the path");
        assert!(!covers_the_path(&small));
        // The point of declaring nothing: the roster refuses nobody.
        assert_eq!(small.refusal(), None);
    }
    let one = describe(&of_count(1));
    assert_eq!(one, "1 node, none declaring a stage: whole tests in each");
    assert_eq!(describe(&of_count(0)), "no nodes");
    assert!(of_count(0).is_empty());
}

#[test]
fn every_level_brings_its_own_count_and_brutal_brings_the_most() {
    for stress in [
        Stress::Calm,
        Stress::Realistic,
        Stress::Harsh,
        Stress::Brutal,
    ] {
        assert_eq!(full(stress).names().len(), stress.nodes());
    }
    assert!(Stress::Brutal.nodes() >= Stress::Calm.nodes());
    assert_eq!(full(Stress::Realistic).text(), of_count(3).text());
}

#[test]
fn the_deal_runs_round_in_path_order_past_the_third_node() {
    let seven = of_count(7);
    assert_eq!(
        seven.text(),
        "node-01=receive,node-02=process,node-03=send,node-04=receive,node-05=process,node-06=send,node-07=receive"
    );
    assert_eq!(of_count(12).names()[11], "node-12");
    assert_eq!(describe(&of_count(4)), "4 nodes, 2 receive, 1 process, 1 send");
}
