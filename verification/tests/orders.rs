use xmip_test_playground::orders::Orders;
use xmip_test_playground::stress::Stress;

fn names(list: &[&str]) -> Vec<String> {
    list.iter().map(ToString::to_string).collect()
}

#[test]
fn the_online_nodes_are_the_ones_named_and_nobody_else() {
    let orders = Orders::of(Stress::Calm, &names(&["R1", "P1", "S1"]), 0)
        .with_online(Some(names(&["r1"])));
    assert!(orders.is_online("R1", false), "named, whatever the case");
    assert!(!orders.is_online("P1", true));
    assert_eq!(orders.switches("R1", false).word(), "online");
    assert_eq!(orders.switches("S1", true).word(), "offline");
    assert_eq!(orders.refusal(), None);
}

#[test]
fn numbered_orders_name_the_level_s_own_nodes() {
    let orders = Orders::numbered(Stress::Realistic, 3, 5);
    assert_eq!(orders.names, ["node-01", "node-02", "node-03"]);
    assert_eq!(orders.rounds, 5);
    assert!(orders.scenarios.is_empty());
    assert_eq!(orders.refusal(), None, "no role nodes, nothing to refuse");
}

#[test]
fn no_node_a_stranger_online_and_a_missing_role_are_each_refused() {
    let none = Orders::of(Stress::Calm, &[], 0)
        .refusal()
        .expect("no nodes");
    assert!(
        none.starts_with("REFUSED") && none.contains("--nodes"),
        "{none}"
    );

    let stranger = Orders::of(Stress::Calm, &names(&["R1", "P1", "S1"]), 0)
        .with_online(Some(names(&["Q9"])))
        .refusal()
        .expect("Q9 is no node");
    assert!(
        stranger.contains("Q9") && stranger.contains("R1, P1, S1"),
        "{stranger}"
    );

    let missing = Orders::of(Stress::Calm, &names(&["R1", "S1"]), 0)
        .refusal()
        .expect("no P");
    assert!(missing.ends_with("name no P."), "{missing}");

    // Not RoundTrip: the roster is nobody's business.
    assert_eq!(
        Orders::of(Stress::Calm, &names(&["R1", "S1"]), 0)
            .driving(&names(&["filing"]))
            .refusal(),
        None
    );
}

#[test]
fn with_no_list_a_node_is_online_as_the_environment_says() {
    let orders = Orders::of(Stress::Harsh, &names(&["R1"]), 2);
    assert!(orders.is_online("R1", true));
    assert!(!orders.is_online("R1", false));
    assert_eq!(orders.switches("R1", true).word(), "online");
}
