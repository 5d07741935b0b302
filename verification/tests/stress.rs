use xmip_test_playground::stress::Stress;

#[test]
fn a_level_is_read_whatever_its_case_and_named_back() {
    for (word, stress) in [
        ("calm", Stress::Calm),
        (" Realistic ", Stress::Realistic),
        ("HARSH", Stress::Harsh),
        ("brutal", Stress::Brutal),
    ] {
        assert_eq!(Stress::parse(word), Some(stress), "{word}");
        assert_eq!(Stress::parse(stress.name()), Some(stress));
    }
    assert_eq!(Stress::parse("gentle"), None);
    assert_eq!(Stress::NAMES.join(", "), "calm, realistic, harsh, brutal");
}

#[test]
fn a_level_brings_its_nodes_and_their_pace() {
    assert_eq!(
        [Stress::Calm, Stress::Realistic, Stress::Harsh, Stress::Brutal].map(Stress::nodes),
        [1, 3, 10, 40]
    );
    assert_eq!(Stress::Calm.node_interval_ms(), 250);
    assert_eq!(Stress::Realistic.node_interval_ms(), 250);
    assert_eq!(Stress::Harsh.node_interval_ms(), 1000);
    assert_eq!(Stress::Brutal.node_interval_ms(), 2000);
}
