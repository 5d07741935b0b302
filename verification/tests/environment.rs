use xmip_test_playground::environment::{
    load_bytes, publish_paths, roster_from, told_of, Place, Told, MEGABYTE,
};
use xmip_test_playground::stage::Stage;
use xmip_test_playground::stress::Stress;

#[test]
fn names_are_told_before_a_count_and_an_unreadable_count_is_nothing_said() {
    assert_eq!(
        told_of(Some("a, b,,"), Some("5")),
        Some(Told::Named(vec!["a".to_string(), "b".to_string()]))
    );
    assert_eq!(told_of(None, Some(" 5 ")), Some(Told::Count(5)));
    assert_eq!(told_of(None, Some("0")), Some(Told::Count(0)));
    assert_eq!(told_of(None, Some("")), None);
    assert_eq!(told_of(None, Some("many")), None);
    assert_eq!(told_of(None, None), None);
}

#[test]
fn told_nothing_a_roll_spawns_the_level_s_complement_online_as_said() {
    let roster = roster_from(Stress::Realistic, None, "", None, false).expect("a complement");
    assert_eq!(roster.text(), "node-01=receive,node-02=process,node-03=send");
    assert!(!roster.capability("node-01").is_online());
    let online = vec!["node-02".to_string()];
    let roster = roster_from(Stress::Realistic, None, "", Some(&online), false).expect("a complement");
    assert!(roster.capability("node-02").is_online());
    assert!(!roster.capability("node-03").is_online());
}

#[test]
fn named_nodes_declare_what_they_were_given_and_a_stranger_is_refused() {
    let told = Some(Told::Named(vec!["R1".to_string(), "P1".to_string()]));
    let roster = roster_from(Stress::Calm, told.clone(), "R1=receive", None, true).expect("named");
    assert_eq!(roster.with(Stage::Receive), ["R1"]);
    assert!(roster.capability("P1").declares_no_stage());
    assert!(roster.capability("P1").is_online());
    let refused = roster_from(Stress::Calm, told, "Q9=send", None, false).expect_err("Q9 is no node");
    assert!(refused.starts_with("REFUSED") && refused.contains("Q9"), "{refused}");
}

#[test]
fn a_count_is_dealt_and_a_count_with_capabilities_declares_them() {
    let dealt = roster_from(Stress::Brutal, Some(Told::Count(4)), "", None, false).expect("dealt");
    assert_eq!(dealt.names().len(), 4);
    assert_eq!(dealt.with(Stage::Receive), ["node-01", "node-04"]);
    let declared = roster_from(Stress::Brutal, Some(Told::Count(2)), "node-02=send", None, false)
        .expect("declared");
    assert_eq!(declared.with(Stage::Send), ["node-02"]);
    assert!(roster_from(Stress::Brutal, Some(Told::Count(0)), "", None, false)
        .expect("none")
        .is_empty());
}

#[test]
fn the_load_is_a_number_or_a_human_size_and_a_megabyte_otherwise() {
    assert_eq!(MEGABYTE, 1024 * 1024);
    assert_eq!(load_bytes(None), MEGABYTE);
    assert_eq!(load_bytes(Some("4096")), 4096);
    assert_eq!(load_bytes(Some(" 512mb ")), 512 * 1024 * 1024);
    assert_eq!(load_bytes(Some("2K")), 2048);
    assert_eq!(load_bytes(Some("3 kb")), 3 * 1024);
    assert_eq!(load_bytes(Some("7bytes")), 7);
    assert_eq!(load_bytes(Some("lots")), MEGABYTE);
    assert_eq!(load_bytes(Some("")), MEGABYTE);
    assert_eq!(load_bytes(Some("99999999999999999999gb")), MEGABYTE);
    assert_eq!(load_bytes(Some("18446744073709551615gb")), usize::MAX);
}

#[test]
fn the_files_a_roll_publishes_are_named_for_its_cluster() {
    let (snapshot, history, activity) = publish_paths("W1", None, None, None);
    assert_eq!(snapshot, Place::InTemp("W1-snapshot.toml".to_string()));
    assert_eq!(history, Place::InTemp("W1-history.toml".to_string()));
    assert_eq!(activity, Place::InTemp("W1-activity.toml".to_string()));
}

#[test]
fn a_variable_that_names_a_file_has_the_last_word() {
    let (snapshot, history, activity) =
        publish_paths("W1", Some("/var/run/x.toml"), None, Some(""));
    assert_eq!(snapshot, Place::Named("/var/run/x.toml".to_string()));
    assert_eq!(history, Place::InTemp("W1-history.toml".to_string()));
    assert_eq!(activity, Place::Named(String::new()), "set and empty is still set");
}
