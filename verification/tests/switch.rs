use xmip_test_playground::switch::{
    names, node_is_online, node_online, offline_note, parse, Switches,
};

#[test]
fn the_switch_is_off_unless_said_and_reads_the_usual_words() {
    assert_eq!(parse("TRUE"), Some(true));
    assert_eq!(parse("off"), Some(false));
    assert_eq!(parse("maybe"), None);
}

#[test]
fn a_list_names_the_online_nodes_and_no_list_defers_to_all() {
    let online = names(" R1, p1 ,, ");
    assert_eq!(online, ["R1", "p1"]);
    assert!(node_online("R1", Some(&online), false));
    assert!(node_online("p1", Some(&online), false));
    assert!(!node_online("S1", Some(&online), true));
    assert!(!node_online("R1", Some(&[]), true));
    assert!(node_online("S1", None, true));
    assert!(!node_online("S1", None, false));
}

#[test]
fn every_word_of_the_switch_reads() {
    for word in ["true", " Yes ", "on", "1"] {
        assert_eq!(parse(word), Some(true), "{word}");
    }
    for word in ["false", "NO", "off ", "0"] {
        assert_eq!(parse(word), Some(false), "{word}");
    }
    assert_eq!(parse(""), None);
    assert_eq!(Switches { online: true }.word(), "online");
    assert_eq!(Switches { online: false }.word(), "offline");
}

#[test]
fn a_node_is_online_as_the_variables_say() {
    assert!(!node_is_online("R1", None, None), "false unless said");
    assert!(node_is_online("R1", None, Some(" Yes ")));
    assert!(!node_is_online("R1", None, Some("maybe")));
    assert!(node_is_online("r1", Some("R1, S1"), None), "a list names them, whatever the case");
    assert!(!node_is_online("P1", Some("R1, S1"), Some("true")), "a list has the last word");
    assert!(!node_is_online("P1", Some(""), Some("true")), "set and empty is none of them");
}

#[test]
fn a_test_skipped_offline_says_so() {
    assert_eq!(
        offline_note("the registry probe"),
        "skipped offline: the registry probe needs the internet; set XMIP_ONLINE=true to run it"
    );
}
