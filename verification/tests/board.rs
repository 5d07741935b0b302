use xmip_test_playground::board::{board, board_row, pairs, summary_line, word};
use xmip_test_playground::health::{Health, HealthRecord};

fn recorded(scope: &str, health: Health) -> HealthRecord {
    HealthRecord {
        scope: scope.to_string(),
        health,
        severity: 0,
        evidence: "recorded".to_string(),
        observed_unix_nanos: 1,
    }
}

#[test]
fn a_healthy_node_keeps_its_leaves_off_the_board() {
    let leaf = "xmip:///C1/round-trip/tcp/json";
    let records = vec![
        recorded(leaf, Health::Fine),
        recorded("xmip:///C1/node/node-02/leaf", Health::Fine),
    ];

    let shown = pairs("xmip:///C1", &records);
    let scopes: Vec<&str> = shown.iter().map(|record| record.scope.as_str()).collect();

    assert!(scopes.contains(&leaf));
    assert!(
        !scopes.contains(&"xmip:///C1/node/node-02/leaf"),
        "a fine node's leaves stay off the board: {scopes:?}"
    );
}

#[test]
fn a_node_that_is_not_fine_appears_in_full() {
    let records = vec![recorded("xmip:///C1/node/node-02/leaf", Health::Stressed)];

    let shown = pairs("xmip:///C1", &records);

    assert_eq!(shown.len(), 1, "the leaf that is not fine is shown");
    assert_eq!(word(Health::Stressed), "STRESSED");
    assert_eq!(word(Health::Fine), "FINE");
}

#[test]
fn every_mood_has_its_word() {
    let words: Vec<&str> = [
        Health::Fine,
        Health::Paused,
        Health::Working,
        Health::Stressed,
        Health::Exhausted,
        Health::Holding,
        Health::Done,
    ]
    .into_iter()
    .map(word)
    .collect();
    assert_eq!(words, ["FINE", "PAUSED", "WORKING", "STRESSED", "EXHAUSTED", "HOLDING", "DONE"]);
}

#[test]
fn the_rows_come_in_the_order_of_their_scopes() {
    let records = vec![
        recorded("xmip:///C1/round-trip/udp/xml", Health::Fine),
        recorded("xmip:///C1/node", Health::Holding),
        recorded("xmip:///C1/node/R1/receive/tcp/json", Health::Done),
        recorded("xmip:///C1/filing", Health::Stressed),
        recorded("xmip:///C1/node/P1/process", Health::Fine),
    ];
    let shown = pairs("xmip:///C1", &records);
    let scopes: Vec<&str> = shown.iter().map(|record| record.scope.as_str()).collect();
    assert_eq!(
        scopes,
        [
            "xmip:///C1/filing",
            "xmip:///C1/node",
            "xmip:///C1/node/R1/receive/tcp/json",
            "xmip:///C1/round-trip/udp/xml",
        ]
    );
}

#[test]
fn a_round_in_a_log_is_one_line() {
    let quiet = vec![recorded("xmip:///C1/filing", Health::Fine)];
    assert_eq!(summary_line(7, Some(Health::Fine), &quiet), "round    7: FINE  (1 leaves)");
    assert_eq!(summary_line(12345, None, &[]), "round 12345: NONE  (0 leaves)");
    let mut troubled = quiet.clone();
    let mut bad = recorded("xmip:///C1/retention", Health::Stressed);
    bad.evidence = "late".to_string();
    troubled.push(bad);
    troubled.push(recorded("xmip:///C1/zz", Health::Done));
    assert_eq!(
        summary_line(3, Some(Health::Stressed), &troubled),
        "round    3: STRESSED  (3 leaves)  \u{2014} worst xmip:///C1/retention: late"
    );
}

#[test]
fn a_row_is_the_leaf_its_word_its_severity_and_why() {
    let mut record = recorded("xmip:///C1/round-trip/tcp/json", Health::Stressed);
    record.severity = 60;
    record.evidence = "slow".to_string();
    let line = board_row("xmip:///C1", &record);
    assert_eq!(
        line,
        format!("  {:<44} {:<7} sev {:>3}   {}", "round-trip/tcp/json", "STRESSED", 60, "slow")
    );
    let elsewhere = board_row("xmip:///C2", &record);
    assert!(elsewhere.starts_with("  xmip:///C1/round-trip/tcp/json "));
}

#[test]
fn the_board_is_a_title_the_rows_and_the_rollup() {
    let rows = vec![recorded("xmip:///C1/filing", Health::Fine)];
    let lines = board("xmip:///C1", 4, None, &rows);
    assert_eq!(lines.len(), 7);
    assert_eq!(lines[0], "Xmip Playground \u{2014} rolling every scenario   (round 4)");
    assert_eq!(lines[1], "-".repeat(86));
    assert_eq!(lines[2], board_row("xmip:///C1", &rows[0]));
    assert_eq!(lines[3], "-".repeat(86));
    assert_eq!(lines[4], "  rollup at xmip:///C1: FINE");
    assert_eq!(lines[5], "");
    assert_eq!(lines[6], "  ctrl-c to stop");
}

#[test]
fn rows_of_one_scope_keep_the_order_they_came_in() {
    let mut first = recorded("xmip:///C1/b", Health::Fine);
    first.evidence = "first".to_string();
    let mut second = recorded("xmip:///C1/b", Health::Fine);
    second.evidence = "second".to_string();
    let records = vec![first, recorded("xmip:///C1/a", Health::Fine), second];
    let shown = pairs("xmip:///C1", &records);
    let said: Vec<(&str, &str)> =
        shown.iter().map(|record| (record.scope.as_str(), record.evidence.as_str())).collect();
    assert_eq!(
        said,
        [("xmip:///C1/a", "recorded"), ("xmip:///C1/b", "first"), ("xmip:///C1/b", "second")]
    );
}
