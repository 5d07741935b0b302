use xmip_test_playground::health::Health;
use xmip_test_playground::member::{
    process_record, rollup, Exit, Leaf, Rolled, SILENT_ROUNDS,
};

fn exit(success: bool, status: &str) -> Exit {
    Exit { success, status: status.to_string() }
}

#[test]
fn a_node_s_process_is_alive_exited_starting_or_restarted() {
    let alive = process_record("xmip:///C1", "node-01", None, 0, true);
    assert_eq!(alive.scope, "xmip:///C1/node/node-01/system-process");
    assert_eq!((alive.health, alive.severity, alive.evidence.as_str()), (Health::Fine, 0, "alive"));

    let starting = process_record("xmip:///C1", "node-01", None, 0, false);
    assert_eq!(
        (starting.health, starting.severity, starting.evidence.as_str()),
        (Health::Working, 20, "starting, no snapshot yet")
    );

    let hung = process_record("xmip:///C1", "node-01", None, 2, true);
    assert_eq!(
        (hung.health, hung.severity, hung.evidence.as_str()),
        (Health::Stressed, 60, "alive; restarted 2 time(s) after 3 silent rounds (hung)")
    );

    let failed = process_record("xmip:///C1", "node-01", Some(&exit(false, "exit status: 1")), 0, true);
    assert_eq!(
        (failed.health, failed.severity, failed.evidence.as_str()),
        (Health::Done, 90, "exited with exit status: 1")
    );

    let done = process_record("xmip:///C1", "node-01", Some(&exit(true, "exit status: 0")), 0, true);
    assert_eq!((done.health, done.evidence.as_str()), (Health::Fine, "exited 0 after its rounds"));

    let after = process_record("xmip:///C1", "node-01", Some(&exit(true, "exit status: 0")), 1, false);
    assert_eq!(
        (after.health, after.evidence.as_str()),
        (Health::Stressed, "exited 0; restarted 1 time(s) after 3 silent rounds (hung)")
    );
    assert_eq!(SILENT_ROUNDS, 3);
}

#[test]
fn the_rollup_names_the_worst_leaf_one_point_below_it() {
    let leaves = [
        Leaf {
            scope: "xmip:///C1/node/node-02/leaf".to_string(),
            fine: false,
            severity: 60,
            evidence: "stressed".to_string(),
        },
        Leaf {
            scope: "xmip:///C1/node/node-01/leaf".to_string(),
            fine: true,
            severity: 0,
            evidence: "fine".to_string(),
        },
    ];
    let rolled = rollup("xmip:///C1", &leaves, 2);
    assert_eq!(rolled.scope, "xmip:///C1/node");
    assert_eq!((rolled.rolled, rolled.severity), (Rolled::Worst, 59));
    assert_eq!(rolled.evidence, "2 nodes, 1 of 2 leaves fine; worst node-02/leaf: stressed");

    let fine = rollup("xmip:///C1", &leaves[1..], 2);
    assert_eq!((fine.rolled, fine.severity), (Rolled::Fine, 0));
    assert_eq!(fine.evidence, "2 nodes, all 1 leaves fine");

    let nothing = rollup("xmip:///C1", &[], 3);
    assert_eq!((nothing.rolled, nothing.severity), (Rolled::Working, 20));
    assert_eq!(nothing.evidence, "3 nodes, nothing published yet");
}
