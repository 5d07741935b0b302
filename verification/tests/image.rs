use xmip_test_playground::image::{named, node_named, of, of_node, refusal};

#[test]
fn a_name_says_the_suite_the_cluster_and_which_of_the_tree_it_is() {
    assert_eq!(named("W1", "roll"), "xmip-playground-W1-roll");
    assert_eq!(named("W1", "cluster"), "xmip-playground-W1-cluster");
    assert_eq!(node_named("W1", "alpha"), "xmip-playground-W1-node-alpha");
    // Every one still answers the owner's one line, Get-Process xmip-*.
    for name in [named("W1", "roll"), node_named("W1", "alpha")] {
        assert!(name.starts_with("xmip-"), "{name}");
    }
}

#[test]
fn a_node_called_roll_or_cluster_is_a_node_and_collides_with_nothing() {
    assert_eq!(refusal("roll"), None);
    assert_eq!(refusal("cluster"), None);
    assert_eq!(node_named("U1", "roll"), "xmip-playground-U1-node-roll");
    assert_ne!(node_named("U1", "roll"), named("U1", "roll"));
    assert_ne!(node_named("U1", "cluster"), named("U1", "cluster"));
}

#[test]
fn a_node_named_what_no_file_can_be_called_is_refused_before_anything_spawns() {
    assert_eq!(refusal("alpha"), None);
    assert_eq!(refusal("node-01"), None);
    for wrong in ["", "9lives", "a/b", "a b", "a.b", "a:b"] {
        let refusal = refusal(wrong).unwrap_or_else(|| panic!("{wrong}"));
        assert!(refusal.starts_with("REFUSED"), "{refusal}");
        assert!(refusal.contains("file name"), "{refusal}");
    }
}

#[test]
fn no_image_directory_is_the_binary_itself() {
    let base = "target/debug/xmip-playground-node";
    assert_eq!(of_node(base, None, "W1", "alpha", ""), base);
}

#[test]
fn an_image_directory_holds_one_image_per_instance() {
    let base = "target/debug/xmip-playground-node";
    assert_eq!(
        of_node(base, Some("images"), "W1", "alpha", ".exe"),
        "images/xmip-playground-W1-node-alpha.exe"
    );
    assert_eq!(
        of(base, Some("images/"), "W1", "cluster", ""),
        "images/xmip-playground-W1-cluster"
    );
}
