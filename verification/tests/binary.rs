use xmip_test_playground::binary::{cluster_binary, node_binary, Surroundings};

#[test]
fn a_binary_named_outright_is_taken_before_any_found_beside() {
    let around = Surroundings {
        named: Some("/opt/node".to_string()),
        beside: Some("target/debug/xmip-playground-node".to_string()),
        above: None,
    };
    assert_eq!(node_binary(&around), Ok("/opt/node".to_string()));
    let around = Surroundings {
        named: None,
        beside: None,
        above: Some("target/xmip-playground-cluster".to_string()),
    };
    assert_eq!(
        cluster_binary(&around),
        Ok("target/xmip-playground-cluster".to_string())
    );
}

#[test]
fn no_binary_anywhere_says_how_to_get_one() {
    let nowhere = Surroundings { named: None, beside: None, above: None };
    assert_eq!(
        node_binary(&nowhere),
        Err("no xmip-playground-node beside the playground; build it, or set XMIP_PLAYGROUND_NODE".to_string())
    );
    assert_eq!(
        cluster_binary(&nowhere),
        Err("no xmip-playground-cluster beside the playground; build it, or set XMIP_PLAYGROUND_CLUSTER_BINARY".to_string())
    );
}
