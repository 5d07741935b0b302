use xmip_test_playground::capability::{flags, Capability};
use xmip_test_playground::stage::Stage;

#[test]
fn the_flags_say_both_capabilities() {
    let capability = Capability::of(&[Stage::Process]).with_online(true);
    assert_eq!(flags(&capability), ["--can", "process", "--online", "true"]);
    assert_eq!(
        flags(&Capability::none()),
        ["--can", "", "--online", "false"]
    );
    assert_eq!(
        Capability::parse(&flags(&capability)[1]).map(|read| read.with_online(true)),
        Ok(capability),
        "the node reads its --can back by the one parse"
    );
}

#[test]
fn every_declaration_reads_back_by_the_one_parse() {
    for stages in [
        vec![],
        vec![Stage::Receive],
        vec![Stage::Send],
        vec![Stage::Receive, Stage::Process],
        vec![Stage::Process, Stage::Send],
        vec![Stage::Receive, Stage::Process, Stage::Send],
    ] {
        let capability = Capability::of(&stages);
        assert_eq!(Capability::parse(&capability.words()), Ok(capability));
        assert_eq!(
            Capability::parse(&capability.words().replace(',', "+")),
            Ok(capability)
        );
    }
}

#[test]
fn a_capability_is_said_in_lowercase_exactly() {
    let refused = Capability::parse("Send").expect_err("Send is no capability");
    assert_eq!(
        refused,
        "REFUSED: no capability is called Send; the capabilities are receive, process, send"
    );
    let both = Capability::parse(" receive + send ").expect("two stages");
    assert!(both.can(Stage::Receive) && both.can(Stage::Send) && !both.can(Stage::Process));
    assert!(!both.is_online());
    assert!(Capability::parse("").expect("nothing").declares_no_stage());
}

#[test]
fn an_entry_says_the_name_and_its_stages_joined_by_plus() {
    let capability = Capability::of(&[Stage::Send, Stage::Receive]);
    assert_eq!(capability.entry("R1"), "R1=receive+send");
    assert_eq!(Capability::none().entry("n1"), "n1");
    assert_eq!(capability.words(), "receive,send");
    assert_eq!(Capability::none().word(), "offline");
    assert_eq!(capability.with_online(true).word(), "online");
    let (name, read) = Capability::from_entry(" P1 =process");
    assert_eq!(name, "P1");
    assert_eq!(read, Ok(Capability::of(&[Stage::Process])));
}
