use xmip_core_node::{Capability, Stage};

#[test]
fn a_node_declares_stages_by_name_and_an_unknown_word_is_refused() {
    let one = Capability::parse("receive").expect("receive is a capability");
    assert_eq!(one.features(), [Stage::Receive]);
    assert!(one.can(Stage::Receive) && !one.can(Stage::Send));
    assert!(!one.declares_no_stage());

    let two = Capability::parse(" send + receive ,, ").expect("both, in path order");
    assert_eq!(two.features(), [Stage::Receive, Stage::Send]);
    assert_eq!(two.words(), "receive,send");
    let cased = Capability::parse("Send + RECEIVE").expect_err("lowercase only");
    assert!(cased.contains("called Send, RECEIVE;"), "{cased}");

    assert_eq!(Capability::parse(""), Ok(Capability::none()));
    assert!(Capability::none().declares_no_stage());
    assert_eq!(Capability::none().words(), "");

    let refusal = Capability::parse("receive,relay").expect_err("relay is no capability");
    assert!(refusal.starts_with("REFUSED"), "{refusal}");
    assert!(
        refusal.contains("relay") && refusal.contains("process"),
        "{refusal}"
    );
}

#[test]
fn the_online_capability_rides_along() {
    let capability = Capability::of(&[Stage::Process]).with_online(true);
    assert!(capability.is_online());
    assert_eq!(capability.word(), "online");
    assert_eq!(Capability::none().word(), "offline");
}

#[test]
fn what_a_node_publishes_reads_back_as_what_it_declared() {
    for capability in [
        Capability::none(),
        Capability::of(&[Stage::Receive]).with_online(true),
        Capability::of(&[Stage::Receive, Stage::Process, Stage::Send]),
    ] {
        let evidence = capability.evidence();
        assert_eq!(
            Capability::from_evidence(&evidence),
            Ok(capability),
            "{evidence}"
        );
    }
    assert!(
        Capability::of(&[Stage::Send])
            .evidence()
            .contains("not modelled in this rig"),
        "the two kinds left out are said, not silent"
    );
    assert_eq!(
        Capability::none().evidence(),
        "declares no stage of the message path; offline; authentication and runtime \
         capability are not modelled in this rig"
    );
    assert_eq!(Capability::from_evidence("alive"), Ok(Capability::none()));
}

#[test]
fn a_published_declaration_reads_by_the_same_rule_as_the_flag() {
    assert_eq!(
        Capability::from_evidence("declares receive,send; offline; x"),
        Ok(Capability::of(&[Stage::Receive, Stage::Send]))
    );
    let cased = Capability::from_evidence("declares Receive,SEND; offline; x")
        .expect_err("lowercase only");
    assert!(cased.contains("called Receive, SEND;"), "{cased}");
    let refusal = Capability::from_evidence("declares receive,relay; online; x")
        .expect_err("relay is no capability");
    assert!(
        refusal.starts_with("REFUSED") && refusal.contains("relay"),
        "{refusal}"
    );
}

#[test]
fn an_entry_names_the_node_and_what_it_was_started_with() {
    let both = Capability::of(&[Stage::Send, Stage::Receive]);
    assert_eq!(both.entry("edge-01"), "edge-01=receive+send");
    assert_eq!(Capability::none().entry("edge-02"), "edge-02");
    assert_eq!(
        Capability::from_entry(" edge-01 =receive+send"),
        ("edge-01", Ok(both))
    );
    assert_eq!(
        Capability::from_entry("edge-02"),
        ("edge-02", Ok(Capability::none()))
    );
    let (name, refused) = Capability::from_entry("edge-03=relay");
    assert_eq!(name, "edge-03");
    assert!(refused.expect_err("relay").starts_with("REFUSED"));
}

#[test]
fn the_words_of_a_capability_parse_back_to_it() {
    for stages in [
        vec![],
        vec![Stage::Send],
        vec![Stage::Process, Stage::Receive],
        vec![Stage::Receive, Stage::Process, Stage::Send],
    ] {
        let capability = Capability::of(&stages);
        assert_eq!(Capability::parse(&capability.words()), Ok(capability.clone()));
    }
    assert_eq!(
        Capability::of(&[Stage::Send, Stage::Receive, Stage::Send]).words(),
        "receive,send"
    );
}

#[test]
fn every_evidence_reads_back_online_or_not() {
    let online = Capability::of(&[Stage::Process, Stage::Send]).with_online(true);
    let evidence = online.evidence();
    assert_eq!(
        evidence,
        "declares process,send; online; authentication and runtime capability are not \
         modelled in this rig"
    );
    assert_eq!(Capability::from_evidence(&evidence), Ok(online));
    let offline_none = Capability::none().with_online(false);
    assert_eq!(
        Capability::from_evidence(&offline_none.evidence()),
        Ok(offline_none)
    );
    let online_none = Capability::none().with_online(true);
    assert_eq!(
        Capability::from_evidence(&online_none.evidence()),
        Ok(online_none)
    );
}

#[test]
fn evidence_without_the_prefix_declares_nothing_but_may_be_online() {
    assert_eq!(
        Capability::from_evidence("says receive; online; x"),
        Ok(Capability::none().with_online(true))
    );
    assert_eq!(
        Capability::from_evidence("declares receive"),
        Ok(Capability::of(&[Stage::Receive]))
    );
    assert_eq!(
        Capability::from_evidence("declares ; online;"),
        Ok(Capability::none().with_online(true))
    );
}

#[test]
fn an_entry_reads_back_as_the_capability_it_lists_offline() {
    let capability = Capability::of(&[Stage::Receive, Stage::Process]).with_online(true);
    let entry = capability.entry("  edge-09 ");
    assert_eq!(entry, "  edge-09 =receive+process");
    assert_eq!(
        Capability::from_entry(&entry),
        ("edge-09", Ok(capability.with_online(false)))
    );
    assert_eq!(
        Capability::from_entry("a=b=receive"),
        (
            "a",
            Err("REFUSED: no capability is called b=receive; a node declares receive, \
                 process, send, or nothing at all."
                .to_string())
        )
    );
    assert_eq!(Capability::from_entry("=send"), ("", Ok(Capability::of(&[Stage::Send]))));
}

#[test]
fn the_stages_of_a_capability_come_in_path_order_once_each() {
    let capability = Capability::of(&[Stage::Send, Stage::Send, Stage::Receive]);
    assert_eq!(capability.features(), [Stage::Receive, Stage::Send]);
    assert!(!capability.is_online());
    assert!(capability.can(Stage::Send) && !capability.can(Stage::Process));
    assert_eq!(Capability::default(), Capability::none());
}
