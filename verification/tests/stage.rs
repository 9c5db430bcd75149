use xmip_core_node::Stage;

#[test]
fn the_words_are_the_stages_names_in_path_order() {
    assert_eq!(Stage::ALL.map(Stage::name), Stage::WORDS);
    assert_eq!(Stage::Receive.next(), Some(Stage::Process));
    assert_eq!(Stage::Send.next(), None);
}

#[test]
fn a_location_can_be_paused_and_a_process_cannot() {
    assert_eq!(Stage::ALL.map(Stage::pausable), [true, false, true]);
    assert_eq!(
        Stage::ALL.map(Stage::location),
        ["receive location", "xmip process", "send location"]
    );
}

#[test]
fn a_declaration_reads_in_path_order_once_each_and_empty_is_none() {
    assert_eq!(
        Stage::declared(" send + receive ,, receive"),
        Ok(vec![Stage::Receive, Stage::Send])
    );
    assert_eq!(Stage::declared(""), Ok(Vec::new()));
    assert_eq!(Stage::declared(" , + "), Ok(Vec::new()));
}

#[test]
fn a_word_is_exact_lowercase_and_any_other_case_is_refused() {
    assert_eq!(
        Stage::declared("send + receive"),
        Ok(vec![Stage::Receive, Stage::Send])
    );
    assert_eq!(
        Stage::declared("Send + RECEIVE"),
        Err(
            "REFUSED: no capability is called Send, RECEIVE; a node declares receive, \
             process, send, or nothing at all."
                .to_string()
        )
    );
    assert!(Stage::named("RECEIVE").is_none());
    assert_eq!(Stage::named("receive"), Some(Stage::Receive));
}

#[test]
fn an_unknown_word_is_refused_by_name_never_dropped() {
    let refusal = Stage::declared("receive,relay+hold").expect_err("relay is no stage");
    assert_eq!(
        refusal,
        "REFUSED: no capability is called relay, hold; a node declares receive, \
         process, send, or nothing at all."
    );
    assert!(Stage::named("relay").is_none());
    assert!(Stage::named("").is_none());
}

#[test]
fn every_name_names_its_stage() {
    for stage in Stage::ALL {
        assert_eq!(Stage::named(stage.name()), Some(stage));
    }
    assert_eq!(Stage::named("process"), Some(Stage::Process));
    assert_eq!(Stage::named("send"), Some(Stage::Send));
    assert_eq!(Stage::named(" send"), None);
}

#[test]
fn the_path_runs_receive_process_send() {
    assert_eq!(Stage::Process.next(), Some(Stage::Send));
    assert!(Stage::Receive.pausable());
    assert!(!Stage::Process.pausable());
    assert!(Stage::Send.pausable());
}

#[test]
fn every_accepted_declaration_is_in_path_order_once_each() {
    assert_eq!(
        Stage::declared("send+process+receive+send"),
        Ok(vec![Stage::Receive, Stage::Process, Stage::Send])
    );
    assert_eq!(Stage::declared("process"), Ok(vec![Stage::Process]));
    assert_eq!(Stage::declared("send,send"), Ok(vec![Stage::Send]));
}

#[test]
fn blanks_of_every_kind_around_a_word_are_ignored() {
    assert_eq!(
        Stage::declared("\treceive\n,\u{a0}send\u{3000}"),
        Ok(vec![Stage::Receive, Stage::Send])
    );
    assert_eq!(
        Stage::declared("re ceive"),
        Err(
            "REFUSED: no capability is called re ceive; a node declares receive, \
             process, send, or nothing at all."
                .to_string()
        )
    );
}

#[test]
fn a_single_unknown_word_is_refused_alone() {
    assert_eq!(
        Stage::declared("relay"),
        Err(
            "REFUSED: no capability is called relay; a node declares receive, process, \
             send, or nothing at all."
                .to_string()
        )
    );
}
