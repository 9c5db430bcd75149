use xmip_core_node::toml::quote;
use xmip_core_node::{Declaration, Purpose};

#[test]
fn a_windows_path_and_a_quote_survive_as_toml() {
    let declaration = Declaration::new("xmip-cli", "a \"quoted\" place", Purpose::Runtime);
    let text = declaration.to_toml(7, 1_800_000_000, "C:\\Program Files\\Xmip\\xmip-cli.exe");

    assert!(
        text.contains("location = \"a \\\"quoted\\\" place\""),
        "{text}"
    );
    assert!(
        text.contains("path = \"C:\\\\Program Files\\\\Xmip\\\\xmip-cli.exe\""),
        "{text}"
    );
    assert!(text.contains("purpose = \"runtime\""), "{text}");
}

#[test]
fn every_control_character_is_escaped_as_toml_requires() {
    let declaration = Declaration::new("xmip-cli", "a\rb\tc\u{0}d\u{7f}", Purpose::Runtime);
    let text = declaration.to_toml(7, 1_800_000_000, "C:\\x\ny");

    assert!(
        text.contains(r#"location = "a\rb\tc\u0000d\u007F""#),
        "{text}"
    );
    assert!(text.contains(r#"path = "C:\\x\ny""#), "{text}");
    assert_eq!(text.lines().count(), 6, "one line per key: {text}");
}

#[test]
fn a_process_is_runtime_unless_the_word_is_test() {
    assert_eq!(Purpose::named("test"), Purpose::Test);
    assert_eq!(Purpose::named(" TEST "), Purpose::Test);
    assert_eq!(Purpose::named("runtime"), Purpose::Runtime);
    assert_eq!(Purpose::named(""), Purpose::Runtime);
    assert_eq!(Purpose::named("production"), Purpose::Runtime);
}

#[test]
fn the_word_of_a_purpose_names_it() {
    for purpose in [Purpose::Test, Purpose::Runtime] {
        assert_eq!(Purpose::named(purpose.word()), purpose);
    }
    assert_eq!(Purpose::Test.word(), "test");
    assert_eq!(Purpose::Runtime.word(), "runtime");
    assert_eq!(Purpose::named("TeSt"), Purpose::Test);
    assert_eq!(Purpose::named("tests"), Purpose::Runtime);
}

#[test]
fn a_declaration_is_written_whole_one_line_per_key() {
    let declaration = Declaration::new(
        "xmip-playground-orders-node-edge-01",
        "xmip:///orders/node/edge-01",
        Purpose::Test,
    );
    assert_eq!(declaration.name, "xmip-playground-orders-node-edge-01");
    assert_eq!(declaration.location, "xmip:///orders/node/edge-01");
    assert_eq!(declaration.purpose, Purpose::Test);
    assert_eq!(
        declaration.to_toml(4321, 0, "/usr/bin/xmip"),
        "name = \"xmip-playground-orders-node-edge-01\"\n\
         location = \"xmip:///orders/node/edge-01\"\n\
         purpose = \"test\"\n\
         pid = 4321\n\
         started_unix = 0\n\
         path = \"/usr/bin/xmip\"\n"
    );
    assert_eq!(
        declaration.file_name(4321),
        "xmip-playground-orders-node-edge-01-4321.toml"
    );
}

#[test]
fn every_short_escape_and_a_large_number_are_written() {
    let declaration = Declaration::new("n\u{8}\u{c}\n\"\\", "é\u{1f}", Purpose::Runtime);
    let text = declaration.to_toml(u32::MAX, u64::MAX, "");
    assert_eq!(
        text,
        "name = \"n\\b\\f\\n\\\"\\\\\"\n\
         location = \"é\\u001F\"\n\
         purpose = \"runtime\"\n\
         pid = 4294967295\n\
         started_unix = 18446744073709551615\n\
         path = \"\"\n"
    );
    assert_eq!(text.lines().count(), 6);
}

#[test]
fn a_quoted_string_reads_back_as_what_was_quoted() {
    assert_eq!(quote("plain"), "\"plain\"");
    assert_eq!(quote("\u{0}"), "\"\\u0000\"");
    assert_eq!(quote("\\u0000"), "\"\\\\u0000\"");
    assert_ne!(quote("\u{0}"), quote("\\u0000"));
    assert_eq!(quote("\u{1b}\u{7f}"), "\"\\u001B\\u007F\"");
    assert_eq!(quote(""), "\"\"");
}
