//! Tests for the artifact index: streams of build-tool messages in,
//! entries out.
use bintest::missing_executable_message;
use bintest::BinTest;
use bintest::BuildFault;
use bintest::LineMsg;

fn artifact_line(path: &str) -> String {
    format!(
        "{{\"reason\":\"compiler-artifact\",\
         \"package_id\":\"demo 0.1.0 (path+file:///tmp/demo)\",\
         \"manifest_path\":\"/tmp/demo/Cargo.toml\",\
         \"target\":{{\"name\":\"demo\",\"kind\":[\"bin\"],\"crate_types\":[\"bin\"],\
         \"src_path\":\"/tmp/demo/src/main.rs\",\"edition\":\"2021\"}},\
         \"profile\":{{\"opt_level\":\"0\",\"debug_assertions\":true,\
         \"overflow_checks\":true,\"test\":false}},\
         \"features\":[],\"filenames\":[\"{path}\"],\"executable\":\"{path}\",\
         \"fresh\":false}}"
    )
}

fn library_artifact_line() -> String {
    artifact_line("x").replace("\"executable\":\"x\"", "\"executable\":null")
}

#[test]
fn one_artifact_builds_single_entry() {
    let lines = vec![artifact_line("/tmp/x/foo")];
    let index = BinTest::from_lines(&lines).expect("stream decodes");
    let entries = index.list_executables();
    assert_eq!(entries.len(), 1);
    assert_eq!(entries[0], ("foo".to_string(), "/tmp/x/foo".to_string()));
    assert_eq!(index.command_path("foo"), Some(&"/tmp/x/foo".to_string()));
}

#[test]
fn later_artifact_wins() {
    let lines = vec![artifact_line("/tmp/a/foo"), artifact_line("/tmp/b/foo")];
    let index = BinTest::from_lines(&lines).expect("stream decodes");
    let entries = index.list_executables();
    assert_eq!(entries.len(), 1);
    assert_eq!(entries[0], ("foo".to_string(), "/tmp/b/foo".to_string()));
}

#[test]
fn artifact_without_executable_ignored() {
    let lines = vec![library_artifact_line()];
    let index = BinTest::from_lines(&lines).expect("stream decodes");
    assert_eq!(index.list_executables().len(), 0);
}

#[test]
fn non_artifact_message_ignored() {
    let lines = vec![
        "{\"reason\":\"build-finished\",\"success\":true}".to_string(),
        artifact_line("/tmp/x/foo"),
    ];
    let index = BinTest::from_lines(&lines).expect("stream decodes");
    let entries = index.list_executables();
    assert_eq!(entries.len(), 1);
    assert_eq!(entries[0].0, "foo");
}

#[test]
fn list_twice_same_and_sorted() {
    let lines = vec![
        artifact_line("/tmp/x/gamma"),
        artifact_line("/tmp/x/alpha"),
        artifact_line("/tmp/x/beta"),
    ];
    let index = BinTest::from_lines(&lines).expect("stream decodes");
    let first: Vec<(String, String)> = index.list_executables().clone();
    let second: Vec<(String, String)> = index.list_executables().clone();
    assert_eq!(first, second);
    let names: Vec<&str> = first.iter().map(|e| e.0.as_str()).collect();
    assert_eq!(names, vec!["alpha", "beta", "gamma"]);
}

#[test]
fn missing_lookup_names_identifier() {
    let index = BinTest::empty();
    assert_eq!(index.command_path("nonexistent"), None);
    let text = missing_executable_message("nonexistent");
    assert_eq!(text, "no such executable <<nonexistent>>");
    assert!(text.contains("nonexistent"));
}

#[test]
fn malformed_line_aborts() {
    let lines = vec![artifact_line("/tmp/x/foo"), "this is not json".to_string()];
    let fault = BinTest::from_lines(&lines).expect_err("malformed line is fatal");
    assert!(matches!(fault, BuildFault::MalformedLine { .. }));
    assert!(fault.message().starts_with("cannot decode build message: "));
}

#[test]
fn malformed_line_leaves_index_as_it_was() {
    let mut index = BinTest::empty();
    assert!(index.handle_line(&artifact_line("/tmp/x/foo")).is_ok());
    assert!(index.handle_line("{\"reason\":\"unheard-of\"}").is_err());
    assert_eq!(index.list_executables().len(), 1);
}

#[test]
fn extension_and_directory_stripped() {
    let lines = vec![
        artifact_line("/tmp/x/tool.exe"),
        artifact_line("/tmp/y/archive.tar.gz"),
        artifact_line("/tmp/z/.hidden"),
    ];
    let index = BinTest::from_lines(&lines).expect("stream decodes");
    let names: Vec<&str> = index.list_executables().iter().map(|e| e.0.as_str()).collect();
    assert_eq!(names, vec![".hidden", "archive.tar", "tool"]);
    assert_eq!(index.command_path("tool"), Some(&"/tmp/x/tool.exe".to_string()));
}

#[test]
fn apply_message_ignores_other_kinds() {
    let mut index = BinTest::empty();
    assert!(index.apply_message(LineMsg::Other).is_ok());
    assert!(index.apply_message(LineMsg::Artifact { executable: None }).is_ok());
    assert_eq!(index.list_executables().len(), 0);
}

#[test]
fn stemless_executable_is_fatal() {
    let mut index = BinTest::empty();
    let fault = index
        .apply_message(LineMsg::Artifact { executable: Some("/tmp/x/..".to_string()) })
        .expect_err("no file name to index under");
    assert!(matches!(fault, BuildFault::NoFileName));
    assert_eq!(fault.message(), "executable path has no file name");
    assert!(index
        .apply_message(LineMsg::Artifact { executable: Some(".".to_string()) })
        .is_err());
    assert!(index
        .apply_message(LineMsg::Artifact { executable: Some("..".to_string()) })
        .is_err());
    assert!(index
        .apply_message(LineMsg::Artifact { executable: Some("/".to_string()) })
        .is_err());
    assert_eq!(index.list_executables().len(), 0);
}

#[test]
fn trailing_separator_still_names_file() {
    let mut index = BinTest::empty();
    assert!(index
        .apply_message(LineMsg::Artifact { executable: Some("/tmp/demo/".to_string()) })
        .is_ok());
    let entries = index.list_executables();
    assert_eq!(entries.len(), 1);
    assert_eq!(entries[0], ("demo".to_string(), "/tmp/demo/".to_string()));
}

#[test]
fn dot_component_resolved_away() {
    let mut index = BinTest::empty();
    assert!(index
        .apply_message(LineMsg::Artifact { executable: Some("foo.txt/.".to_string()) })
        .is_ok());
    let entries = index.list_executables();
    assert_eq!(entries.len(), 1);
    assert_eq!(entries[0], ("foo".to_string(), "foo.txt/.".to_string()));
}

#[test]
fn order_is_by_scalar_value() {
    let lines = vec![
        artifact_line("/tmp/x/zebra"),
        artifact_line("/tmp/x/Crate"),
        artifact_line("/tmp/y/caf\u{e9}"),
    ];
    let index = BinTest::from_lines(&lines).expect("stream decodes");
    let names: Vec<&str> = index.list_executables().iter().map(|e| e.0.as_str()).collect();
    assert_eq!(names, vec!["Crate", "caf\u{e9}", "zebra"]);
}
