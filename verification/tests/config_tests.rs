//! Tests for the builder and the argument list it induces.
use bintest::BinTest;
use bintest::BinTestBuilder;

#[test]
fn default_arguments() {
    let args = BinTest::with().cargo_args(false);
    assert_eq!(args, vec!["build", "--message-format", "json"]);
}

#[test]
fn release_flag_follows_base() {
    let args = BinTest::with().cargo_args(true);
    assert_eq!(args, vec!["build", "--message-format", "json", "--release"]);
}

#[test]
fn workspace_flag_appended() {
    let args = BinTest::with().build_workspace(true).cargo_args(false);
    assert_eq!(args, vec!["build", "--message-format", "json", "--workspace"]);
}

#[test]
fn workspace_can_be_reset() {
    let args = BinTest::with().build_workspace(true).build_workspace(false).cargo_args(false);
    assert_eq!(args, vec!["build", "--message-format", "json"]);
}

#[test]
fn specific_executable_named() {
    let args = BinTest::with().build_executable("demo".to_string()).cargo_args(false);
    assert_eq!(args, vec!["build", "--message-format", "json", "--bin", "demo"]);
}

#[test]
fn quiet_flag_last() {
    let args = BinTest::with().quiet(true).cargo_args(false);
    assert_eq!(args, vec!["build", "--message-format", "json", "--quiet"]);
}

#[test]
fn all_flags_in_order() {
    let builder: BinTestBuilder = BinTest::with()
        .build_workspace(true)
        .build_executable("demo".to_string())
        .quiet(true);
    let args = builder.cargo_args(true);
    assert_eq!(
        args,
        vec![
            "build",
            "--message-format",
            "json",
            "--release",
            "--workspace",
            "--bin",
            "demo",
            "--quiet",
        ]
    );
}
