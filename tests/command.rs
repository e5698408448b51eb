use cargo_resolver::command::{cli, requested_targets};

#[test]
fn generate_lockfile_command() {
    let c = cli();
    assert_eq!(c.name, "generate-lockfile");
    assert_eq!(c.about, "Generate the lockfile for a package");
    assert_eq!(c.opts.len(), 2);
    assert_eq!(c.opts[0].name, "quiet");
    assert_eq!(c.opts[0].short, Some('q'));
    assert_eq!(c.opts[1].name, "manifest-path");
    assert!(c.after_help.ends_with("for more detailed information.\n"));
}

#[test]
fn all_targets_becomes_all() {
    let (t, warn) = requested_targets(true, vec!["x86_64-unknown-linux-gnu".to_string()]);
    assert_eq!(t, vec!["all".to_string()]);
    assert!(warn);
    let (t, warn) = requested_targets(false, vec!["wasm32-unknown-unknown".to_string()]);
    assert_eq!(t, vec!["wasm32-unknown-unknown".to_string()]);
    assert!(!warn);
}
