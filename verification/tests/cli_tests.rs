use winstow::cli::{Action, Cli};

fn cli(flags: &[&str], packages: &[&str]) -> Cli {
    let mut c = Cli {
        stow: false,
        delete: false,
        restow: false,
        stow_dir: None,
        target_dir: None,
        verbose: false,
        dry_run: false,
        adopt: false,
        override_conflicts: false,
        ignore: Vec::new(),
        defer: Vec::new(),
        packages: packages.iter().map(|p| p.to_string()).collect(),
    };
    let mut i = 0;
    while i < flags.len() {
        match flags[i] {
            "-S" => c.stow = true,
            "-D" => c.delete = true,
            "-R" => c.restow = true,
            "-v" => c.verbose = true,
            "-n" => c.dry_run = true,
            "--adopt" => c.adopt = true,
            "--override" => c.override_conflicts = true,
            "--ignore" => {
                i += 1;
                c.ignore.push(flags[i].to_string());
            }
            "--defer" => {
                i += 1;
                c.defer.push(flags[i].to_string());
            }
            other => panic!("unknown flag {}", other),
        }
        i += 1;
    }
    c
}

#[test]
fn test_default_action_is_stow() {
    let cli = cli(&[], &["mypackage"]);
    assert_eq!(cli.action().unwrap(), Action::Stow);
    assert_eq!(cli.packages, vec!["mypackage"]);
}

#[test]
fn test_explicit_stow_action() {
    let cli = cli(&["-S"], &["mypackage"]);
    assert_eq!(cli.action().unwrap(), Action::Stow);
    assert!(cli.stow);
}

#[test]
fn test_delete_action() {
    let cli = cli(&["-D"], &["mypackage"]);
    assert_eq!(cli.action().unwrap(), Action::Delete);
    assert!(cli.delete);
}

#[test]
fn test_restow_action() {
    let cli = cli(&["-R"], &["mypackage"]);
    assert_eq!(cli.action().unwrap(), Action::Restow);
    assert!(cli.restow);
}

#[test]
fn test_multiple_actions_error() {
    let cli = cli(&["-S", "-D"], &["mypackage"]);
    assert!(cli.action().is_err());
}

#[test]
fn test_verbose_and_dry_run_flags() {
    let cli = cli(&["-v", "-n"], &["mypackage"]);
    assert!(cli.verbose);
    assert!(cli.dry_run);
}

#[test]
fn test_adopt_with_stow() {
    let cli = cli(&["--adopt"], &["mypackage"]);
    assert!(cli.adopt);
    assert_eq!(cli.action().unwrap(), Action::Stow);
    assert!(cli.validate_flags().is_ok());
}

#[test]
fn test_adopt_with_delete_is_invalid() {
    let cli = cli(&["-D", "--adopt"], &["mypackage"]);
    assert!(cli.validate_flags().is_err());
}

#[test]
fn cli_test_multiple_packages() {
    let cli = cli(&[], &["pkg1", "pkg2", "pkg3"]);
    assert_eq!(cli.packages, vec!["pkg1", "pkg2", "pkg3"]);
}

#[test]
fn cli_test_ignore_patterns() {
    let cli = cli(&["--ignore", "*.bak", "--ignore", "*.tmp"], &["mypackage"]);
    assert_eq!(cli.ignore, vec!["*.bak", "*.tmp"]);
}

#[test]
fn test_action_messages_are_exact() {
    let both = cli(&["-D", "-R"], &["p"]);
    assert_eq!(
        both.action().unwrap_err(),
        "Multiple actions specified. Use only one of: -S/--stow, -D/--delete, -R/--restow"
    );
    assert_eq!(both.validate_flags().unwrap_err(), both.action().unwrap_err());
    let all = cli(&["-S", "-D", "-R"], &["p"]);
    assert!(all.action().is_err());
}

#[test]
fn test_override_with_delete_is_invalid() {
    let c = cli(&["-D", "--override"], &["p"]);
    assert_eq!(
        c.validate_flags().unwrap_err(),
        "--adopt and --override cannot be used with -D/--delete"
    );
}

#[test]
fn test_patterns_with_delete_are_invalid() {
    let c = cli(&["-D", "--ignore", "*.bak"], &["p"]);
    assert_eq!(
        c.validate_flags().unwrap_err(),
        "--ignore and --defer cannot be used with -D/--delete"
    );
    let d = cli(&["-D", "--defer", "x"], &["p"]);
    assert!(d.validate_flags().is_err());
    let r = cli(&["-R", "--defer", "x", "--adopt"], &["p"]);
    assert!(r.validate_flags().is_ok());
    assert_eq!(r.action().unwrap(), Action::Restow);
}
