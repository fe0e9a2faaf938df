use winstow::config::{Config, StowContext};
use winstow::fs_ops::FileSystem;
use winstow::path_utils::StowPath;
use winstow::stow::{ConflictStrategy, Stower};
use winstow::unstow::Unstower;

fn p(text: &str) -> StowPath {
    StowPath::parse(text)
}

#[test]
fn test_config_default() {
    let config = Config::default();
    assert!(config.default_dir.is_none());
    assert!(config.default_target.is_none());
    assert!(config.ignore.is_empty());
    assert!(!config.verbose);
}

#[test]
fn test_config_merge_cli_precedence() {
    let fs = FileSystem::new();
    let config = Config {
        default_dir: Some("/config_stow".to_string()),
        default_target: Some("/config_target".to_string()),
        ignore: vec!["*.config".to_string()],
        defer: vec!["*.config_defer".to_string()],
        verbose: false,
    };

    let merged = config
        .merge_with_cli(
            &fs,
            Some(p("/cli_stow")),
            Some(p("/cli_target")),
            vec!["*.cli".to_string()],
            vec!["*.cli_defer".to_string()],
            true,
            false, // dry_run
            false, // adopt
            false, // override_conflicts
            p("/cwd"),
            Some(p("/home")),
        )
        .unwrap();

    assert_eq!(*merged.stow_dir(), p("/cli_stow"));
    assert_eq!(*merged.target_dir(), p("/cli_target"));
    let set = merged.build_pattern_set().unwrap();
    assert!(set.should_ignore(&p("x.cli")));
    assert!(!set.should_ignore(&p("x.config")));
    assert!(set.should_defer(&p("x.cli_defer")));
    assert!(!set.should_defer(&p("x.config_defer")));
}

#[test]
fn test_config_merge_use_config_defaults() {
    let fs = FileSystem::new();
    let config = Config {
        default_dir: Some("/config_stow".to_string()),
        default_target: Some("/config_target".to_string()),
        ignore: vec!["*.config".to_string()],
        defer: vec!["*.config_defer".to_string()],
        verbose: true,
    };

    let merged = config
        .merge_with_cli(
            &fs,
            None,
            None,
            vec![],
            vec![],
            false,
            false, // dry_run
            false, // adopt
            false, // override_conflicts
            p("/cwd"),
            Some(p("/home")),
        )
        .unwrap();

    assert_eq!(*merged.stow_dir(), p("/config_stow"));
    assert_eq!(*merged.target_dir(), p("/config_target"));
    let set = merged.build_pattern_set().unwrap();
    assert!(set.should_ignore(&p("x.config")));
    assert!(set.should_defer(&p("x.config_defer")));
}

#[test]
fn test_config_merge_falls_back() {
    let fs = FileSystem::new();
    let config = Config::default();
    let with_home = config
        .merge_with_cli(&fs, None, None, vec![], vec![], false, true, false, true, p("/cwd"), Some(p("/home")))
        .unwrap();
    assert_eq!(*with_home.stow_dir(), p("/cwd"));
    assert_eq!(*with_home.target_dir(), p("/home"));
    assert!(with_home.is_dry_run());
    assert_eq!(with_home.conflict_strategy(), ConflictStrategy::Override);
    let without = config
        .merge_with_cli(&fs, None, None, vec![], vec![], false, false, true, true, p("/cwd"), None)
        .unwrap();
    assert_eq!(*without.target_dir(), p("/cwd"));
    assert_eq!(without.conflict_strategy(), ConflictStrategy::Adopt);
    assert!(!without.is_dry_run());
}

#[test]
fn test_context_resolves_directories() {
    let mut fs = FileSystem::new();
    fs.create_dir_all(&p("/real/stow")).unwrap();
    fs.symlink(&p("/s"), &p("real/stow"), true).unwrap();
    let context = StowContext::new(
        &fs,
        p("/s"),
        p("/not/there"),
        vec!["[".to_string()],
        vec![],
        false,
        false,
        false,
        false,
    )
    .unwrap();
    assert_eq!(*context.stow_dir(), p("/real/stow"));
    assert_eq!(*context.target_dir(), p("/not/there"));
    assert_eq!(context.conflict_strategy(), ConflictStrategy::Fail);
    assert!(context.build_pattern_set().is_err());
}

#[test]
fn test_managers_from_context() {
    let fs = FileSystem::new();
    let context = StowContext::new(&fs, p("/stow"), p("/target"), vec![], vec![], false, true, true, false)
        .unwrap();
    let stower = Stower::from_context(&context, context.build_pattern_set().unwrap());
    assert_eq!(*stower.stow_dir(), p("/stow"));
    assert_eq!(*stower.target_dir(), p("/target"));
    assert!(stower.is_dry_run());
    assert_eq!(stower.conflict_strategy(), ConflictStrategy::Adopt);
    let unstower = Unstower::from_context(&context);
    assert_eq!(*unstower.stow_dir(), p("/stow"));
    assert_eq!(*unstower.target_dir(), p("/target"));
    assert!(unstower.is_dry_run());
}
