use winstow::error::StowError;
use winstow::fs_ops::FileSystem;
use winstow::ignore::PatternSet;
use winstow::path_utils::StowPath;
use winstow::planner::{Action, Plan, Relocation};
use winstow::stow::{observe, ConflictStrategy, FoldDecision, Seen, Stower};

fn p(text: &str) -> StowPath {
    StowPath::parse(text)
}

/// A file system with the directories `/tmp/stow` and `/tmp/target`.
fn temp() -> (FileSystem, StowPath, StowPath) {
    let mut fs = FileSystem::new();
    fs.create_dir_all(&p("/tmp/stow")).unwrap();
    fs.create_dir_all(&p("/tmp/target")).unwrap();
    (fs, p("/tmp/stow"), p("/tmp/target"))
}

#[test]
fn test_stower_creation() {
    let stower = Stower::new(p("/stow"), p("/target"), false, true);
    assert_eq!(*stower.stow_dir(), p("/stow"));
    assert_eq!(*stower.target_dir(), p("/target"));
}

#[test]
fn test_stow_nonexistent_package() {
    let mut fs = FileSystem::new();
    fs.create_dir(&p("/tmp")).unwrap();
    let stower = Stower::new(p("/tmp"), p("/tmp"), false, true);

    let result = stower.stow_package(&mut fs, "nonexistent");
    assert!(result.is_err());
    assert!(matches!(result.unwrap_err(), StowError::PackageNotFound { .. }));
}

#[test]
fn test_stow_simple_file() {
    let (mut fs, stow_dir, target_dir) = temp();
    let package_dir = stow_dir.child("mypackage");
    fs.create_dir(&package_dir).unwrap();
    fs.write(&package_dir.child("file.txt"), vec![]).unwrap();

    let stower = Stower::new(stow_dir, target_dir, false, true);
    let result = stower.stow_package(&mut fs, "mypackage");
    assert!(result.is_ok());
    assert!(!fs.path_exists(&p("/tmp/target/file.txt")));
}

#[test]
fn test_conflict_detection() {
    let (mut fs, stow_dir, target_dir) = temp();
    let package_dir = stow_dir.child("mypackage");
    fs.create_dir(&package_dir).unwrap();
    fs.write(&package_dir.child("file.txt"), vec![]).unwrap();
    fs.write(&target_dir.child("file.txt"), vec![]).unwrap();

    let stower = Stower::new(stow_dir, target_dir, false, true);
    let result = stower.stow_package(&mut fs, "mypackage");
    assert!(result.is_err());
    assert!(matches!(result.unwrap_err(), StowError::Conflict { .. }));
}

#[test]
fn test_with_conflict_strategy() {
    let stower = Stower::new(p("/stow"), p("/target"), false, true)
        .with_conflict_strategy(ConflictStrategy::Adopt);
    assert_eq!(stower.conflict_strategy(), ConflictStrategy::Adopt);

    let stower = Stower::new(p("/stow"), p("/target"), false, true)
        .with_conflict_strategy(ConflictStrategy::Override);
    assert_eq!(stower.conflict_strategy(), ConflictStrategy::Override);
}

#[test]
fn test_with_patterns() {
    let patterns = PatternSet::empty();
    let stower = Stower::new(p("/stow"), p("/target"), false, true).with_patterns(patterns);
    assert_eq!(*stower.stow_dir(), p("/stow"));
}

#[test]
fn test_stow_package_not_directory() {
    let (mut fs, stow_dir, target_dir) = temp();
    fs.write(&stow_dir.child("notadir"), vec![]).unwrap();

    let stower = Stower::new(stow_dir, target_dir, false, true);
    let result = stower.stow_package(&mut fs, "notadir");
    assert!(result.is_err());
    match result.unwrap_err() {
        StowError::InvalidPath(m) => assert_eq!(m, "Package 'notadir' is not a directory"),
        other => panic!("unexpected {:?}", other),
    }
}

#[test]
fn test_stow_with_ignore_patterns() {
    let (mut fs, stow_dir, target_dir) = temp();
    let package_dir = stow_dir.child("mypackage");
    fs.create_dir(&package_dir).unwrap();
    fs.write(&package_dir.child("important.txt"), vec![]).unwrap();
    fs.write(&package_dir.child("backup.bak"), vec![]).unwrap();

    let ignore_patterns = vec!["*.bak".to_string()];
    let patterns = PatternSet::new(&ignore_patterns, &[]).unwrap();

    let stower = Stower::new(stow_dir, target_dir, false, true).with_patterns(patterns);

    let result = stower.stow_package(&mut fs, "mypackage");
    assert!(result.is_ok());
    let plan = stower.plan_package(&fs, "mypackage").unwrap();
    assert_eq!(plan.len(), 1);
    assert!(matches!(
        &plan.actions()[0],
        Action::CreateFileLink { link_path, .. } if *link_path == p("/tmp/target/important.txt")
    ));
}

#[test]
fn test_stow_with_defer_patterns() {
    let (mut fs, stow_dir, target_dir) = temp();
    let package_dir = stow_dir.child("mypackage");
    fs.create_dir(&package_dir).unwrap();
    fs.write(&package_dir.child("config.txt"), vec![]).unwrap();
    fs.write(&target_dir.child("config.txt"), vec![]).unwrap();

    let defer_patterns = vec!["config.txt".to_string()];
    let patterns = PatternSet::new(&[], &defer_patterns).unwrap();

    let stower = Stower::new(stow_dir, target_dir, false, true).with_patterns(patterns);

    let result = stower.stow_package(&mut fs, "mypackage");
    assert!(result.is_ok());
    assert_eq!(stower.plan_package(&fs, "mypackage").unwrap().len(), 0);
}

#[test]
fn test_conflict_strategy_adopt() {
    let (mut fs, stow_dir, target_dir) = temp();
    let package_dir = stow_dir.child("mypackage");
    fs.create_dir(&package_dir).unwrap();
    fs.write(&package_dir.child("file.txt"), vec![]).unwrap();
    fs.write(&target_dir.child("file.txt"), vec![]).unwrap();

    let stower = Stower::new(stow_dir, target_dir, false, true)
        .with_conflict_strategy(ConflictStrategy::Adopt);
    let result = stower.stow_package(&mut fs, "mypackage");
    assert!(result.is_ok());
    assert!(!fs.is_link(&p("/tmp/target/file.txt")));
}

#[test]
fn test_conflict_strategy_override() {
    let (mut fs, stow_dir, target_dir) = temp();
    let package_dir = stow_dir.child("mypackage");
    fs.create_dir(&package_dir).unwrap();
    fs.write(&package_dir.child("file.txt"), vec![]).unwrap();
    fs.write(&target_dir.child("file.txt"), vec![]).unwrap();

    let stower = Stower::new(stow_dir, target_dir, false, true)
        .with_conflict_strategy(ConflictStrategy::Override);
    let result = stower.stow_package(&mut fs, "mypackage");
    assert!(result.is_ok());
    assert!(!fs.is_link(&p("/tmp/target/file.txt")));
}

#[test]
fn test_observe_and_decide() {
    let (mut fs, stow_dir, target_dir) = temp();
    fs.create_dir_all(&p("/tmp/stow/pkg/dir")).unwrap();
    fs.create_dir_all(&p("/tmp/stow/other/dir")).unwrap();
    fs.create_dir(&p("/tmp/target/real")).unwrap();
    fs.write(&p("/tmp/target/file"), vec![]).unwrap();
    fs.symlink(&p("/tmp/target/ours"), &p("../stow/pkg/dir"), true).unwrap();
    fs.symlink(&p("/tmp/target/theirs"), &p("../stow/other/dir"), true).unwrap();
    fs.symlink(&p("/tmp/target/dangling"), &p("nowhere"), false).unwrap();
    assert!(matches!(observe(&fs, &p("/tmp/target/none")), Seen::Absent));
    assert!(matches!(observe(&fs, &p("/tmp/target/dangling")), Seen::Absent));
    assert!(matches!(observe(&fs, &p("/tmp/target/real")), Seen::Directory));
    assert!(matches!(observe(&fs, &p("/tmp/target/file")), Seen::Other));
    match observe(&fs, &p("/tmp/target/ours")) {
        Seen::Link { target, resolved } => {
            assert_eq!(target, p("/tmp/stow/pkg/dir"));
            assert_eq!(resolved, p("/tmp/stow/pkg/dir"));
        }
        other => panic!("unexpected {:?}", other),
    }
    let stower = Stower::new(stow_dir, target_dir, false, false);
    let source = p("/tmp/stow/pkg/dir");
    let decide = |target: &str| stower.decide_fold(&fs, &source, &p(target)).unwrap();
    assert_eq!(decide("/tmp/target/none"), FoldDecision::Fold);
    assert_eq!(decide("/tmp/target/ours"), FoldDecision::Fold);
    assert_eq!(decide("/tmp/target/theirs"), FoldDecision::Unfold(p("/tmp/stow/other/dir")));
    assert_eq!(decide("/tmp/target/real"), FoldDecision::Traverse);
    assert_eq!(decide("/tmp/target/file"), FoldDecision::Conflict);
}

#[test]
fn test_plan_stow_file_cases() {
    let (mut fs, stow_dir, target_dir) = temp();
    fs.create_dir(&p("/tmp/stow/pkg")).unwrap();
    fs.write(&p("/tmp/stow/pkg/a"), vec![]).unwrap();
    fs.write(&p("/tmp/stow/pkg/b"), vec![]).unwrap();
    fs.symlink(&p("/tmp/target/a"), &p("../stow/pkg/a"), false).unwrap();
    fs.symlink(&p("/tmp/target/b"), &p("../stow/pkg/a"), false).unwrap();
    let stower = Stower::new(stow_dir.clone(), target_dir.clone(), false, false);
    let mut plan = Plan::new();
    // Already linked: nothing.
    assert!(stower.plan_stow_file(&fs, &p("/tmp/stow/pkg/a"), &p("/tmp/target/a"), &mut plan).is_ok());
    assert_eq!(plan.len(), 0);
    // A link that leads elsewhere is a conflict; the plan stays as it was.
    plan.add(Action::RemoveLink { path: p("/x") });
    match stower.plan_stow_file(&fs, &p("/tmp/stow/pkg/b"), &p("/tmp/target/b"), &mut plan) {
        Err(StowError::Conflict { path }) => assert_eq!(path, p("/tmp/target/b")),
        other => panic!("unexpected {:?}", other),
    }
    assert_eq!(plan.len(), 1);
    // A link is not adopted.
    let adopting = Stower::new(stow_dir.clone(), target_dir.clone(), false, false)
        .with_conflict_strategy(ConflictStrategy::Adopt);
    match adopting.plan_stow_file(&fs, &p("/tmp/stow/pkg/b"), &p("/tmp/target/b"), &mut plan) {
        Err(StowError::InvalidPath(m)) => {
            assert_eq!(m, "Target is already a symlink, cannot adopt: /tmp/target/b")
        }
        other => panic!("unexpected {:?}", other),
    }
    // Overriding leaves a link alone and links anyway.
    let overriding = Stower::new(stow_dir, target_dir, false, false)
        .with_conflict_strategy(ConflictStrategy::Override);
    assert!(overriding
        .plan_stow_file(&fs, &p("/tmp/stow/pkg/b"), &p("/tmp/target/b"), &mut plan)
        .is_ok());
    assert_eq!(plan.len(), 2);
    assert!(plan.relocations().is_empty());
    assert_eq!(
        plan.actions()[1],
        Action::CreateFileLink { link_path: p("/tmp/target/b"), target_path: p("../stow/pkg/b") }
    );
}

#[test]
fn test_traverse_links_inside_real_directory() {
    let (mut fs, stow_dir, target_dir) = temp();
    fs.create_dir_all(&p("/tmp/stow/pkg/etc/app")).unwrap();
    fs.write(&p("/tmp/stow/pkg/etc/app/conf"), vec![]).unwrap();
    fs.write(&p("/tmp/stow/pkg/etc/hosts"), vec![]).unwrap();
    fs.create_dir(&p("/tmp/target/etc")).unwrap();
    let stower = Stower::new(stow_dir, target_dir, false, false);
    let plan = stower.plan_package(&fs, "pkg").unwrap();
    assert_eq!(
        *plan.actions(),
        vec![
            Action::CreateDirLink {
                link_path: p("/tmp/target/etc/app"),
                target_path: p("../../stow/pkg/etc/app"),
            },
            Action::CreateFileLink {
                link_path: p("/tmp/target/etc/hosts"),
                target_path: p("../../stow/pkg/etc/hosts"),
            },
        ]
    );
    assert!(stower.stow_package(&mut fs, "pkg").is_ok());
    assert_eq!(fs.canonicalize(&p("/tmp/target/etc/app/conf")).unwrap(), p("/tmp/stow/pkg/etc/app/conf"));
    assert_eq!(fs.canonicalize(&p("/tmp/target/etc/hosts")).unwrap(), p("/tmp/stow/pkg/etc/hosts"));
}

#[test]
fn test_directory_conflict_strategies() {
    let (mut fs, stow_dir, target_dir) = temp();
    fs.create_dir_all(&p("/tmp/stow/pkg/dir")).unwrap();
    fs.write(&p("/tmp/target/dir"), b"file".to_vec()).unwrap();
    let failing = Stower::new(stow_dir.clone(), target_dir.clone(), false, false);
    match failing.plan_package(&fs, "pkg") {
        Err(StowError::Conflict { path }) => assert_eq!(path, p("/tmp/target/dir")),
        other => panic!("unexpected {:?}", other.map(|_| ())),
    }
    let adopting = Stower::new(stow_dir.clone(), target_dir.clone(), false, false)
        .with_conflict_strategy(ConflictStrategy::Adopt);
    let plan = adopting.plan_package(&fs, "pkg").unwrap();
    assert_eq!(
        *plan.relocations(),
        vec![Relocation::AdoptFile { target: p("/tmp/target/dir"), package: p("/tmp/stow/pkg/dir") }]
    );
    assert_eq!(plan.len(), 1);
    // A file cannot take the place of the directory in the package.
    assert!(matches!(adopting.stow_package(&mut fs, "pkg"), Err(StowError::IoError { .. })));
    let overriding = Stower::new(stow_dir, target_dir, false, false)
        .with_conflict_strategy(ConflictStrategy::Override);
    let plan = overriding.plan_package(&fs, "pkg").unwrap();
    assert_eq!(*plan.relocations(), vec![Relocation::Override { target: p("/tmp/target/dir") }]);
    assert!(overriding.stow_package(&mut fs, "pkg").is_ok());
    assert!(fs.is_link(&p("/tmp/target/dir")));
    assert!(fs.is_dir(&p("/tmp/target/dir")));
}

#[test]
fn test_deferred_directory_is_skipped_whole() {
    let (mut fs, stow_dir, target_dir) = temp();
    fs.create_dir_all(&p("/tmp/stow/pkg/share")).unwrap();
    fs.write(&p("/tmp/stow/pkg/share/f"), vec![]).unwrap();
    fs.create_dir(&p("/tmp/target/share")).unwrap();
    let patterns = PatternSet::new(&[], &["share".to_string()]).unwrap();
    let stower = Stower::new(stow_dir.clone(), target_dir.clone(), false, false).with_patterns(patterns);
    assert_eq!(stower.plan_package(&fs, "pkg").unwrap().len(), 0);
    // With nothing at the target the directory is linked.
    fs.remove_dir(&p("/tmp/target/share")).unwrap();
    let plan = stower.plan_package(&fs, "pkg").unwrap();
    assert_eq!(
        *plan.actions(),
        vec![Action::CreateDirLink {
            link_path: p("/tmp/target/share"),
            target_path: p("../stow/pkg/share"),
        }]
    );
}

#[test]
fn test_plan_stow_directory_reports_missing_source() {
    let (fs, stow_dir, target_dir) = temp();
    let stower = Stower::new(stow_dir, target_dir.clone(), false, false);
    let mut plan = Plan::new();
    assert!(matches!(
        stower.plan_stow_directory(&fs, &p("/tmp/stow/none"), &target_dir, &mut plan),
        Err(StowError::IoError { .. })
    ));
    assert_eq!(plan.len(), 0);
}
