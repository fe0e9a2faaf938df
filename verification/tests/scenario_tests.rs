use winstow::error::StowError;
use winstow::fs_ops::{FileSystem, FsOp};
use winstow::ignore::PatternSet;
use winstow::path_utils::{compute_relative_path, normalize_path, StowPath};
use winstow::planner::Action;
use winstow::stow::{ConflictStrategy, Stower};
use winstow::unstow::Unstower;

fn p(text: &str) -> StowPath {
    StowPath::parse(text)
}

/// A file system with the directories `/stow` and `/target`.
fn start() -> FileSystem {
    let mut fs = FileSystem::new();
    fs.create_dir(&p("/stow")).unwrap();
    fs.create_dir(&p("/target")).unwrap();
    fs
}

fn stower() -> Stower {
    Stower::new(p("/stow"), p("/target"), false, false)
}

fn unstower() -> Unstower {
    Unstower::new(p("/stow"), p("/target"), false, false)
}

/// The names and kinds of what is directly inside a directory.
fn entries(fs: &FileSystem, dir: &str) -> Vec<(String, bool)> {
    fs.read_dir(&p(dir)).unwrap().into_iter().map(|l| (l.name, l.is_dir)).collect()
}

#[test]
fn test_full_stow_unstow_cycle() {
    let mut fs = start();
    fs.create_dir(&p("/stow/mypackage")).unwrap();
    fs.write(&p("/stow/mypackage/file1.txt"), b"content1".to_vec()).unwrap();
    fs.write(&p("/stow/mypackage/file2.txt"), b"content2".to_vec()).unwrap();

    assert!(stower().stow_package(&mut fs, "mypackage").is_ok());
    assert!(fs.is_link(&p("/target/file1.txt")));
    assert!(fs.is_link(&p("/target/file2.txt")));
    assert_eq!(fs.read(&p("/target/file1.txt")).unwrap(), b"content1".to_vec());
    assert_eq!(fs.read(&p("/target/file2.txt")).unwrap(), b"content2".to_vec());

    assert!(unstower().unstow_package(&mut fs, "mypackage").is_ok());
    assert!(entries(&fs, "/target").is_empty());
    assert!(fs.path_exists(&p("/stow/mypackage/file1.txt")));
    assert!(fs.path_exists(&p("/stow/mypackage/file2.txt")));
}

#[test]
fn test_nested_directory_structure() {
    let mut fs = start();
    fs.create_dir_all(&p("/stow/nested/a/b/c")).unwrap();
    fs.write(&p("/stow/nested/a/b/c/deep.txt"), b"deep content".to_vec()).unwrap();
    fs.write(&p("/stow/nested/a/b/shallow.txt"), b"shallow content".to_vec()).unwrap();
    fs.write(&p("/stow/nested/a/top.txt"), b"top content".to_vec()).unwrap();

    assert!(stower().stow_package(&mut fs, "nested").is_ok());
    assert!(fs.is_link(&p("/target/a")));
    assert_eq!(fs.read(&p("/target/a/b/c/deep.txt")).unwrap(), b"deep content".to_vec());
    assert_eq!(fs.read(&p("/target/a/b/shallow.txt")).unwrap(), b"shallow content".to_vec());
    assert_eq!(fs.read(&p("/target/a/top.txt")).unwrap(), b"top content".to_vec());
}

#[test]
fn integration_tests_test_multiple_packages() {
    let mut fs = start();
    for (package, file, content) in [
        ("package1", "file1.txt", "pkg1 content"),
        ("package2", "file2.txt", "pkg2 content"),
        ("package3", "file3.txt", "pkg3 content"),
    ] {
        fs.create_dir(&p("/stow").child(package)).unwrap();
        fs.write(&p("/stow").child(package).child(file), content.as_bytes().to_vec()).unwrap();
    }
    for package in ["package1", "package2", "package3"] {
        assert!(stower().stow_package(&mut fs, package).is_ok());
    }
    assert_eq!(fs.read(&p("/target/file1.txt")).unwrap(), b"pkg1 content".to_vec());
    assert_eq!(fs.read(&p("/target/file2.txt")).unwrap(), b"pkg2 content".to_vec());
    assert_eq!(fs.read(&p("/target/file3.txt")).unwrap(), b"pkg3 content".to_vec());
    // Removing one package leaves the links of the others.
    assert!(unstower().unstow_package(&mut fs, "package2").is_ok());
    assert!(fs.is_link(&p("/target/file1.txt")));
    assert!(!fs.path_exists(&p("/target/file2.txt")));
    assert!(fs.is_link(&p("/target/file3.txt")));
}

#[test]
fn test_conflicting_files() {
    let mut fs = start();
    fs.create_dir(&p("/stow/mypackage")).unwrap();
    fs.write(&p("/stow/mypackage/conflict.txt"), b"package content".to_vec()).unwrap();
    fs.write(&p("/target/conflict.txt"), b"existing content".to_vec()).unwrap();
    let before = fs.journal().len();

    // Without adopt or override the conflict is an error, and nothing is changed.
    match stower().stow_package(&mut fs, "mypackage") {
        Err(StowError::Conflict { path }) => assert_eq!(path, p("/target/conflict.txt")),
        other => panic!("unexpected {:?}", other),
    }
    assert_eq!(fs.journal().len(), before);
    assert_eq!(fs.read(&p("/target/conflict.txt")).unwrap(), b"existing content".to_vec());
    assert_eq!(fs.read(&p("/stow/mypackage/conflict.txt")).unwrap(), b"package content".to_vec());

    // With override the file in the target is replaced by the link.
    let overriding = stower().with_conflict_strategy(ConflictStrategy::Override);
    assert!(overriding.stow_package(&mut fs, "mypackage").is_ok());
    assert!(fs.is_link(&p("/target/conflict.txt")));
    assert_eq!(fs.read(&p("/target/conflict.txt")).unwrap(), b"package content".to_vec());
}

#[test]
fn test_adopt_moves_content_into_package() {
    let mut fs = start();
    fs.create_dir(&p("/stow/pkg")).unwrap();
    fs.write(&p("/stow/pkg/a.txt"), b"package content".to_vec()).unwrap();
    fs.write(&p("/target/a.txt"), b"existing content".to_vec()).unwrap();
    let adopting = stower().with_conflict_strategy(ConflictStrategy::Adopt);
    assert!(adopting.stow_package(&mut fs, "pkg").is_ok());
    assert!(fs.is_link(&p("/target/a.txt")));
    assert!(!fs.is_link(&p("/stow/pkg/a.txt")));
    assert_eq!(fs.read(&p("/stow/pkg/a.txt")).unwrap(), b"existing content".to_vec());
    assert_eq!(fs.canonicalize(&p("/target/a.txt")).unwrap(), p("/stow/pkg/a.txt"));
    let ops: Vec<&FsOp> = fs.journal().iter().rev().take(2).collect();
    assert!(matches!(ops[1], FsOp::Rename { from, to } if *from == p("/target/a.txt") && *to == p("/stow/pkg/a.txt")));
    assert!(matches!(ops[0], FsOp::Symlink { link, .. } if *link == p("/target/a.txt")));
}

#[test]
fn integration_tests_test_ignore_patterns() {
    let mut fs = start();
    fs.create_dir(&p("/stow/mypackage")).unwrap();
    fs.write(&p("/stow/mypackage/important.txt"), b"keep this".to_vec()).unwrap();
    fs.write(&p("/stow/mypackage/backup.bak"), b"ignore this".to_vec()).unwrap();
    fs.write(&p("/stow/mypackage/.DS_Store"), b"ignore this too".to_vec()).unwrap();

    let patterns = PatternSet::new(&["*.bak".to_string(), ".DS_Store".to_string()], &[]).unwrap();
    let stower = stower().with_patterns(patterns);
    assert!(stower.stow_package(&mut fs, "mypackage").is_ok());
    assert_eq!(entries(&fs, "/target"), vec![("important.txt".to_string(), false)]);
}

#[test]
fn test_empty_directory_pruning() {
    let mut fs = start();
    fs.create_dir_all(&p("/stow/mypackage/empty/nested/deep")).unwrap();
    fs.write(&p("/stow/mypackage/empty/nested/deep/file.txt"), b"content".to_vec()).unwrap();
    // The target has the directories already, so the file is linked deep inside.
    fs.create_dir_all(&p("/target/empty/nested/deep")).unwrap();

    assert!(stower().stow_package(&mut fs, "mypackage").is_ok());
    assert!(fs.is_link(&p("/target/empty/nested/deep/file.txt")));
    assert_eq!(
        fs.read_link(&p("/target/empty/nested/deep/file.txt")).unwrap(),
        p("../../../../stow/mypackage/empty/nested/deep/file.txt")
    );

    let plan = unstower().plan_package(&fs, "mypackage").unwrap();
    assert_eq!(
        *plan.actions(),
        vec![
            Action::RemoveLink { path: p("/target/empty/nested/deep/file.txt") },
            Action::RemoveEmptyDir { path: p("/target/empty/nested/deep") },
            Action::RemoveEmptyDir { path: p("/target/empty/nested") },
            Action::RemoveEmptyDir { path: p("/target/empty") },
        ]
    );
    assert!(unstower().unstow_package(&mut fs, "mypackage").is_ok());
    assert!(entries(&fs, "/target").is_empty());
    assert!(fs.is_dir(&p("/target")));
}

#[test]
fn test_directory_folding() {
    let mut fs = start();
    fs.create_dir_all(&p("/stow/mypackage/mydir")).unwrap();
    fs.write(&p("/stow/mypackage/mydir/file1.txt"), b"content1".to_vec()).unwrap();
    fs.write(&p("/stow/mypackage/mydir/file2.txt"), b"content2".to_vec()).unwrap();

    let plan = stower().plan_package(&fs, "mypackage").unwrap();
    assert_eq!(
        *plan.actions(),
        vec![Action::CreateDirLink {
            link_path: p("/target/mydir"),
            target_path: p("../stow/mypackage/mydir"),
        }]
    );
    assert!(stower().stow_package(&mut fs, "mypackage").is_ok());
    assert_eq!(entries(&fs, "/target"), vec![("mydir".to_string(), false)]);
    assert!(fs.is_link(&p("/target/mydir")));
    assert_eq!(fs.read(&p("/target/mydir/file1.txt")).unwrap(), b"content1".to_vec());
}

#[test]
fn test_directory_unfolding() {
    let mut fs = start();
    fs.create_dir_all(&p("/stow/package1/shared")).unwrap();
    fs.write(&p("/stow/package1/shared/file1.txt"), b"pkg1".to_vec()).unwrap();
    fs.create_dir_all(&p("/stow/package2/shared")).unwrap();
    fs.write(&p("/stow/package2/shared/file2.txt"), b"pkg2".to_vec()).unwrap();

    assert!(stower().stow_package(&mut fs, "package1").is_ok());
    assert!(fs.is_link(&p("/target/shared")));
    assert!(stower().stow_package(&mut fs, "package2").is_ok());
    assert!(!fs.is_link(&p("/target/shared")));
    assert!(fs.is_dir(&p("/target/shared")));
    assert_eq!(fs.canonicalize(&p("/target/shared/file1.txt")).unwrap(), p("/stow/package1/shared/file1.txt"));
    assert_eq!(fs.canonicalize(&p("/target/shared/file2.txt")).unwrap(), p("/stow/package2/shared/file2.txt"));
    assert_eq!(fs.read(&p("/target/shared/file1.txt")).unwrap(), b"pkg1".to_vec());
    assert_eq!(fs.read(&p("/target/shared/file2.txt")).unwrap(), b"pkg2".to_vec());
}

#[test]
fn test_restow_updates_links() {
    let mut fs = start();
    fs.create_dir(&p("/stow/mypackage")).unwrap();
    fs.write(&p("/stow/mypackage/file.txt"), b"original".to_vec()).unwrap();
    assert!(stower().stow_package(&mut fs, "mypackage").is_ok());
    fs.write(&p("/stow/mypackage/new.txt"), b"new".to_vec()).unwrap();
    // Restow: unstow, then stow.
    assert!(unstower().unstow_package(&mut fs, "mypackage").is_ok());
    assert!(stower().stow_package(&mut fs, "mypackage").is_ok());
    assert_eq!(fs.read(&p("/target/file.txt")).unwrap(), b"original".to_vec());
    assert_eq!(fs.read(&p("/target/new.txt")).unwrap(), b"new".to_vec());
}

#[test]
fn test_simple_stow_plan() {
    let mut fs = start();
    fs.create_dir(&p("/stow/pkg")).unwrap();
    fs.write(&p("/stow/pkg/a.txt"), vec![]).unwrap();
    let plan = stower().plan_package(&fs, "pkg").unwrap();
    assert_eq!(
        *plan.actions(),
        vec![Action::CreateFileLink {
            link_path: p("/target/a.txt"),
            target_path: p("../stow/pkg/a.txt"),
        }]
    );
    assert!(plan.relocations().is_empty());
    assert!(plan.execute(&mut fs, false).is_ok());
    assert_eq!(fs.read_link(&p("/target/a.txt")).unwrap(), p("../stow/pkg/a.txt"));
    assert_eq!(fs.canonicalize(&p("/target/a.txt")).unwrap(), p("/stow/pkg/a.txt"));
}

#[test]
fn test_unfold_plan() {
    let mut fs = start();
    fs.create_dir_all(&p("/stow/pkg/dir")).unwrap();
    fs.write(&p("/stow/pkg/dir/x"), vec![]).unwrap();
    fs.write(&p("/stow/pkg/dir/y"), vec![]).unwrap();
    assert!(stower().stow_package(&mut fs, "pkg").is_ok());
    fs.create_dir_all(&p("/stow/pkg2/dir")).unwrap();
    fs.write(&p("/stow/pkg2/dir/z"), vec![]).unwrap();
    let plan = stower().plan_package(&fs, "pkg2").unwrap();
    assert_eq!(
        *plan.actions(),
        vec![
            Action::UnfoldDirLink {
                link_path: p("/target/dir"),
                original_target: p("/stow/pkg/dir"),
            },
            Action::CreateFileLink {
                link_path: p("/target/dir/x"),
                target_path: p("../../stow/pkg/dir/x"),
            },
            Action::CreateFileLink {
                link_path: p("/target/dir/y"),
                target_path: p("../../stow/pkg/dir/y"),
            },
            Action::CreateFileLink {
                link_path: p("/target/dir/z"),
                target_path: p("../../stow/pkg2/dir/z"),
            },
        ]
    );
    assert!(plan.execute(&mut fs, false).is_ok());
    assert!(!fs.is_link(&p("/target/dir")));
    assert_eq!(
        entries(&fs, "/target/dir"),
        vec![("x".to_string(), false), ("y".to_string(), false), ("z".to_string(), false)]
    );
    assert_eq!(fs.canonicalize(&p("/target/dir/x")).unwrap(), p("/stow/pkg/dir/x"));
    assert_eq!(fs.canonicalize(&p("/target/dir/z")).unwrap(), p("/stow/pkg2/dir/z"));
}

#[test]
fn test_unfold_with_shared_names() {
    let mut fs = start();
    fs.create_dir_all(&p("/stow/one/dir/sub")).unwrap();
    fs.write(&p("/stow/one/dir/f"), vec![]).unwrap();
    fs.write(&p("/stow/one/dir/sub/a"), vec![]).unwrap();
    fs.create_dir_all(&p("/stow/two/dir/sub")).unwrap();
    fs.write(&p("/stow/two/dir/sub/b"), vec![]).unwrap();
    assert!(stower().stow_package(&mut fs, "one").is_ok());
    // Both packages have dir/sub: the link made for the first is unfolded in turn.
    let plan = stower().plan_package(&fs, "two").unwrap();
    assert_eq!(
        *plan.actions(),
        vec![
            Action::UnfoldDirLink { link_path: p("/target/dir"), original_target: p("/stow/one/dir") },
            Action::CreateDirLink {
                link_path: p("/target/dir/sub"),
                target_path: p("../../stow/one/dir/sub"),
            },
            Action::CreateFileLink {
                link_path: p("/target/dir/f"),
                target_path: p("../../stow/one/dir/f"),
            },
            Action::UnfoldDirLink {
                link_path: p("/target/dir/sub"),
                original_target: p("/stow/one/dir/sub"),
            },
            Action::CreateFileLink {
                link_path: p("/target/dir/sub/a"),
                target_path: p("../../../stow/one/dir/sub/a"),
            },
            Action::CreateFileLink {
                link_path: p("/target/dir/sub/b"),
                target_path: p("../../../stow/two/dir/sub/b"),
            },
        ]
    );
    assert!(plan.execute(&mut fs, false).is_ok());
    assert_eq!(fs.canonicalize(&p("/target/dir/sub/a")).unwrap(), p("/stow/one/dir/sub/a"));
    assert_eq!(fs.canonicalize(&p("/target/dir/sub/b")).unwrap(), p("/stow/two/dir/sub/b"));
    assert_eq!(fs.canonicalize(&p("/target/dir/f")).unwrap(), p("/stow/one/dir/f"));
    // A file that both have is a conflict.
    fs.write(&p("/stow/three"), vec![]).unwrap();
    fs.remove_file(&p("/stow/three")).unwrap();
    fs.create_dir_all(&p("/stow/three/dir")).unwrap();
    fs.write(&p("/stow/three/dir/f"), vec![]).unwrap();
    match stower().plan_package(&fs, "three") {
        Err(StowError::Conflict { path }) => assert_eq!(path, p("/target/dir/f")),
        other => panic!("unexpected {:?}", other.map(|_| ())),
    }
}

#[test]
fn test_ignore_and_defer_together() {
    let mut fs = start();
    fs.create_dir(&p("/stow/pkg")).unwrap();
    fs.write(&p("/stow/pkg/a.bak"), vec![]).unwrap();
    fs.write(&p("/stow/pkg/keep.txt"), vec![]).unwrap();
    fs.write(&p("/target/keep.txt"), vec![]).unwrap();
    let patterns = || PatternSet::new(&["*.bak".to_string()], &["keep.txt".to_string()]).unwrap();
    let plan = stower().with_patterns(patterns()).plan_package(&fs, "pkg").unwrap();
    assert_eq!(plan.len(), 0);
    fs.write(&p("/stow/pkg/new.txt"), vec![]).unwrap();
    let plan = stower().with_patterns(patterns()).plan_package(&fs, "pkg").unwrap();
    assert_eq!(
        *plan.actions(),
        vec![Action::CreateFileLink {
            link_path: p("/target/new.txt"),
            target_path: p("../stow/pkg/new.txt"),
        }]
    );
}

#[test]
fn test_second_stow_of_files_plans_nothing() {
    let mut fs = start();
    fs.create_dir_all(&p("/stow/pkg/etc")).unwrap();
    fs.write(&p("/stow/pkg/a"), vec![]).unwrap();
    fs.write(&p("/stow/pkg/etc/b"), vec![]).unwrap();
    fs.create_dir(&p("/target/etc")).unwrap();
    assert!(stower().stow_package(&mut fs, "pkg").is_ok());
    let again = stower().plan_package(&fs, "pkg").unwrap();
    assert_eq!(again.len(), 0);
    assert!(again.relocations().is_empty());
    let before = fs.journal().len();
    assert!(stower().stow_package(&mut fs, "pkg").is_ok());
    assert_eq!(fs.journal().len(), before);
}

#[test]
fn test_second_stow_links_a_folded_directory_again() {
    let mut fs = start();
    fs.create_dir_all(&p("/stow/pkg/dir")).unwrap();
    assert!(stower().stow_package(&mut fs, "pkg").is_ok());
    let again = stower().plan_package(&fs, "pkg").unwrap();
    assert_eq!(
        *again.actions(),
        vec![Action::CreateDirLink { link_path: p("/target/dir"), target_path: p("../stow/pkg/dir") }]
    );
    assert!(matches!(
        stower().stow_package(&mut fs, "pkg"),
        Err(StowError::SymlinkError { .. })
    ));
}

#[test]
fn test_round_trip_restores_target() {
    let mut fs = start();
    fs.create_dir_all(&p("/stow/pkg/dir/deep")).unwrap();
    fs.write(&p("/stow/pkg/a"), vec![]).unwrap();
    fs.write(&p("/stow/pkg/dir/deep/b"), vec![]).unwrap();
    fs.write(&p("/target/mine"), b"mine".to_vec()).unwrap();
    fs.symlink(&p("/target/foreign"), &p("/stow"), true).unwrap();
    let before = entries(&fs, "/target");
    assert!(stower().stow_package(&mut fs, "pkg").is_ok());
    assert_eq!(entries(&fs, "/target").len(), before.len() + 2);
    assert!(unstower().unstow_package(&mut fs, "pkg").is_ok());
    assert_eq!(entries(&fs, "/target"), before);
    assert_eq!(fs.read(&p("/target/mine")).unwrap(), b"mine".to_vec());
    assert_eq!(fs.read_link(&p("/target/foreign")).unwrap(), p("/stow"));
}

#[test]
fn test_links_lead_to_their_sources() {
    let mut fs = start();
    fs.create_dir_all(&p("/stow/pkg/x/y")).unwrap();
    fs.write(&p("/stow/pkg/x/y/f"), vec![]).unwrap();
    fs.write(&p("/stow/pkg/top"), vec![]).unwrap();
    fs.create_dir_all(&p("/target/x")).unwrap();
    let plan = stower().plan_package(&fs, "pkg").unwrap();
    assert_eq!(plan.len(), 2);
    for action in plan.actions() {
        match action {
            Action::CreateFileLink { link_path, target_path }
            | Action::CreateDirLink { link_path, target_path } => {
                let home = normalize_path(&fs, &link_path.parent().unwrap()).unwrap();
                let source = p("/stow/pkg").join(&compute_relative_path(&p("/target"), link_path).unwrap());
                assert_eq!(home.join(target_path), normalize_path(&fs, &source).unwrap());
            }
            other => panic!("unexpected {:?}", other),
        }
    }
}

#[test]
fn test_no_two_links_at_one_path() {
    let mut fs = start();
    fs.create_dir_all(&p("/stow/pkg/a/b")).unwrap();
    fs.create_dir_all(&p("/stow/pkg/c")).unwrap();
    for f in ["/stow/pkg/a/1", "/stow/pkg/a/b/2", "/stow/pkg/c/3", "/stow/pkg/4"] {
        fs.write(&p(f), vec![]).unwrap();
    }
    fs.create_dir_all(&p("/target/a/b")).unwrap();
    let plan = stower().plan_package(&fs, "pkg").unwrap();
    let mut links: Vec<String> = plan
        .actions()
        .iter()
        .map(|a| match a {
            Action::CreateFileLink { link_path, .. } | Action::CreateDirLink { link_path, .. } => {
                link_path.to_string()
            }
            other => panic!("unexpected {:?}", other),
        })
        .collect();
    assert_eq!(links.len(), 4);
    links.sort();
    links.dedup();
    assert_eq!(links, vec!["/target/4", "/target/a/1", "/target/a/b/2", "/target/c"]);
}

#[test]
fn test_dry_run_changes_nothing() {
    let mut fs = start();
    fs.create_dir(&p("/stow/pkg")).unwrap();
    fs.write(&p("/stow/pkg/a"), vec![]).unwrap();
    fs.write(&p("/target/a"), vec![9]).unwrap();
    let before = fs.journal().len();
    let dry = Stower::new(p("/stow"), p("/target"), false, true)
        .with_conflict_strategy(ConflictStrategy::Adopt);
    assert!(dry.stow_package(&mut fs, "pkg").is_ok());
    assert_eq!(fs.journal().len(), before);
    assert_eq!(fs.read(&p("/target/a")).unwrap(), vec![9]);
    let wet = Stower::new(p("/stow"), p("/target"), false, false)
        .with_conflict_strategy(ConflictStrategy::Adopt);
    assert_eq!(*dry.plan_package(&fs, "pkg").unwrap().actions(), *wet.plan_package(&fs, "pkg").unwrap().actions());
}

#[test]
fn test_override_links_over_an_unfolded_link() {
    let mut fs = start();
    fs.create_dir_all(&p("/stow/one/dir")).unwrap();
    fs.write(&p("/stow/one/dir/f"), vec![1]).unwrap();
    fs.create_dir_all(&p("/stow/two/dir")).unwrap();
    fs.write(&p("/stow/two/dir/f"), vec![2]).unwrap();
    assert!(stower().stow_package(&mut fs, "one").is_ok());
    // Both packages have dir/f. Overriding leaves links alone, so the file
    // of the second package is linked where the first is linked already.
    let overriding = stower().with_conflict_strategy(ConflictStrategy::Override);
    let plan = overriding.plan_package(&fs, "two").unwrap();
    assert_eq!(
        *plan.actions(),
        vec![
            Action::UnfoldDirLink { link_path: p("/target/dir"), original_target: p("/stow/one/dir") },
            Action::CreateFileLink {
                link_path: p("/target/dir/f"),
                target_path: p("../../stow/one/dir/f"),
            },
            Action::CreateFileLink {
                link_path: p("/target/dir/f"),
                target_path: p("../../stow/two/dir/f"),
            },
        ]
    );
    assert!(plan.relocations().is_empty());
    assert!(matches!(plan.execute(&mut fs, false), Err(StowError::SymlinkError { .. })));
    assert_eq!(fs.read(&p("/target/dir/f")).unwrap(), vec![1]);
}

#[test]
fn test_round_trip_leaves_the_link_of_a_dead_entry() {
    let mut fs = start();
    fs.create_dir(&p("/stow/pkg")).unwrap();
    fs.write(&p("/stow/pkg/live"), vec![]).unwrap();
    fs.symlink(&p("/stow/pkg/dead"), &p("/nowhere"), false).unwrap();
    assert!(stower().stow_package(&mut fs, "pkg").is_ok());
    assert!(fs.is_link(&p("/target/live")));
    assert!(fs.is_link(&p("/target/dead")));
    // The link of the dead entry leads to nothing, so removing the package
    // does not find it.
    assert!(unstower().unstow_package(&mut fs, "pkg").is_ok());
    assert!(!fs.is_link(&p("/target/live")));
    assert!(fs.is_link(&p("/target/dead")));
}
