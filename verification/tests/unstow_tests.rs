use winstow::error::StowError;
use winstow::fs_ops::FileSystem;
use winstow::path_utils::StowPath;
use winstow::planner::{Action, Plan};
use winstow::stow::Stower;
use winstow::unstow::Unstower;

fn p(text: &str) -> StowPath {
    StowPath::parse(text)
}

fn temp() -> (FileSystem, StowPath, StowPath) {
    let mut fs = FileSystem::new();
    fs.create_dir_all(&p("/tmp/stow")).unwrap();
    fs.create_dir_all(&p("/tmp/target")).unwrap();
    (fs, p("/tmp/stow"), p("/tmp/target"))
}

#[test]
fn test_unstower_creation() {
    let unstower = Unstower::new(p("/stow"), p("/target"), false, true);
    assert_eq!(*unstower.stow_dir(), p("/stow"));
    assert_eq!(*unstower.target_dir(), p("/target"));
}

#[test]
fn test_unstow_nonexistent_package() {
    let mut fs = FileSystem::new();
    fs.create_dir(&p("/tmp")).unwrap();
    let unstower = Unstower::new(p("/tmp"), p("/tmp"), false, true);

    let result = unstower.unstow_package(&mut fs, "nonexistent");
    assert!(result.is_err());
    assert!(matches!(result.unwrap_err(), StowError::PackageNotFound { .. }));
}

#[test]
fn test_unstow_with_no_links() {
    let (mut fs, stow_dir, target_dir) = temp();
    let package_dir = stow_dir.child("mypackage");
    fs.create_dir(&package_dir).unwrap();
    fs.write(&package_dir.child("file.txt"), vec![]).unwrap();

    let unstower = Unstower::new(stow_dir, target_dir, false, true);
    let result = unstower.unstow_package(&mut fs, "mypackage");
    assert!(result.is_ok());
}

#[test]
fn test_unstow_skips_non_symlinks() {
    let (mut fs, stow_dir, target_dir) = temp();
    let package_dir = stow_dir.child("mypackage");
    fs.create_dir(&package_dir).unwrap();
    fs.write(&package_dir.child("file.txt"), vec![]).unwrap();
    fs.write(&target_dir.child("file.txt"), vec![]).unwrap();

    let unstower = Unstower::new(stow_dir, target_dir.clone(), false, true);
    let result = unstower.unstow_package(&mut fs, "mypackage");
    assert!(result.is_ok());

    assert!(fs.path_exists(&target_dir.child("file.txt")));
}

#[test]
fn test_unstow_package_not_directory() {
    let (mut fs, stow_dir, target_dir) = temp();
    fs.write(&stow_dir.child("notadir"), vec![]).unwrap();

    let unstower = Unstower::new(stow_dir, target_dir, false, true);
    let result = unstower.unstow_package(&mut fs, "notadir");
    assert!(result.is_err());
    assert!(matches!(result.unwrap_err(), StowError::IoError { .. }));
}

#[test]
fn test_unstow_nested_structure() {
    let (mut fs, stow_dir, target_dir) = temp();
    let package_dir = stow_dir.child("mypackage");
    fs.create_dir_all(&package_dir.child("subdir")).unwrap();
    fs.write(&package_dir.child("file1.txt"), vec![]).unwrap();
    fs.write(&p("/tmp/stow/mypackage/subdir/file2.txt"), vec![]).unwrap();

    let unstower = Unstower::new(stow_dir, target_dir, false, true);
    let result = unstower.unstow_package(&mut fs, "mypackage");
    assert!(result.is_ok());
}

#[test]
fn test_unstow_empty_package() {
    let (mut fs, stow_dir, target_dir) = temp();
    fs.create_dir(&stow_dir.child("mypackage")).unwrap();

    let unstower = Unstower::new(stow_dir, target_dir, false, true);
    let result = unstower.unstow_package(&mut fs, "mypackage");
    assert!(result.is_ok());
}

#[test]
fn test_unstow_multiple_files() {
    let (mut fs, stow_dir, target_dir) = temp();
    let package_dir = stow_dir.child("mypackage");
    fs.create_dir(&package_dir).unwrap();
    fs.write(&package_dir.child("file1.txt"), vec![]).unwrap();
    fs.write(&package_dir.child("file2.txt"), vec![]).unwrap();
    fs.write(&package_dir.child("file3.txt"), vec![]).unwrap();

    let unstower = Unstower::new(stow_dir, target_dir, false, true);
    let result = unstower.unstow_package(&mut fs, "mypackage");
    assert!(result.is_ok());
}

#[test]
fn test_unstow_removes_owned_links_only() {
    let (mut fs, stow_dir, target_dir) = temp();
    fs.create_dir(&p("/tmp/stow/pkg")).unwrap();
    fs.write(&p("/tmp/stow/pkg/a"), vec![]).unwrap();
    fs.write(&p("/tmp/stow/pkg/b"), vec![]).unwrap();
    fs.create_dir(&p("/tmp/stow/pkg/dir")).unwrap();
    fs.write(&p("/tmp/stow/pkg/dir/c"), vec![]).unwrap();
    fs.write(&p("/tmp/stow/pkg/dir/d"), vec![]).unwrap();
    fs.create_dir_all(&p("/tmp/stow/other")).unwrap();
    fs.write(&p("/tmp/stow/other/b"), vec![]).unwrap();
    fs.write(&p("/tmp/elsewhere"), vec![]).unwrap();
    fs.symlink(&p("/tmp/target/a"), &p("../stow/pkg/a"), false).unwrap();
    fs.symlink(&p("/tmp/target/b"), &p("../stow/other/b"), false).unwrap();
    fs.create_dir(&p("/tmp/target/dir")).unwrap();
    fs.symlink(&p("/tmp/target/dir/c"), &p("/tmp/stow/pkg/dir/c"), false).unwrap();
    fs.symlink(&p("/tmp/target/dir/d"), &p("/tmp/elsewhere"), false).unwrap();
    fs.symlink(&p("/tmp/target/foreign"), &p("/tmp/elsewhere"), false).unwrap();
    let unstower = Unstower::new(stow_dir, target_dir, false, false);
    let plan = unstower.plan_package(&fs, "pkg").unwrap();
    assert_eq!(
        *plan.actions(),
        vec![
            Action::RemoveLink { path: p("/tmp/target/a") },
            Action::RemoveLink { path: p("/tmp/target/dir/c") },
            Action::RemoveEmptyDir { path: p("/tmp/target/dir") },
        ]
    );
    assert!(plan.relocations().is_empty());
    // The directory still holds a link that is not ours: pruning it fails.
    match unstower.unstow_package(&mut fs, "pkg") {
        Err(StowError::DirectoryNotEmpty(path)) => assert_eq!(path, p("/tmp/target/dir")),
        other => panic!("unexpected {:?}", other),
    }
    assert!(!fs.is_link(&p("/tmp/target/a")));
    assert!(!fs.is_link(&p("/tmp/target/dir/c")));
    assert!(fs.is_link(&p("/tmp/target/b")));
    assert!(fs.is_link(&p("/tmp/target/dir/d")));
    assert!(fs.is_link(&p("/tmp/target/foreign")));
}

#[test]
fn test_unstow_folded_directory() {
    let (mut fs, stow_dir, target_dir) = temp();
    fs.create_dir_all(&p("/tmp/stow/pkg/dir")).unwrap();
    fs.write(&p("/tmp/stow/pkg/dir/x"), vec![]).unwrap();
    fs.create_dir_all(&p("/tmp/stow/other/dir")).unwrap();
    fs.symlink(&p("/tmp/target/dir"), &p("../stow/pkg/dir"), true).unwrap();
    let unstower = Unstower::new(stow_dir.clone(), target_dir.clone(), false, false);
    assert_eq!(
        *unstower.plan_package(&fs, "pkg").unwrap().actions(),
        vec![Action::RemoveLink { path: p("/tmp/target/dir") }]
    );
    // A directory link of another package is left alone.
    assert_eq!(unstower.plan_package(&fs, "other").unwrap().len(), 0);
    assert!(unstower.unstow_package(&mut fs, "pkg").is_ok());
    assert!(!fs.path_exists(&p("/tmp/target/dir")));
    assert!(fs.path_exists(&p("/tmp/stow/pkg/dir/x")));
}

#[test]
fn test_unstow_without_target() {
    let (mut fs, stow_dir, _) = temp();
    fs.create_dir(&p("/tmp/stow/pkg")).unwrap();
    fs.write(&p("/tmp/stow/pkg/a"), vec![]).unwrap();
    let unstower = Unstower::new(stow_dir, p("/tmp/none"), false, false);
    assert_eq!(unstower.plan_package(&fs, "pkg").unwrap().len(), 0);
    assert!(unstower.unstow_package(&mut fs, "pkg").is_ok());
}

#[test]
fn test_plan_unstow_file_alone() {
    let (mut fs, stow_dir, target_dir) = temp();
    fs.create_dir(&p("/tmp/stow/pkg")).unwrap();
    fs.write(&p("/tmp/stow/pkg/a"), vec![]).unwrap();
    fs.symlink(&p("/tmp/target/a"), &p("../stow/pkg/a"), false).unwrap();
    let unstower = Unstower::new(stow_dir, target_dir, false, false);
    let mut plan = Plan::new();
    assert!(unstower.plan_unstow_file(&fs, &p("/tmp/stow/pkg/a"), &p("/tmp/target/a"), &mut plan).is_ok());
    assert!(unstower.plan_unstow_file(&fs, &p("/tmp/stow/pkg/b"), &p("/tmp/target/a"), &mut plan).is_ok());
    assert!(unstower.plan_unstow_file(&fs, &p("/tmp/stow/pkg/a"), &p("/tmp/target"), &mut plan).is_ok());
    assert_eq!(*plan.actions(), vec![Action::RemoveLink { path: p("/tmp/target/a") }]);
    let mut other = Plan::new();
    assert!(unstower
        .plan_unstow_directory(&fs, &p("/tmp/stow/pkg"), &p("/tmp/target"), &mut other)
        .is_ok());
    assert_eq!(*other.actions(), vec![Action::RemoveLink { path: p("/tmp/target/a") }]);
    let stower = Stower::new(p("/tmp/stow"), p("/tmp/target"), false, false);
    assert_eq!(stower.plan_package(&fs, "pkg").unwrap().len(), 0);
}
