use winstow::error::StowError;
use winstow::fs_ops::FileSystem;
use winstow::path_utils::StowPath;
use winstow::planner::{execute_action, relocate, Action, Plan, Relocation};

fn p(text: &str) -> StowPath {
    StowPath::parse(text)
}

#[test]
fn test_plan_creation() {
    let mut plan = Plan::new();
    assert_eq!(plan.len(), 0);

    plan.add(Action::CreateFileLink { link_path: p("link"), target_path: p("target") });

    assert_eq!(plan.len(), 1);
}

#[test]
fn test_execute_dry_run() {
    let mut fs = FileSystem::new();
    let mut plan = Plan::new();
    plan.add(Action::CreateFileLink {
        link_path: p("/nonexistent/link"),
        target_path: p("/nonexistent/target"),
    });

    // Dry run should not fail even with invalid paths
    let result = plan.execute(&mut fs, true);
    assert!(result.is_ok());
    assert!(!fs.path_exists(&p("/nonexistent")));
    assert!(fs.journal().is_empty());
}

#[test]
fn test_execute_create_dir_link_dry_run() {
    let mut fs = FileSystem::new();
    let mut plan = Plan::new();
    plan.add(Action::CreateDirLink {
        link_path: p("/nonexistent/link"),
        target_path: p("/nonexistent/target"),
    });

    let result = plan.execute(&mut fs, true);
    assert!(result.is_ok());
}

#[test]
fn test_execute_unfold_dir_link_dry_run() {
    let mut fs = FileSystem::new();
    let mut plan = Plan::new();
    plan.add(Action::UnfoldDirLink {
        link_path: p("/nonexistent/link"),
        original_target: p("/nonexistent/target"),
    });

    let result = plan.execute(&mut fs, true);
    assert!(result.is_ok());
}

#[test]
fn test_execute_remove_link_dry_run() {
    let mut fs = FileSystem::new();
    let mut plan = Plan::new();
    plan.add(Action::RemoveLink { path: p("/nonexistent/link") });

    let result = plan.execute(&mut fs, true);
    assert!(result.is_ok());
}

#[test]
fn test_execute_remove_empty_dir_dry_run() {
    let mut fs = FileSystem::new();
    let mut plan = Plan::new();
    plan.add(Action::RemoveEmptyDir { path: p("/nonexistent/dir") });

    let result = plan.execute(&mut fs, true);
    assert!(result.is_ok());
}

#[test]
fn test_plan_multiple_action_types() {
    let mut fs = FileSystem::new();
    let mut plan = Plan::new();

    plan.add(Action::CreateFileLink { link_path: p("link1"), target_path: p("target1") });
    plan.add(Action::CreateDirLink { link_path: p("link2"), target_path: p("target2") });
    plan.add(Action::RemoveLink { path: p("link3") });

    assert_eq!(plan.len(), 3);

    let result = plan.execute(&mut fs, true);
    assert!(result.is_ok());
}

#[test]
fn test_plan_len() {
    let mut plan = Plan::new();
    assert_eq!(plan.len(), 0);

    plan.add(Action::CreateFileLink { link_path: p("link"), target_path: p("target") });
    assert_eq!(plan.len(), 1);

    plan.add(Action::RemoveLink { path: p("link2") });
    assert_eq!(plan.len(), 2);
}

#[test]
fn test_execute_creates_links_and_parents() {
    let mut fs = FileSystem::new();
    fs.create_dir_all(&p("/stow/pkg/dir")).unwrap();
    fs.write(&p("/stow/pkg/a.txt"), b"a".to_vec()).unwrap();
    let mut plan = Plan::new();
    plan.add(Action::CreateFileLink {
        link_path: p("/target/sub/a.txt"),
        target_path: p("../../stow/pkg/a.txt"),
    });
    plan.add(Action::CreateDirLink {
        link_path: p("/target/dir"),
        target_path: p("../stow/pkg/dir"),
    });
    assert!(plan.execute(&mut fs, false).is_ok());
    assert!(fs.is_dir(&p("/target/sub")));
    assert!(fs.is_link(&p("/target/sub/a.txt")));
    assert_eq!(fs.read_link(&p("/target/sub/a.txt")).unwrap(), p("../../stow/pkg/a.txt"));
    assert_eq!(fs.read(&p("/target/sub/a.txt")).unwrap(), b"a".to_vec());
    assert!(fs.is_link(&p("/target/dir")));
    assert!(fs.is_dir(&p("/target/dir")));
    assert_eq!(plan.actions().len(), 2);
    assert!(plan.relocations().is_empty());
}

#[test]
fn test_execute_stops_at_first_failure() {
    let mut fs = FileSystem::new();
    fs.create_dir(&p("/t")).unwrap();
    fs.write(&p("/t/a"), vec![]).unwrap();
    let mut plan = Plan::new();
    plan.add(Action::CreateFileLink { link_path: p("/t/x"), target_path: p("a") });
    plan.add(Action::CreateFileLink { link_path: p("/t/a"), target_path: p("x") });
    plan.add(Action::CreateFileLink { link_path: p("/t/y"), target_path: p("a") });
    match plan.execute(&mut fs, false) {
        Err(StowError::SymlinkError { path, message }) => {
            assert_eq!(path, p("/t/a"));
            assert_eq!(message, "Failed to create symlink: entity already exists");
        }
        other => panic!("unexpected {:?}", other),
    }
    assert!(fs.is_link(&p("/t/x")));
    assert!(!fs.path_exists(&p("/t/y")));
}

#[test]
fn test_execute_unfold_and_remove() {
    let mut fs = FileSystem::new();
    fs.create_dir_all(&p("/stow/pkg/dir")).unwrap();
    fs.create_dir(&p("/target")).unwrap();
    fs.symlink(&p("/target/dir"), &p("../stow/pkg/dir"), true).unwrap();
    let unfold =
        Action::UnfoldDirLink { link_path: p("/target/dir"), original_target: p("/stow/pkg/dir") };
    assert!(execute_action(&mut fs, &unfold, false).is_ok());
    assert!(!fs.is_link(&p("/target/dir")));
    assert!(fs.is_dir(&p("/target/dir")));
    assert!(fs.is_dir(&p("/stow/pkg/dir")));
    // What is no link is not unfolded.
    assert!(matches!(
        execute_action(&mut fs, &unfold, false),
        Err(StowError::IoError { .. })
    ));
    let prune = Action::RemoveEmptyDir { path: p("/target/dir") };
    assert!(execute_action(&mut fs, &prune, false).is_ok());
    assert!(!fs.path_exists(&p("/target/dir")));
    fs.symlink(&p("/target/l"), &p("/stow"), true).unwrap();
    let remove = Action::RemoveLink { path: p("/target/l") };
    assert!(execute_action(&mut fs, &remove, false).is_ok());
    assert!(!fs.is_link(&p("/target/l")));
    assert!(fs.is_dir(&p("/stow")));
    assert!(matches!(execute_action(&mut fs, &remove, false), Err(StowError::IoError { .. })));
}

#[test]
fn test_remove_empty_dir_reports_entries() {
    let mut fs = FileSystem::new();
    fs.create_dir_all(&p("/t/d")).unwrap();
    fs.write(&p("/t/d/f"), vec![]).unwrap();
    let prune = Action::RemoveEmptyDir { path: p("/t/d") };
    match execute_action(&mut fs, &prune, false) {
        Err(StowError::DirectoryNotEmpty(path)) => assert_eq!(path, p("/t/d")),
        other => panic!("unexpected {:?}", other),
    }
    assert!(fs.path_exists(&p("/t/d/f")));
}

#[test]
fn test_permission_denied_is_reported() {
    let mut fs = FileSystem::new();
    fs.create_dir(&p("/t")).unwrap();
    fs.set_links_allowed(false);
    assert!(!fs.links_allowed());
    let create = Action::CreateFileLink { link_path: p("/t/l"), target_path: p("x") };
    match execute_action(&mut fs, &create, false) {
        Err(StowError::PermissionDenied(m)) => assert_eq!(m, "Cannot create symlink at /t/l"),
        other => panic!("unexpected {:?}", other),
    }
    assert!(!fs.is_link(&p("/t/l")));
}

#[test]
fn test_relocations_run_before_actions() {
    let mut fs = FileSystem::new();
    fs.create_dir_all(&p("/stow/pkg")).unwrap();
    fs.write(&p("/stow/pkg/a"), b"package".to_vec()).unwrap();
    fs.create_dir(&p("/target")).unwrap();
    fs.write(&p("/target/a"), b"target".to_vec()).unwrap();
    let mut plan = Plan::new();
    plan.add(Action::CreateFileLink { link_path: p("/target/a"), target_path: p("../stow/pkg/a") });
    plan.add_relocation(Relocation::AdoptFile { target: p("/target/a"), package: p("/stow/pkg/a") });
    assert_eq!(plan.len(), 1);
    assert_eq!(plan.relocations().len(), 1);
    assert!(plan.execute(&mut fs, false).is_ok());
    assert!(fs.is_link(&p("/target/a")));
    assert_eq!(fs.read(&p("/stow/pkg/a")).unwrap(), b"target".to_vec());

    let mut other = Plan::new();
    other.add_relocation(Relocation::Override { target: p("/stow/pkg/a") });
    plan.append(other);
    assert_eq!(plan.relocations().len(), 2);
    let gone = Relocation::Override { target: p("/stow/pkg/a") };
    assert!(relocate(&mut fs, &gone, true).is_ok());
    assert!(fs.path_exists(&p("/stow/pkg/a")));
    assert!(relocate(&mut fs, &gone, false).is_ok());
    assert!(!fs.path_exists(&p("/stow/pkg/a")));
}
