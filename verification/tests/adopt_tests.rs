use winstow::adopt::{adopt_directory, adopt_file, override_file};
use winstow::error::{IoErrorKind, StowError};
use winstow::fs_ops::FileSystem;
use winstow::path_utils::StowPath;

fn p(text: &str) -> StowPath {
    StowPath::parse(text)
}

fn temp() -> FileSystem {
    let mut fs = FileSystem::new();
    fs.create_dir(&p("/tmp")).unwrap();
    fs
}

#[test]
fn test_adopt_file() {
    let mut fs = temp();
    let target_file = p("/tmp/target_file.txt");
    let package_file = p("/tmp/package/file.txt");

    fs.write(&target_file, b"test content".to_vec()).unwrap();

    let result = adopt_file(&mut fs, &target_file, &package_file, false);
    assert!(result.is_ok());

    assert!(!fs.path_exists(&target_file));
    assert!(fs.path_exists(&package_file));

    let content = fs.read(&package_file).unwrap();
    assert_eq!(content, b"test content".to_vec());
}

#[test]
fn test_adopt_file_dry_run() {
    let mut fs = temp();
    let target_file = p("/tmp/target_file.txt");
    let package_file = p("/tmp/package/file.txt");

    fs.write(&target_file, vec![]).unwrap();

    let result = adopt_file(&mut fs, &target_file, &package_file, true);
    assert!(result.is_ok());

    assert!(fs.path_exists(&target_file));
    assert!(!fs.path_exists(&package_file));
}

#[test]
fn test_override_file() {
    let mut fs = temp();
    let target_file = p("/tmp/target_file.txt");
    fs.write(&target_file, vec![]).unwrap();

    let result = override_file(&mut fs, &target_file, false);
    assert!(result.is_ok());
    assert!(!fs.path_exists(&target_file));
}

#[test]
fn test_override_file_dry_run() {
    let mut fs = temp();
    let target_file = p("/tmp/target_file.txt");
    fs.write(&target_file, vec![]).unwrap();

    let result = override_file(&mut fs, &target_file, true);
    assert!(result.is_ok());
    assert!(fs.path_exists(&target_file));
}

#[test]
fn test_override_directory() {
    let mut fs = temp();
    let target_dir = p("/tmp/target_dir");
    fs.create_dir(&target_dir).unwrap();
    fs.write(&target_dir.child("file.txt"), vec![]).unwrap();

    let result = override_file(&mut fs, &target_dir, false);
    assert!(result.is_ok());
    assert!(!fs.path_exists(&target_dir));
}

#[test]
fn test_adopt_directory() {
    let mut fs = temp();
    let target_dir = p("/tmp/target_dir");
    let package_dir = p("/tmp/package/dir");

    fs.create_dir(&target_dir).unwrap();
    fs.write(&target_dir.child("file.txt"), vec![]).unwrap();

    let result = adopt_directory(&mut fs, &target_dir, &package_dir, false);
    assert!(result.is_ok());

    assert!(!fs.path_exists(&target_dir));
    assert!(fs.path_exists(&package_dir));
    assert!(fs.path_exists(&package_dir.child("file.txt")));
}

#[test]
fn test_adopt_file_nonexistent() {
    let mut fs = temp();
    let target_file = p("/tmp/nonexistent.txt");
    let package_file = p("/tmp/package/file.txt");

    let result = adopt_file(&mut fs, &target_file, &package_file, false);
    assert!(result.is_err());
    assert!(matches!(result.unwrap_err(), StowError::InvalidPath(_)));
}

#[test]
fn test_adopt_file_symlink() {
    let mut fs = temp();
    let real_file = p("/tmp/real.txt");
    let symlink_file = p("/tmp/symlink.txt");
    let package_file = p("/tmp/package/file.txt");

    fs.write(&real_file, vec![]).unwrap();
    fs.symlink(&symlink_file, &real_file, false).unwrap();

    let result = adopt_file(&mut fs, &symlink_file, &package_file, false);
    assert!(result.is_err());
    assert!(matches!(result.unwrap_err(), StowError::InvalidPath(_)));
}

#[test]
fn test_override_file_nonexistent() {
    let mut fs = temp();
    let result = override_file(&mut fs, &p("/tmp/nonexistent.txt"), false);
    assert!(result.is_ok());
}

#[test]
fn test_override_file_symlink() {
    let mut fs = temp();
    let real_file = p("/tmp/real.txt");
    let symlink_file = p("/tmp/symlink.txt");

    fs.write(&real_file, vec![]).unwrap();
    fs.symlink(&symlink_file, &real_file, false).unwrap();

    let result = override_file(&mut fs, &symlink_file, false);
    assert!(result.is_ok());
    assert!(fs.path_exists(&symlink_file));
}

#[test]
fn test_adopt_directory_dry_run() {
    let mut fs = temp();
    let target_dir = p("/tmp/target_dir");
    let package_dir = p("/tmp/package/dir");

    fs.create_dir(&target_dir).unwrap();
    fs.write(&target_dir.child("file.txt"), vec![]).unwrap();

    let result = adopt_directory(&mut fs, &target_dir, &package_dir, true);
    assert!(result.is_ok());

    assert!(fs.path_exists(&target_dir));
    assert!(!fs.path_exists(&package_dir));
}

#[test]
fn test_adopt_directory_nested() {
    let mut fs = temp();
    let target_dir = p("/tmp/target_dir");
    let package_dir = p("/tmp/package/dir");

    fs.create_dir_all(&target_dir.child("subdir")).unwrap();
    fs.write(&target_dir.child("file1.txt"), vec![]).unwrap();
    fs.write(&p("/tmp/target_dir/subdir/file2.txt"), vec![]).unwrap();

    let result = adopt_directory(&mut fs, &target_dir, &package_dir, false);
    assert!(result.is_ok());

    assert!(!fs.path_exists(&target_dir));
    assert!(fs.path_exists(&package_dir));
    assert!(fs.path_exists(&package_dir.child("file1.txt")));
    assert!(fs.path_exists(&p("/tmp/package/dir/subdir/file2.txt")));
}

#[test]
fn test_adopt_messages_are_exact() {
    let mut fs = temp();
    fs.symlink(&p("/tmp/l"), &p("/tmp"), true).unwrap();
    match adopt_file(&mut fs, &p("/tmp/none"), &p("/tmp/p"), true) {
        Err(StowError::InvalidPath(m)) => assert_eq!(m, "Target file does not exist: /tmp/none"),
        other => panic!("unexpected {:?}", other),
    }
    match adopt_file(&mut fs, &p("/tmp/l"), &p("/tmp/p"), true) {
        Err(StowError::InvalidPath(m)) => {
            assert_eq!(m, "Target is already a symlink, cannot adopt: /tmp/l")
        }
        other => panic!("unexpected {:?}", other),
    }
    match adopt_directory(&mut fs, &p("/tmp/none"), &p("/tmp/p"), false) {
        Err(StowError::InvalidPath(m)) => {
            assert_eq!(m, "Target directory does not exist: /tmp/none")
        }
        other => panic!("unexpected {:?}", other),
    }
    match adopt_directory(&mut fs, &p("/tmp/l"), &p("/tmp/p"), false) {
        Err(StowError::InvalidPath(m)) => {
            assert_eq!(m, "Target is already a symlink, cannot adopt: /tmp/l")
        }
        other => panic!("unexpected {:?}", other),
    }
}

#[test]
fn test_adopt_file_onto_directory_fails() {
    let mut fs = temp();
    fs.write(&p("/tmp/f"), vec![1]).unwrap();
    fs.create_dir(&p("/tmp/d")).unwrap();
    match adopt_file(&mut fs, &p("/tmp/f"), &p("/tmp/d"), false) {
        Err(StowError::IoError { path, source }) => {
            assert_eq!(path, p("/tmp/f"));
            assert_eq!(source, IoErrorKind::IsADirectory);
        }
        other => panic!("unexpected {:?}", other),
    }
    assert_eq!(fs.read(&p("/tmp/f")).unwrap(), vec![1]);
}

#[test]
fn test_adopt_directory_merges() {
    let mut fs = temp();
    fs.create_dir_all(&p("/tmp/t/sub")).unwrap();
    fs.write(&p("/tmp/t/a"), b"ta".to_vec()).unwrap();
    fs.write(&p("/tmp/t/sub/b"), b"tb".to_vec()).unwrap();
    fs.create_dir_all(&p("/tmp/t/only/deep")).unwrap();
    fs.write(&p("/tmp/t/only/deep/c"), b"tc".to_vec()).unwrap();
    fs.create_dir_all(&p("/tmp/pkg/sub")).unwrap();
    fs.write(&p("/tmp/pkg/a"), b"pa".to_vec()).unwrap();
    fs.write(&p("/tmp/pkg/sub/keep"), b"pk".to_vec()).unwrap();
    assert!(adopt_directory(&mut fs, &p("/tmp/t"), &p("/tmp/pkg"), false).is_ok());
    assert!(!fs.path_exists(&p("/tmp/t")));
    assert_eq!(fs.read(&p("/tmp/pkg/a")).unwrap(), b"ta".to_vec());
    assert_eq!(fs.read(&p("/tmp/pkg/sub/b")).unwrap(), b"tb".to_vec());
    assert_eq!(fs.read(&p("/tmp/pkg/sub/keep")).unwrap(), b"pk".to_vec());
    assert_eq!(fs.read(&p("/tmp/pkg/only/deep/c")).unwrap(), b"tc".to_vec());
}

#[test]
fn test_adopt_directory_merge_collision_fails() {
    let mut fs = temp();
    fs.create_dir(&p("/tmp/t")).unwrap();
    fs.write(&p("/tmp/t/x"), vec![1]).unwrap();
    fs.create_dir_all(&p("/tmp/pkg/x")).unwrap();
    match adopt_directory(&mut fs, &p("/tmp/t"), &p("/tmp/pkg"), false) {
        Err(StowError::IoError { path, source }) => {
            assert_eq!(path, p("/tmp/t/x"));
            assert_eq!(source, IoErrorKind::IsADirectory);
        }
        other => panic!("unexpected {:?}", other),
    }
    assert!(fs.path_exists(&p("/tmp/t/x")));
}
