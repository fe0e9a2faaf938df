use winstow::error::{IoErrorKind, StowError};
use winstow::fs_ops::{create_symlink, ensure_parent_dirs, is_directory, is_empty_directory, is_symlink, read_symlink, remove_empty_directory, FileSystem, FsOp};
use winstow::path_utils::StowPath;

fn p(text: &str) -> StowPath {
    StowPath::parse(text)
}

fn temp() -> FileSystem {
    let mut fs = FileSystem::new();
    fs.create_dir(&p("/tmp")).unwrap();
    fs
}

#[test]
fn test_is_symlink_on_regular_file() {
    let mut fs = temp();
    let file_path = p("/tmp/test.txt");
    fs.write(&file_path, vec![]).unwrap();

    assert!(!is_symlink(&fs, &file_path));
}

#[test]
fn test_is_empty_directory() {
    let mut fs = temp();
    let empty_dir = p("/tmp/empty");
    fs.create_dir(&empty_dir).unwrap();

    assert!(is_empty_directory(&fs, &empty_dir).unwrap());

    fs.write(&empty_dir.child("file.txt"), vec![]).unwrap();
    assert!(!is_empty_directory(&fs, &empty_dir).unwrap());
}

#[test]
fn test_remove_empty_directory() {
    let mut fs = temp();
    let empty_dir = p("/tmp/empty");
    fs.create_dir(&empty_dir).unwrap();

    assert!(remove_empty_directory(&mut fs, &empty_dir).is_ok());
    assert!(!fs.path_exists(&empty_dir));
}

#[test]
fn test_remove_non_empty_directory_fails() {
    let mut fs = temp();
    let dir = p("/tmp/nonempty");
    fs.create_dir(&dir).unwrap();
    fs.write(&dir.child("file.txt"), vec![]).unwrap();

    assert!(remove_empty_directory(&mut fs, &dir).is_err());
}

#[test]
fn test_ensure_parent_dirs() {
    let mut fs = temp();
    let nested_path = p("/tmp/a/b/c/file.txt");

    assert!(ensure_parent_dirs(&mut fs, &nested_path).is_ok());
    assert!(fs.path_exists(&nested_path.parent().unwrap()));
    assert!(fs.is_dir(&p("/tmp/a/b")));
    assert!(!fs.path_exists(&nested_path));
}

#[test]
fn test_is_directory() {
    let mut fs = temp();
    let dir = p("/tmp/dir");
    fs.create_dir(&dir).unwrap();
    let file = p("/tmp/file.txt");
    fs.write(&file, vec![]).unwrap();

    assert!(is_directory(&fs, &dir).unwrap());
    assert!(!is_directory(&fs, &file).unwrap());
}

#[test]
fn test_create_file_symlink() {
    let mut fs = temp();
    let target = p("/tmp/target.txt");
    fs.write(&target, vec![]).unwrap();

    let link = p("/tmp/link.txt");
    let result = create_symlink(&mut fs, &link, &target, false);

    assert!(result.is_ok());
    assert!(fs.path_exists(&link));
    assert!(is_symlink(&fs, &link));
}

#[test]
fn test_create_directory_symlink() {
    let mut fs = temp();
    let target = p("/tmp/target_dir");
    fs.create_dir(&target).unwrap();

    let link = p("/tmp/link_dir");
    let result = create_symlink(&mut fs, &link, &target, true);

    assert!(result.is_ok());
    assert!(fs.path_exists(&link));
    assert!(is_symlink(&fs, &link));
    assert!(is_directory(&fs, &link).unwrap());
}

#[test]
fn test_read_symlink_nonexistent() {
    let fs = temp();
    let result = read_symlink(&fs, &p("/tmp/nonexistent"));
    assert!(result.is_err());
}

#[test]
fn test_read_symlink_regular_file() {
    let mut fs = temp();
    let file_path = p("/tmp/test.txt");
    fs.write(&file_path, vec![]).unwrap();

    let result = read_symlink(&fs, &file_path);
    assert!(result.is_err());
}

#[test]
fn test_is_empty_directory_nonexistent() {
    let fs = temp();
    let result = is_empty_directory(&fs, &p("/tmp/nonexistent"));
    assert!(result.is_ok());
    assert!(!result.unwrap());
}

#[test]
fn test_is_empty_directory_on_file() {
    let mut fs = temp();
    let file_path = p("/tmp/test.txt");
    fs.write(&file_path, vec![]).unwrap();

    let result = is_empty_directory(&fs, &file_path);
    assert!(result.is_ok());
    assert!(!result.unwrap());
}

#[test]
fn test_remove_empty_directory_nonexistent() {
    let mut fs = temp();
    let result = remove_empty_directory(&mut fs, &p("/tmp/nonexistent"));
    assert!(result.is_err());
}

#[test]
fn test_ensure_parent_dirs_already_exists() {
    let mut fs = temp();
    let file_path = p("/tmp/test.txt");

    let result = ensure_parent_dirs(&mut fs, &file_path);
    assert!(result.is_ok());
    assert!(fs.journal().len() == 1);
}

#[test]
fn test_is_directory_nonexistent() {
    let fs = temp();
    let result = is_directory(&fs, &p("/tmp/nonexistent"));
    assert!(result.is_err());
    match result {
        Err(StowError::IoError { path, source }) => {
            assert_eq!(path, p("/tmp/nonexistent"));
            assert_eq!(source, IoErrorKind::NotFound);
        }
        other => panic!("unexpected {:?}", other),
    }
}

#[test]
fn test_lookup_follows_links() {
    let mut fs = FileSystem::new();
    fs.create_dir_all(&p("/a/b")).unwrap();
    fs.write(&p("/a/b/f"), b"data".to_vec()).unwrap();
    fs.symlink(&p("/l"), &p("a/b"), true).unwrap();
    fs.symlink(&p("/a/up"), &p(".."), true).unwrap();
    fs.symlink(&p("/dangling"), &p("/nowhere"), false).unwrap();
    fs.symlink(&p("/loop"), &p("/loop"), false).unwrap();
    assert_eq!(fs.canonicalize(&p("/l/f")).unwrap(), p("/a/b/f"));
    assert_eq!(fs.canonicalize(&p("/a/up/a/b")).unwrap(), p("/a/b"));
    assert_eq!(fs.canonicalize(&p("/l")).unwrap(), p("/a/b"));
    assert_eq!(fs.canonicalize(&p("/")).unwrap(), p("/"));
    assert_eq!(fs.canonicalize(&p("/dangling")), Err(IoErrorKind::NotFound));
    assert_eq!(fs.canonicalize(&p("/loop")), Err(IoErrorKind::TooManyLinks));
    assert_eq!(fs.canonicalize(&p("/a/b/f/x")), Err(IoErrorKind::NotADirectory));
    assert_eq!(fs.locate(&p("/l"), false).unwrap(), vec!["l"]);
    assert_eq!(fs.locate(&p("/l"), true).unwrap(), vec!["a", "b"]);
    assert!(fs.path_exists(&p("/l/f")));
    assert!(!fs.path_exists(&p("/dangling")));
    assert!(fs.is_link(&p("/dangling")));
    assert!(!fs.is_link(&p("/l/f")));
    assert!(fs.is_dir(&p("/l")));
    assert!(!fs.is_dir(&p("/l/f")));
    assert_eq!(fs.read_link(&p("/l")).unwrap(), p("a/b"));
    assert_eq!(fs.read_link(&p("/a")), Err(IoErrorKind::InvalidInput));
    assert_eq!(fs.read_link(&p("/")), Err(IoErrorKind::InvalidInput));
    assert_eq!(fs.read(&p("/l/f")).unwrap(), b"data".to_vec());
    assert_eq!(fs.read(&p("/a")), Err(IoErrorKind::IsADirectory));
}

#[test]
fn test_listing_is_in_order_of_creation() {
    let mut fs = FileSystem::new();
    fs.create_dir(&p("/d")).unwrap();
    fs.write(&p("/d/z"), vec![]).unwrap();
    fs.create_dir(&p("/d/a")).unwrap();
    fs.symlink(&p("/d/m"), &p("a"), true).unwrap();
    fs.write(&p("/d/a/inner"), vec![]).unwrap();
    let lines = fs.read_dir(&p("/d")).unwrap();
    let names: Vec<(String, bool)> = lines.into_iter().map(|l| (l.name, l.is_dir)).collect();
    assert_eq!(
        names,
        vec![("z".to_string(), false), ("a".to_string(), true), ("m".to_string(), false)]
    );
    assert_eq!(fs.read_dir(&p("/d/m")).unwrap().len(), 1);
    assert_eq!(fs.read_dir(&p("/d/z")).err(), Some(IoErrorKind::NotADirectory));
    assert_eq!(fs.read_dir(&p("/none")).err(), Some(IoErrorKind::NotFound));
    assert_eq!(fs.list_at(&vec!["d".to_string(), "a".to_string()]).len(), 1);
}

#[test]
fn test_changes_and_their_failures() {
    let mut fs = FileSystem::new();
    assert_eq!(fs.create_dir(&p("/a/b")), Err(IoErrorKind::NotFound));
    assert_eq!(fs.create_dir(&p("/")), Err(IoErrorKind::AlreadyExists));
    fs.create_dir(&p("/a")).unwrap();
    assert_eq!(fs.create_dir(&p("/a")), Err(IoErrorKind::AlreadyExists));
    fs.write(&p("/a/f"), vec![1, 2]).unwrap();
    assert_eq!(fs.create_dir(&p("/a/f/x")), Err(IoErrorKind::NotADirectory));
    assert_eq!(fs.create_dir_all(&p("/a/f/x")), Err(IoErrorKind::NotADirectory));
    assert_eq!(fs.create_dir_all(&p("/a/f")), Err(IoErrorKind::AlreadyExists));
    assert!(fs.create_dir_all(&p("/a")).is_ok());
    assert!(fs.create_dir_all(&p("/a/x/y/z")).is_ok());
    assert!(fs.is_dir(&p("/a/x/y/z")));
    assert_eq!(fs.symlink(&p("/a/f"), &p("x"), false), Err(IoErrorKind::AlreadyExists));
    assert_eq!(fs.remove_file(&p("/a")), Err(IoErrorKind::IsADirectory));
    assert_eq!(fs.remove_file(&p("/a/none")), Err(IoErrorKind::NotFound));
    assert_eq!(fs.remove_dir(&p("/a")), Err(IoErrorKind::DirectoryNotEmpty));
    assert_eq!(fs.remove_dir(&p("/a/f")), Err(IoErrorKind::NotADirectory));
    assert_eq!(fs.remove_dir(&p("/")), Err(IoErrorKind::InvalidInput));
    assert!(fs.remove_dir(&p("/a/x/y/z")).is_ok());
    assert!(fs.remove_file(&p("/a/f")).is_ok());
    assert!(!fs.path_exists(&p("/a/f")));
    fs.write(&p("/a/g"), vec![7]).unwrap();
    fs.write(&p("/a/g"), vec![8, 9]).unwrap();
    assert_eq!(fs.read(&p("/a/g")).unwrap(), vec![8, 9]);
    assert_eq!(fs.write(&p("/a"), vec![]), Err(IoErrorKind::IsADirectory));
    assert!(fs.copy(&p("/a/g"), &p("/a/h")).is_ok());
    assert_eq!(fs.read(&p("/a/h")).unwrap(), vec![8, 9]);
    assert_eq!(fs.copy(&p("/a"), &p("/a/i")), Err(IoErrorKind::IsADirectory));
    assert!(fs.remove_dir_all(&p("/a/x")).is_ok());
    assert!(!fs.path_exists(&p("/a/x")));
    assert!(fs.path_exists(&p("/a/g")));
    assert_eq!(fs.remove_dir_all(&p("/a/g")), Err(IoErrorKind::NotADirectory));
    assert!(fs.remove_dir_all(&p("/a")).is_ok());
    assert!(fs.read_dir(&p("/")).unwrap().is_empty());
}

#[test]
fn test_rename_moves_trees() {
    let mut fs = FileSystem::new();
    fs.create_dir_all(&p("/a/b")).unwrap();
    fs.write(&p("/a/b/f"), vec![1]).unwrap();
    fs.write(&p("/a/g"), vec![2]).unwrap();
    fs.create_dir(&p("/e")).unwrap();
    assert_eq!(fs.rename(&p("/a"), &p("/a/b/c")), Err(IoErrorKind::InvalidInput));
    assert_eq!(fs.rename(&p("/none"), &p("/x")), Err(IoErrorKind::NotFound));
    assert_eq!(fs.rename(&p("/a/g"), &p("/e")), Err(IoErrorKind::IsADirectory));
    assert_eq!(fs.rename(&p("/e"), &p("/a/g")), Err(IoErrorKind::NotADirectory));
    assert_eq!(fs.rename(&p("/e"), &p("/a")), Err(IoErrorKind::DirectoryNotEmpty));
    assert_eq!(fs.rename(&p("/"), &p("/x")), Err(IoErrorKind::InvalidInput));
    assert!(fs.rename(&p("/a"), &p("/e")).is_ok());
    assert!(!fs.path_exists(&p("/a")));
    assert_eq!(fs.read(&p("/e/b/f")).unwrap(), vec![1]);
    assert_eq!(fs.read(&p("/e/g")).unwrap(), vec![2]);
    fs.write(&p("/h"), vec![3]).unwrap();
    assert!(fs.rename(&p("/h"), &p("/e/g")).is_ok());
    assert_eq!(fs.read(&p("/e/g")).unwrap(), vec![3]);
    assert!(!fs.path_exists(&p("/h")));
    assert!(fs.rename(&p("/e/g"), &p("/e/g")).is_ok());
    assert!(fs.rename(&p("/e/b"), &p("/b")).is_ok());
    assert_eq!(fs.read(&p("/b/f")).unwrap(), vec![1]);
}

#[test]
fn test_journal_records_changes() {
    let mut fs = FileSystem::new();
    fs.create_dir(&p("/t")).unwrap();
    assert!(create_symlink(&mut fs, &p("/t/d/l"), &p("x"), false).is_ok());
    assert!(fs.remove_file(&p("/t/none")).is_err());
    let journal = fs.journal();
    assert_eq!(journal.len(), 3);
    assert!(matches!(&journal[0], FsOp::CreateDir { path } if *path == p("/t")));
    assert!(matches!(&journal[1], FsOp::CreateDirAll { path } if *path == p("/t/d")));
    assert!(matches!(
        &journal[2],
        FsOp::Symlink { link, target, is_directory }
            if *link == p("/t/d/l") && *target == p("x") && !*is_directory
    ));
}

#[test]
fn test_create_symlink_reports_parent_failure() {
    let mut fs = FileSystem::new();
    fs.write(&p("/f"), vec![]).unwrap();
    match create_symlink(&mut fs, &p("/f/x/l"), &p("t"), false) {
        Err(StowError::IoError { path, source }) => {
            assert_eq!(path, p("/f/x"));
            assert_eq!(source, IoErrorKind::NotADirectory);
        }
        other => panic!("unexpected {:?}", other),
    }
}
