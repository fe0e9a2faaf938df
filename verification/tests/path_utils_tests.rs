use winstow::error::StowError;
use winstow::fs_ops::FileSystem;
use winstow::path_utils::{
    components_equal, compute_relative_path, normalize_path, paths_equal, StowPath,
};

fn p(text: &str) -> StowPath {
    StowPath::parse(text)
}

#[test]
fn test_normalize_path_absolute() {
    let fs = FileSystem::new();
    let normalized = normalize_path(&fs, &p("/")).unwrap();
    assert!(normalized.is_absolute());
}

#[test]
fn test_normalize_path_relative() {
    let fs = FileSystem::new();
    let result = normalize_path(&fs, &p("."));
    assert!(result.is_ok());
    assert!(result.unwrap().is_absolute());
}

#[test]
fn test_compute_relative_path_same_dir() {
    let from = p("/users/test");
    let to = p("/users/test/file.txt");
    let relative = compute_relative_path(&from, &to).unwrap();
    assert_eq!(relative, p("file.txt"));
}

#[test]
fn test_compute_relative_path_parent() {
    let from = p("/users/test/subdir");
    let to = p("/users/test/file.txt");
    let relative = compute_relative_path(&from, &to).unwrap();
    assert_eq!(relative, p("../file.txt"));
}

#[test]
fn test_compute_relative_path_different_branches() {
    let from = p("/users/test/dir1");
    let to = p("/users/test/dir2/file.txt");
    let relative = compute_relative_path(&from, &to).unwrap();
    assert_eq!(relative, p("../dir2/file.txt"));
}

#[test]
fn test_compute_relative_path_requires_absolute() {
    let from = p("relative/path");
    let to = p("/absolute/path");
    assert!(compute_relative_path(&from, &to).is_err());
}

#[test]
fn test_paths_equal_case_insensitive() {
    // Names are compared as they are written.
    let fs = FileSystem::new();
    let a = p("/Users/Test");
    let b = p("/users/test");
    assert!(!paths_equal(&fs, &a, &b));
    assert!(paths_equal(&fs, &a, &p("/Users/Test")));
    assert!(!components_equal(&"Users".to_string(), &"users".to_string()));
    assert!(components_equal(&"users".to_string(), &"users".to_string()));
}

#[test]
fn test_relative_path_errors_and_edges() {
    match compute_relative_path(&p("/a"), &p("b")) {
        Err(StowError::InvalidPath(m)) => assert_eq!(
            m,
            "Both 'from' and 'to' paths must be absolute for relative path computation"
        ),
        other => panic!("unexpected {:?}", other),
    }
    assert_eq!(compute_relative_path(&p("/a/b"), &p("/a/b")).unwrap(), p("."));
    assert_eq!(compute_relative_path(&p("/a/b"), &p("/")).unwrap(), p("../.."));
    assert_eq!(compute_relative_path(&p("/"), &p("/x/y")).unwrap(), p("x/y"));
    assert_eq!(compute_relative_path(&p("/a/b/c"), &p("/x")).unwrap(), p("../../../x"));
    assert_eq!(compute_relative_path(&p("/target"), &p("/stow/pkg/a.txt")).unwrap().to_string(), "../stow/pkg/a.txt");
}

#[test]
fn test_relative_path_leads_back() {
    let pairs = [
        ("/a/b/c", "/a/x/y"),
        ("/", "/q"),
        ("/a", "/a"),
        ("/deep/er/and/deeper", "/deep"),
        ("/one", "/two/three"),
    ];
    for (from, to) in pairs {
        let rel = compute_relative_path(&p(from), &p(to)).unwrap();
        assert!(rel.is_relative());
        assert_eq!(p(from).join(&rel), p(to), "{} -> {}", from, to);
    }
}

#[test]
fn test_parse_and_text() {
    assert_eq!(p("/a//b/./c/").to_string(), "/a/b/c");
    assert_eq!(p("/a/b/../c").to_string(), "/a/c");
    assert_eq!(p("/..").to_string(), "/");
    assert_eq!(p("/").to_string(), "/");
    assert_eq!(p("").to_string(), ".");
    assert_eq!(p(".").to_string(), ".");
    assert_eq!(p("../../x").to_string(), "../../x");
    assert_eq!(p("a/../..").to_string(), "..");
    assert_eq!(p("a/b").to_string(), "a/b");
    assert!(p("/x").is_absolute());
    assert!(p("x").is_relative());
    assert_eq!(p("../x").ups(), 1);
    assert_eq!(p("/a/b").names().len(), 2);
    assert_eq!(StowPath::root(), p("/"));
    assert_eq!(StowPath::from_names(vec!["a".to_string(), "b".to_string()]), p("/a/b"));
}

#[test]
fn test_path_parts() {
    assert_eq!(p("/a/b").parent(), Some(p("/a")));
    assert_eq!(p("/a").parent(), Some(p("/")));
    assert_eq!(p("/").parent(), None);
    assert_eq!(p("a").parent(), Some(p("")));
    assert_eq!(p("/a/b.txt").file_name(), Some("b.txt".to_string()));
    assert_eq!(p("/").file_name(), None);
    assert_eq!(p("..").file_name(), None);
    assert_eq!(p("/a").child("b"), p("/a/b"));
    assert_eq!(p("/a/b").components(), vec!["/", "a", "b"]);
    assert_eq!(p("../x").components(), vec!["..", "x"]);
    assert!(p("/a/b").equals(&p("/a/./b")));
    assert!(!p("/a/b").equals(&p("a/b")));
    assert_eq!(p("/a/b").clone(), p("/a/b"));
}

#[test]
fn test_join() {
    assert_eq!(p("/a/b").join(&p("c")), p("/a/b/c"));
    assert_eq!(p("/a/b").join(&p("../c")), p("/a/c"));
    assert_eq!(p("/a/b").join(&p("/x")), p("/x"));
    assert_eq!(p("/a").join(&p("../../../x")), p("/x"));
    assert_eq!(p("a").join(&p("../../x")), p("../x"));
    assert_eq!(p("/target").join(&p("../stow/pkg/a.txt")), p("/stow/pkg/a.txt"));
}

#[test]
fn test_normalize_resolves_links() {
    let mut fs = FileSystem::new();
    fs.create_dir_all(&p("/stow/pkg")).unwrap();
    fs.write(&p("/stow/pkg/a.txt"), vec![1]).unwrap();
    fs.create_dir(&p("/target")).unwrap();
    fs.symlink(&p("/target/a.txt"), &p("../stow/pkg/a.txt"), false).unwrap();
    fs.symlink(&p("/target/d"), &p("/stow/pkg"), true).unwrap();
    assert_eq!(normalize_path(&fs, &p("/target/a.txt")).unwrap(), p("/stow/pkg/a.txt"));
    assert_eq!(normalize_path(&fs, &p("/target/d/a.txt")).unwrap(), p("/stow/pkg/a.txt"));
    assert_eq!(normalize_path(&fs, &p("/target/missing")).unwrap(), p("/target/missing"));
    assert_eq!(normalize_path(&fs, &p("target/missing")).unwrap(), p("/target/missing"));
    assert!(paths_equal(&fs, &p("/target/d"), &p("/stow/pkg")));
    assert!(!paths_equal(&fs, &p("/target"), &p("/stow")));
}
