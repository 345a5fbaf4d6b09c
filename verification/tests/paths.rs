use deltasync::utils::{absolute_path, is_absolute};

fn from_root(path: &str) -> String {
    absolute_path::<String>(path, Ok("/".to_string())).unwrap()
}

fn from_home(path: &str) -> String {
    absolute_path::<String>(path, Ok("/home/me".to_string())).unwrap()
}

#[test]
fn absolute_path_already_absolute() {
    let result = from_home("/usr/bin/foo");
    assert_eq!(result, "/usr/bin/foo");
}

#[test]
fn absolute_path_cleans_dot_dot() {
    let result = from_home("/usr/bin/../lib/foo");
    assert_eq!(result, "/usr/lib/foo");
}

#[test]
fn absolute_path_cleans_dot() {
    let result = from_home("/usr/./bin/foo");
    assert_eq!(result, "/usr/bin/foo");
}

#[test]
fn absolute_path_relative_prepends_cwd() {
    let result = from_home("some/relative/path");
    assert_eq!(result, "/home/me/some/relative/path");
    assert!(is_absolute(&result));
}

#[test]
fn absolute_path_relative_with_dot_dot() {
    let result = from_home("foo/../bar");
    assert_eq!(result, "/home/me/bar");
}

#[test]
fn absolute_path_leaves_the_current_directory() {
    assert_eq!(from_home("../you/file"), "/home/you/file");
    assert_eq!(from_home("../../../../file"), "/file");
    assert_eq!(from_home(""), "/home/me");
    assert_eq!(from_home("."), "/home/me");
}

#[test]
fn absolute_path_from_the_root() {
    assert_eq!(from_root("a//b/"), "/a/b");
    assert_eq!(from_root(".."), "/");
    assert_eq!(from_root("/"), "/");
    assert_eq!(from_root("/.."), "/");
}

#[test]
fn absolute_path_of_odd_names() {
    assert_eq!(from_root("/a/.../b"), "/a/.../b");
    assert_eq!(from_root("/a/.b/..c"), "/a/.b/..c");
    assert_eq!(from_root("/d\u{e9}p\u{f4}t/\u{2026}"), "/d\u{e9}p\u{f4}t/\u{2026}");
}

#[test]
fn absolute_path_needs_the_current_directory_only_for_relative_paths() {
    assert_eq!(absolute_path::<u8>("/x/../y", Err(7)), Ok("/y".to_string()));
    assert_eq!(absolute_path::<u8>("x", Err(7)), Err(7));
}

#[test]
fn absolute_path_of_a_relative_directory_is_cleaned_too() {
    let cleaned = |dir: &str, path: &str| absolute_path::<u8>(path, Ok(dir.to_string())).unwrap();
    assert_eq!(cleaned("", "a/../../b"), "../b");
    assert_eq!(cleaned("", ""), ".");
    assert_eq!(cleaned("x/", "../.."), "..");
}

#[test]
fn absolute_paths_stay_as_they_are() {
    for path in ["/a/../b//c/.", "x/y/../z", "../..", "", "/"] {
        let once = from_home(path);
        assert_eq!(from_home(&once), once);
    }
}

#[test]
fn absoluteness() {
    assert!(is_absolute("/"));
    assert!(is_absolute("/a"));
    assert!(!is_absolute(""));
    assert!(!is_absolute("a/b"));
}
