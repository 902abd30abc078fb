use vrun::path::{base_dir_from, cache_file_path, expand_path, join, resolve_base, resolve_source};

#[test]
fn join_like_pathbuf() {
    assert_eq!(join("a", "b"), "a/b");
    assert_eq!(join("a/", "b"), "a/b");
    assert_eq!(join("a", "/b"), "/b");
    assert_eq!(join("", "b"), "b");
    assert_eq!(join("a", ""), "a/");
    for (base, rel) in [("a", "b"), ("/x/", "y/z"), ("", ""), ("q", "/r")] {
        let ours = join(base, rel);
        let std = std::path::Path::new(base).join(rel);
        assert_eq!(ours, std.to_str().unwrap());
    }
}

#[test]
fn expand_home_and_dot() {
    assert_eq!(expand_path("~", Some("/home/u"), Some("/w")), "/home/u");
    assert_eq!(expand_path("~", None, Some("/w")), "~");
    assert_eq!(expand_path(".", Some("/home/u"), Some("/w")), "/w");
    assert_eq!(expand_path("~/cp/x", Some("/home/u"), None), "/home/u/cp/x");
    assert_eq!(expand_path("~/cp/x", None, None), "~/cp/x");
    assert_eq!(expand_path("~x", Some("/home/u"), None), "~x");
    assert_eq!(expand_path("rel/p", Some("/home/u"), Some("/w")), "rel/p");
}

#[test]
fn base_directory_choice() {
    assert_eq!(resolve_base(Some("~/d"), Some("x/A.cpp"), Some("/h"), Some("/w")), "/h/d");
    assert_eq!(resolve_base(None, Some("x/A.cpp"), Some("/h"), Some("/w")), "x");
    assert_eq!(resolve_base(None, Some("/abs/dir/A.cpp"), None, Some("/w")), "/abs/dir");
    assert_eq!(resolve_base(None, Some("A.cpp"), None, Some("/w")), "/w");
    assert_eq!(resolve_base(None, Some("/"), None, Some("/w")), "/w");
    assert_eq!(resolve_base(None, None, None, None), ".");
}

#[test]
fn source_made_absolute() {
    assert_eq!(resolve_source("/a/b.cpp", Some("/w")), "/a/b.cpp");
    assert_eq!(resolve_source("b.cpp", Some("/w")), "/w/b.cpp");
    assert_eq!(resolve_source("d/b.cpp", None), "./d/b.cpp");
}

#[test]
fn cache_file_location() {
    assert_eq!(cache_file_path("/x"), "/x/temp/.vrun_cache");
    assert_eq!(cache_file_path("/x/temp"), "/x/temp/temp/.vrun_cache");
}

#[test]
fn base_dir_from_a_given_parent() {
    assert_eq!(base_dir_from(Some("~/d"), Some("x"), Some("/h"), Some("/w")), "/h/d");
    assert_eq!(base_dir_from(None, Some("x"), None, Some("/w")), "x");
    assert_eq!(base_dir_from(None, Some(""), None, Some("/w")), "/w");
    assert_eq!(base_dir_from(None, None, None, Some("/w")), "/w");
    assert_eq!(base_dir_from(None, None, None, None), ".");
}
