use jterm1::file_tree::{
    display_path, followed_root, icon, on_expand, shell_quote, sort_entries, starting_root,
    DirEntry, Expansion,
};
use jterm1::paths::{file_name, parent, strip_base};
use std::path::Path;

fn entry(name: &str, is_dir: bool) -> DirEntry {
    DirEntry { name: name.to_string(), path: format!("/d/{name}"), is_dir }
}

#[test]
fn directories_come_first() {
    let sorted = sort_entries(vec![
        entry("b.txt", false),
        entry("Zoo", true),
        entry("A.txt", false),
        entry("apps", true),
    ]);
    let names: Vec<&str> = sorted.iter().map(|e| e.name.as_str()).collect();
    assert_eq!(names, vec!["apps", "Zoo", "A.txt", "b.txt"]);
    assert_eq!(sorted[0].path, "/d/apps");
}

#[test]
fn icons_tell_directories() {
    assert_eq!(icon(true), "folder-symbolic");
    assert_eq!(icon(false), "text-x-generic-symbolic");
}

#[test]
fn rows_are_loaded_once() {
    assert_eq!(on_expand(Some(""), "/d"), Expansion::Load);
    assert_eq!(on_expand(Some("/d/x"), "/d"), Expansion::Keep);
    assert_eq!(on_expand(None, "/d"), Expansion::Keep);
    assert_eq!(on_expand(Some(""), ""), Expansion::DropPlaceholder);
}

#[test]
fn home_is_abbreviated() {
    assert_eq!(display_path("/home/u", Some("/home/u")), "~");
    assert_eq!(display_path("/home/u/", Some("/home/u")), "~");
    assert_eq!(display_path("/home/u/a//b/", Some("/home/u/")), "~/a//b");
    assert_eq!(display_path("/home/under", Some("/home/u")), "/home/under");
    assert_eq!(display_path("/srv", None), "/srv");
}

#[test]
fn quotes_survive_quoting() {
    assert_eq!(shell_quote("/a b"), "'/a b'");
    assert_eq!(shell_quote("it's"), "'it'\\''s'");
    assert_eq!(shell_quote(""), "''");
}

#[test]
fn names_and_parents() {
    assert_eq!(file_name("/usr/bin/ssh").as_deref(), Some("ssh"));
    assert_eq!(file_name("dir/").as_deref(), Some("dir"));
    assert_eq!(file_name("a/.").as_deref(), Some("a"));
    assert_eq!(file_name("a/.."), None);
    assert_eq!(file_name("/"), None);
    assert_eq!(file_name("."), None);
    assert_eq!(file_name(""), None);
    assert_eq!(parent("/a/b").as_deref(), Some("/a"));
    assert_eq!(parent("/a").as_deref(), Some("/"));
    assert_eq!(parent("a").as_deref(), Some(""));
    assert_eq!(parent("/"), None);
    assert_eq!(strip_base("a/b/c", "a").as_deref(), Some("b/c"));
    assert_eq!(strip_base("/a", "a"), None);
    assert_eq!(strip_base("/a/", "").as_deref(), Some("/a"));
}

#[test]
fn paths_agree_with_the_standard_library() {
    let paths = ["/", "", "a", "/a/b", "a//b/", "./a", "a/./b", "..", "/..", "/a/../b/.", "//x"];
    for p in paths {
        let name = Path::new(p).file_name().map(|n| n.to_str().unwrap().to_string());
        assert_eq!(file_name(p), name, "name of {p:?}");
        let up = Path::new(p).parent().map(|n| n.to_str().unwrap().to_string());
        assert_eq!(parent(p), up, "parent of {p:?}");
        for base in paths {
            let rest = Path::new(p).strip_prefix(base).ok().map(|n| n.to_str().unwrap().to_string());
            assert_eq!(strip_base(p, base), rest, "{p:?} behind {base:?}");
        }
    }
}

#[test]
fn the_browser_follows_the_pane() {
    assert_eq!(starting_root(Some("/w"), Some("/h")), "/w");
    assert_eq!(starting_root(None, Some("/h")), "/h");
    assert_eq!(starting_root(None, None), "/");
    assert_eq!(followed_root(Some("/w"), "/x", None).as_deref(), Some("/w"));
    assert_eq!(followed_root(Some("/w/"), "/w", None), None);
    assert_eq!(followed_root(None, "", Some("/h")).as_deref(), Some("/h"));
    assert_eq!(followed_root(None, "/x", Some("/h")), None);
}
