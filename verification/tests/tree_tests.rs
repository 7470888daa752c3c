use nadamark::models::{Bookmark, Folder};
use nadamark::tree::build_tree;

fn folder(id: i32, name: &str, parent: Option<i32>) -> Folder {
    Folder { id, name: name.to_string(), created: 100, parent_id: parent, favorite: false }
}

fn bookmark(id: i32, name: &str, url: &str, folder_id: Option<i32>) -> Bookmark {
    Bookmark {
        id,
        name: name.to_string(),
        url: url.to_string(),
        favicon: None,
        favicon_url: None,
        created: 100,
        folder_id,
        favorite: false,
    }
}

#[test]
fn sorts_root_folders_case_insensitively() {
    let folders = vec![
        folder(1, "banana", None),
        folder(2, "Apple", None),
        folder(3, "cherry", None),
    ];
    let tree = build_tree(&folders, &vec![]);
    let names: Vec<&str> =
        tree.root_folders.iter().map(|n| n.folder.name.as_str()).collect();
    assert_eq!(names, vec!["Apple", "banana", "cherry"]);
}

#[test]
fn lowercase_comparison_decides_order() {
    // By raw code points "BANANA" sorts before "apple"; the tree builder
    // compares lowercased names, so "apple" must come first.
    let folders = vec![folder(1, "BANANA", None), folder(2, "apple", None)];
    let tree = build_tree(&folders, &vec![]);
    let names: Vec<&str> =
        tree.root_folders.iter().map(|n| n.folder.name.as_str()).collect();
    assert_eq!(names, vec!["apple", "BANANA"]);
}

#[test]
fn nests_folders_and_attaches_bookmarks() {
    let folders = vec![
        folder(1, "root", None),
        folder(2, "child", Some(1)),
        folder(3, "grandchild", Some(2)),
    ];
    let bookmarks = vec![
        bookmark(10, "deep", "http://deep", Some(3)),
        bookmark(11, "top", "http://top", None),
        bookmark(12, "mid", "http://mid", Some(2)),
    ];
    let tree = build_tree(&folders, &bookmarks);
    assert_eq!(tree.root_folders.len(), 1);
    let root = &tree.root_folders[0];
    assert_eq!(root.folder.id, 1);
    assert_eq!(root.children.len(), 1);
    let child = &root.children[0];
    assert_eq!(child.folder.id, 2);
    assert_eq!(child.bookmarks.len(), 1);
    assert_eq!(child.bookmarks[0].id, 12);
    assert_eq!(child.children.len(), 1);
    let grandchild = &child.children[0];
    assert_eq!(grandchild.folder.id, 3);
    assert_eq!(grandchild.bookmarks.len(), 1);
    assert_eq!(grandchild.bookmarks[0].id, 10);
    assert_eq!(tree.root_bookmarks.len(), 1);
    assert_eq!(tree.root_bookmarks[0].id, 11);
}

#[test]
fn every_folder_appears_exactly_once() {
    let folders = vec![
        folder(5, "e", Some(4)),
        folder(3, "c", Some(2)),
        folder(1, "a", None),
        folder(4, "d", Some(1)),
        folder(2, "b", Some(1)),
    ];
    let tree = build_tree(&folders, &vec![]);
    let mut seen: Vec<i32> = Vec::new();
    fn collect(node: &nadamark::models::FolderNode, seen: &mut Vec<i32>) {
        seen.push(node.folder.id);
        for c in &node.children {
            collect(c, seen);
        }
    }
    for n in &tree.root_folders {
        collect(n, &mut seen);
    }
    seen.sort();
    assert_eq!(seen, vec![1, 2, 3, 4, 5]);
}

#[test]
fn dangling_references_float_to_root() {
    let folders = vec![folder(1, "orphan", Some(99))];
    let bookmarks = vec![bookmark(2, "lost", "http://lost", Some(42))];
    let tree = build_tree(&folders, &bookmarks);
    assert_eq!(tree.root_folders.len(), 1);
    assert_eq!(tree.root_folders[0].folder.id, 1);
    assert_eq!(tree.root_bookmarks.len(), 1);
    assert_eq!(tree.root_bookmarks[0].id, 2);
}

#[test]
fn empty_store_builds_empty_tree() {
    let tree = build_tree(&vec![], &vec![]);
    assert!(tree.root_folders.is_empty());
    assert!(tree.root_bookmarks.is_empty());
}

#[test]
fn bookmarks_sorted_within_folder() {
    let folders = vec![folder(1, "f", None)];
    let bookmarks = vec![
        bookmark(10, "zebra", "http://z", Some(1)),
        bookmark(11, "Alpha", "http://a", Some(1)),
        bookmark(12, "mango", "http://m", Some(1)),
    ];
    let tree = build_tree(&folders, &bookmarks);
    let names: Vec<&str> =
        tree.root_folders[0].bookmarks.iter().map(|b| b.name.as_str()).collect();
    assert_eq!(names, vec!["Alpha", "mango", "zebra"]);
}

#[test]
fn sorting_again_keeps_tied_names_in_place() {
    // The sort is stable, so a second pass over a tree with equal names
    // changes nothing.
    let mut node = nadamark::models::FolderNode {
        folder: folder(1, "f", None),
        children: vec![],
        bookmarks: vec![
            bookmark(10, "same", "http://first", Some(1)),
            bookmark(11, "same", "http://second", Some(1)),
            bookmark(12, "Aaa", "http://third", Some(1)),
        ],
    };
    node.sort_by_name();
    let once: Vec<String> = node.bookmarks.iter().map(|b| b.url.clone()).collect();
    node.sort_by_name();
    let twice: Vec<String> = node.bookmarks.iter().map(|b| b.url.clone()).collect();
    assert_eq!(once, vec!["http://third", "http://first", "http://second"]);
    assert_eq!(once, twice);
}

#[test]
fn sort_by_name_methods_order_a_tree_in_place() {
    let folders = vec![
        folder(1, "zeta", None),
        folder(2, "Alpha", None),
        folder(3, "b", Some(1)),
        folder(4, "A", Some(1)),
    ];
    let mut tree = build_tree(&folders, &vec![]);
    // The builder already sorts; sorting again must keep the order.
    tree.sort_by_name();
    let names: Vec<&str> =
        tree.root_folders.iter().map(|n| n.folder.name.as_str()).collect();
    assert_eq!(names, vec!["Alpha", "zeta"]);
    let kid_names: Vec<&str> =
        tree.root_folders[1].children.iter().map(|n| n.folder.name.as_str()).collect();
    assert_eq!(kid_names, vec!["A", "b"]);
}
