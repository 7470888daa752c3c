//! The data model: flat `Folder` and `Bookmark` records as the store holds
//! them, and the derived `FolderNode` / `RootItems` tree served to clients.
//!
//! Timestamps are Unix seconds. Identifiers are the store's integer keys.

use vstd::prelude::*;
use vstd::multiset::Multiset;
use crate::strutil::{lex_le, lower_of};

verus! {

/// A folder row: `parent_id` is `None` for a root-level folder.
#[derive(Debug, Clone)]
pub struct Folder {
    pub id: i32,
    pub name: String,
    pub created: i64,
    pub parent_id: Option<i32>,
    pub favorite: bool,
}

/// A bookmark row: `folder_id` is `None` for a root-level bookmark.
#[derive(Debug, Clone)]
pub struct Bookmark {
    pub id: i32,
    pub name: String,
    pub url: String,
    pub favicon: Option<String>,
    pub favicon_url: Option<String>,
    pub created: i64,
    pub folder_id: Option<i32>,
    pub favorite: bool,
}

/// A folder with its directly contained bookmarks and child folders,
/// built fresh on every read.
#[derive(Debug)]
pub struct FolderNode {
    pub folder: Folder,
    pub children: Vec<FolderNode>,
    pub bookmarks: Vec<Bookmark>,
}

/// The top level of the tree: root folders and parentless bookmarks.
#[derive(Debug)]
pub struct RootItems {
    pub root_folders: Vec<FolderNode>,
    pub root_bookmarks: Vec<Bookmark>,
}

/// The kind of item a move request concerns.
#[derive(Debug, Clone, Copy, PartialEq, Eq, Structural)]
pub enum ItemType {
    Folder,
    Bookmark,
}

/// A request to reparent an item; `target_folder_id` `None` means the
/// root level.
#[derive(Debug, Clone)]
pub struct MoveItemRequest {
    pub item_type: ItemType,
    pub item_id: i32,
    pub target_folder_id: Option<i32>,
}

/// A request to create a folder.
#[derive(Debug, Clone)]
pub struct NewFolderRequest {
    pub name: String,
    pub parent_id: Option<i32>,
}

/// A request to create a bookmark.
#[derive(Debug, Clone)]
pub struct NewBookmarkRequest {
    pub name: String,
    pub url: String,
    pub folder_id: Option<i32>,
}

/// All folder records in the subtree rooted at `n`, as a multiset.
pub open spec fn node_folders(n: FolderNode) -> Multiset<Folder>
    decreases n,
{
    Multiset::singleton(n.folder).add(forest_folders(n.children@))
}

/// All folder records in a forest, as a multiset.
pub open spec fn forest_folders(s: Seq<FolderNode>) -> Multiset<Folder>
    decreases s,
{
    if s.len() == 0 {
        Multiset::empty()
    } else {
        node_folders(s[0]).add(forest_folders(s.subrange(1, s.len() as int)))
    }
}

/// All bookmark records in the subtree rooted at `n`, as a multiset.
pub open spec fn node_bookmarks(n: FolderNode) -> Multiset<Bookmark>
    decreases n,
{
    n.bookmarks@.to_multiset().add(forest_bookmarks(n.children@))
}

/// All bookmark records in a forest, as a multiset.
pub open spec fn forest_bookmarks(s: Seq<FolderNode>) -> Multiset<Bookmark>
    decreases s,
{
    if s.len() == 0 {
        Multiset::empty()
    } else {
        node_bookmarks(s[0]).add(forest_bookmarks(s.subrange(1, s.len() as int)))
    }
}

/// Every child of every node in the subtree records its parent's id, and
/// every bookmark its owning folder's id: the tree structure agrees with
/// the flat records it was built from.
pub open spec fn node_linked(n: FolderNode) -> bool
    decreases n,
{
    forest_linked(n.children@, n.folder.id) && (forall|i: int|
        0 <= i < n.bookmarks@.len() ==> (#[trigger] n.bookmarks@[i]).folder_id == Some(
            n.folder.id,
        ))
}

pub open spec fn forest_linked(s: Seq<FolderNode>, pid: i32) -> bool
    decreases s,
{
    if s.len() == 0 {
        true
    } else {
        s[0].folder.parent_id == Some(pid) && node_linked(s[0]) && forest_linked(
            s.subrange(1, s.len() as int),
            pid,
        )
    }
}

/// Some node in the forest carries id `pid` and holds `f` among its
/// direct child records: the tree realises the parent edge `f -> pid`.
pub open spec fn forest_has_edge(s: Seq<FolderNode>, pid: i32, f: Folder) -> bool
    decreases s,
{
    if s.len() == 0 {
        false
    } else {
        node_has_edge(s[0], pid, f) || forest_has_edge(s.subrange(1, s.len() as int), pid, f)
    }
}

pub open spec fn node_has_edge(n: FolderNode, pid: i32, f: Folder) -> bool
    decreases n,
{
    (n.folder.id == pid && exists|i: int|
        0 <= i < n.children@.len() && (#[trigger] n.children@[i]).folder == f) || forest_has_edge(
        n.children@,
        pid,
        f,
    )
}

/// Case-insensitive name order on sibling folders.
pub open spec fn folder_name_le(a: Folder, b: Folder) -> bool {
    lex_le(lower_of(a.name@), lower_of(b.name@))
}

/// Case-insensitive name order on bookmarks.
pub open spec fn bookmark_name_le(a: Bookmark, b: Bookmark) -> bool {
    lex_le(lower_of(a.name@), lower_of(b.name@))
}

/// Sibling folders stand in case-insensitive name order.
pub open spec fn level_order(s: Seq<FolderNode>) -> bool {
    forall|i: int, j: int|
        0 <= i < j < s.len() ==> folder_name_le((#[trigger] s[i]).folder, (#[trigger] s[j]).folder)
}

/// Children and bookmarks are sorted case-insensitively by name at every
/// level of the subtree.
pub open spec fn node_sorted(n: FolderNode) -> bool
    decreases n,
{
    level_order(n.children@) && bookmarks_sorted(n.bookmarks@) && forest_nodes_sorted(n.children@)
}

pub open spec fn forest_nodes_sorted(s: Seq<FolderNode>) -> bool
    decreases s,
{
    if s.len() == 0 {
        true
    } else {
        node_sorted(s[0]) && forest_nodes_sorted(s.subrange(1, s.len() as int))
    }
}

/// Every node of the forest is sorted, and the forest's own level is in
/// order.
pub open spec fn forest_sorted(s: Seq<FolderNode>) -> bool {
    level_order(s) && forest_nodes_sorted(s)
}

pub open spec fn bookmarks_sorted(s: Seq<Bookmark>) -> bool {
    forall|i: int, j: int| 0 <= i < j < s.len() ==> bookmark_name_le(#[trigger] s[i], #[trigger] s[j])
}

} // verus!
