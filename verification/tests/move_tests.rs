use nadamark::models::{Folder, ItemType, MoveItemRequest};
use nadamark::moves::{handle_move, is_subfolder, MoveAction, MoveError};

fn folder(id: i32, name: &str, parent: Option<i32>) -> Folder {
    Folder { id, name: name.to_string(), created: 0, parent_id: parent, favorite: false }
}

fn chain() -> Vec<Folder> {
    // c under b under a
    vec![folder(1, "a", None), folder(2, "b", Some(1)), folder(3, "c", Some(2))]
}

#[test]
fn moving_folder_under_its_grandchild_fails() {
    let folders = chain();
    let req = MoveItemRequest { item_type: ItemType::Folder, item_id: 1, target_folder_id: Some(3) };
    assert_eq!(handle_move(&folders, &req), Err(MoveError::WouldCreateCycle));
}

#[test]
fn moving_folder_under_its_child_fails() {
    let folders = chain();
    let req = MoveItemRequest { item_type: ItemType::Folder, item_id: 1, target_folder_id: Some(2) };
    assert_eq!(handle_move(&folders, &req), Err(MoveError::WouldCreateCycle));
}

#[test]
fn moving_leaf_under_the_root_folder_succeeds() {
    let folders = chain();
    let req = MoveItemRequest { item_type: ItemType::Folder, item_id: 3, target_folder_id: Some(1) };
    assert_eq!(handle_move(&folders, &req), Ok(MoveAction::ReparentFolder(3, Some(1))));
}

#[test]
fn moving_folder_onto_itself_fails() {
    let folders = chain();
    let req = MoveItemRequest { item_type: ItemType::Folder, item_id: 2, target_folder_id: Some(2) };
    assert_eq!(handle_move(&folders, &req), Err(MoveError::WouldCreateCycle));
}

#[test]
fn moving_folder_to_root_always_succeeds() {
    let folders = chain();
    let req = MoveItemRequest { item_type: ItemType::Folder, item_id: 3, target_folder_id: None };
    assert_eq!(handle_move(&folders, &req), Ok(MoveAction::ReparentFolder(3, None)));
}

#[test]
fn bookmarks_move_unconditionally() {
    let folders = chain();
    let req = MoveItemRequest {
        item_type: ItemType::Bookmark,
        item_id: 7,
        target_folder_id: Some(3),
    };
    assert_eq!(handle_move(&folders, &req), Ok(MoveAction::ReparentBookmark(7, Some(3))));
}

#[test]
fn moving_to_current_parent_is_still_valid() {
    let folders = chain();
    let req = MoveItemRequest { item_type: ItemType::Folder, item_id: 3, target_folder_id: Some(2) };
    assert_eq!(handle_move(&folders, &req), Ok(MoveAction::ReparentFolder(3, Some(2))));
}

#[test]
fn subfolder_walk_follows_the_parent_chain() {
    let folders = chain();
    assert!(is_subfolder(&folders, 1, 3));
    assert!(is_subfolder(&folders, 1, 2));
    assert!(is_subfolder(&folders, 2, 3));
    assert!(!is_subfolder(&folders, 3, 1));
    assert!(!is_subfolder(&folders, 2, 1));
    // A target with no record walks to nothing.
    assert!(!is_subfolder(&folders, 1, 42));
}
