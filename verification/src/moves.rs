//! The move validator: rejects reparenting a folder under itself or under
//! one of its descendants, by walking the ancestor chain of the proposed
//! target through the flat folder records.

use vstd::prelude::*;
use crate::models::{Folder, ItemType, MoveItemRequest};

verus! {

/// A rejected move.
#[derive(Debug, Clone, Copy, PartialEq, Eq, Structural)]
pub enum MoveError {
    /// The item is a folder and the target is the folder itself or one of
    /// its descendants.
    WouldCreateCycle,
}

/// The store mutation a validated move asks for.
#[derive(Debug, Clone, Copy, PartialEq, Eq, Structural)]
pub enum MoveAction {
    /// Set the folder's parent to the given folder id, or to the root
    /// level for `None`.
    ReparentFolder(i32, Option<i32>),
    /// Set the bookmark's owning folder likewise.
    ReparentBookmark(i32, Option<i32>),
}

/// The first folder record with the given id, in list order.
pub open spec fn find_folder(s: Seq<Folder>, id: i32) -> Option<Folder>
    decreases s.len(),
{
    if s.len() == 0 {
        None
    } else if s[0].id == id {
        Some(s[0])
    } else {
        find_folder(s.subrange(1, s.len() as int), id)
    }
}

/// The ancestor walk, mirroring the validator: starting from `cur`,
/// repeatedly look up the current folder's parent. The walk reports true
/// when it meets `needle`, false when it reaches the root or a folder
/// with no record, and true when `fuel` runs out — a chain longer than
/// the number of folders must revisit one, so exhaustion is itself
/// evidence of a cycle.
pub open spec fn in_ancestors(s: Seq<Folder>, cur: Option<i32>, needle: i32, fuel: nat) -> bool
    decreases fuel,
{
    match cur {
        Option::None => false,
        Option::Some(c) => if c == needle {
            true
        } else if fuel == 0 {
            true
        } else {
            match find_folder(s, c) {
                Option::None => false,
                Option::Some(f) => in_ancestors(s, f.parent_id, needle, (fuel - 1) as nat),
            }
        },
    }
}

/// No two folder records share an id.
pub open spec fn unique_folder_ids(s: Seq<Folder>) -> bool {
    forall|i: int, j: int| 0 <= i < j < s.len() ==> (#[trigger] s[i]).id != (#[trigger] s[j]).id
}

/// A witness that the parent relation has no cycle: a rank for every
/// folder, strictly larger than its resolvable parent's rank and bounded
/// by the number of folders.
pub open spec fn rank_ok(s: Seq<Folder>, rank: Map<i32, nat>) -> bool {
    forall|i: int|
        0 <= i < s.len() ==> {
            let f = #[trigger] s[i];
            &&& rank.contains_key(f.id)
            &&& rank[f.id] < s.len()
            &&& match f.parent_id {
                Option::Some(p) => find_folder(s, p) is Some ==> rank.contains_key(p)
                    && rank[p] < rank[f.id],
                Option::None => true,
            }
        }
}

/// The parent relation, followed from any folder, terminates at a root:
/// equivalently, some rank assignment decreases along it.
pub open spec fn acyclic_folders(s: Seq<Folder>) -> bool {
    exists|rank: Map<i32, nat>| rank_ok(s, rank)
}

/// A found record is a member of the list and carries the id looked up.
pub proof fn lemma_find_contains(s: Seq<Folder>, id: i32)
    requires
        find_folder(s, id) is Some,
    ensures
        exists|i: int|
            0 <= i < s.len() && s[i] == find_folder(s, id)->0 && (#[trigger] s[i]).id == id,
    decreases s.len(),
{
    if s.len() > 0 && s[0].id != id {
        let t = s.subrange(1, s.len() as int);
        lemma_find_contains(t, id);
        let i = choose|i: int| 0 <= i < t.len() && t[i] == find_folder(t, id)->0 && (#[trigger] t[i]).id == id;
        assert(s[i + 1] == t[i]);
    }
}

/// With unique ids, looking up a listed folder's id finds that folder.
pub proof fn lemma_find_unique(s: Seq<Folder>, f: Folder)
    requires
        unique_folder_ids(s),
        s.contains(f),
    ensures
        find_folder(s, f.id) == Some(f),
    decreases s.len(),
{
    let i = choose|i: int| 0 <= i < s.len() && s[i] == f;
    if s[0].id == f.id {
        if i != 0 {
            assert(s[0].id != s[i].id);
        }
    } else {
        let t = s.subrange(1, s.len() as int);
        assert(t[i - 1] == f);
        assert(t.contains(f));
        assert(unique_folder_ids(t)) by {
            assert(forall|x: int, y: int|
                0 <= x < y < t.len() ==> t[x] == s[x + 1] && t[y] == s[y + 1]);
        }
        lemma_find_unique(t, f);
    }
}

/// A walk that starts strictly below `needle` in rank never meets
/// `needle` and ends at a root before its fuel runs out.
proof fn lemma_walk_clear(
    s: Seq<Folder>,
    rank: Map<i32, nat>,
    cur: Option<i32>,
    needle: i32,
    fuel: nat,
)
    requires
        rank_ok(s, rank),
        find_folder(s, needle) is Some,
        rank.contains_key(needle),
        match cur {
            Option::None => true,
            Option::Some(c) => c != needle && fuel > 0 && (find_folder(s, c) is Some
                ==> rank.contains_key(c) && rank[c] < rank[needle] && fuel >= rank[c] + 2),
        },
    ensures
        !in_ancestors(s, cur, needle, fuel),
    decreases fuel,
{
    match cur {
        Option::None => {},
        Option::Some(c) => {
            match find_folder(s, c) {
                Option::None => {},
                Option::Some(f) => {
                    lemma_find_contains(s, c);
                    let i = choose|i: int|
                        0 <= i < s.len() && s[i] == find_folder(s, c)->0 && (#[trigger] s[i]).id
                            == c;
                    assert(s[i] == f);
                    match f.parent_id {
                        Option::None => {
                            lemma_walk_clear(s, rank, f.parent_id, needle, (fuel - 1) as nat);
                        },
                        Option::Some(p) => {
                            if p == needle {
                                // The needle has a record, so its rank sits above
                                // the current folder's, yet a parent's rank sits
                                // below it: impossible.
                                assert(find_folder(s, p) is Some);
                                assert(rank[p] < rank[c]);
                                assert(false);
                            }
                            if find_folder(s, p) is Some {
                                assert(rank.contains_key(p) && rank[p] < rank[f.id]);
                            }
                            lemma_walk_clear(s, rank, f.parent_id, needle, (fuel - 1) as nat);
                        },
                    }
                },
            }
        },
    }
}

/// The cycle rule: with a grandchild chain `c` under `b` under `a` in an
/// acyclic store, moving `a` under `c` or under `b` is the very cycle the
/// validator walks for, while moving `c` under `a` finds none.
pub proof fn lemma_cycle_rules(s: Seq<Folder>, a: Folder, b: Folder, c: Folder)
    requires
        unique_folder_ids(s),
        acyclic_folders(s),
        s.contains(a),
        s.contains(b),
        s.contains(c),
        b.parent_id == Some(a.id),
        c.parent_id == Some(b.id),
        a.id != b.id,
        a.id != c.id,
        b.id != c.id,
    ensures
        in_ancestors(s, Some(c.id), a.id, (s.len() + 1) as nat),
        in_ancestors(s, Some(b.id), a.id, (s.len() + 1) as nat),
        !in_ancestors(s, Some(a.id), c.id, (s.len() + 1) as nat),
{
    let fuel = (s.len() + 1) as nat;
    lemma_find_unique(s, a);
    lemma_find_unique(s, b);
    lemma_find_unique(s, c);
    assert(s.len() >= 2) by {
        let ia = choose|i: int| 0 <= i < s.len() && s[i] == a;
        let ib = choose|i: int| 0 <= i < s.len() && s[i] == b;
        assert(ia != ib);
    }
    assert(in_ancestors(s, Some(a.id), a.id, (fuel - 2) as nat));
    assert(in_ancestors(s, Some(b.id), a.id, (fuel - 1) as nat));
    assert(in_ancestors(s, Some(c.id), a.id, fuel));
    assert(in_ancestors(s, Some(a.id), a.id, (fuel - 1) as nat));
    assert(in_ancestors(s, Some(b.id), a.id, fuel));
    let rank = choose|rank: Map<i32, nat>| rank_ok(s, rank);
    let ib = choose|i: int| 0 <= i < s.len() && s[i] == b;
    let ic = choose|i: int| 0 <= i < s.len() && s[i] == c;
    assert(rank.contains_key(b.id) && rank[a.id] < rank[b.id]) by {
        assert(s[ib] == b);
    }
    assert(rank.contains_key(c.id) && rank[b.id] < rank[c.id]) by {
        assert(s[ic] == c);
    }
    lemma_walk_clear(s, rank, Some(a.id), c.id, fuel);
}

/// Finds the position of the first folder record with the given id.
pub(crate) fn find_folder_index(folders: &Vec<Folder>, id: i32) -> (r: Option<usize>)
    ensures
        match r {
            Option::Some(i) => i < folders@.len() && folders@[i as int].id == id && find_folder(
                folders@,
                id,
            ) == Some(folders@[i as int]),
            Option::None => find_folder(folders@, id) is None,
        },
{
    let n = folders.len();
    let mut i: usize = 0;
    proof {
        assert(folders@.subrange(0, n as int) =~= folders@);
    }
    while i < n
        invariant
            i <= n,
            n == folders@.len(),
            find_folder(folders@, id) == find_folder(folders@.subrange(i as int, n as int), id),
        decreases n - i,
    {
        if folders[i].id == id {
            proof {
                let s = folders@.subrange(i as int, n as int);
                assert(s[0] == folders@[i as int]);
            }
            return Some(i);
        }
        proof {
            let s = folders@.subrange(i as int, n as int);
            assert(s[0] == folders@[i as int]);
            assert(s.subrange(1, s.len() as int) =~= folders@.subrange(i + 1, n as int));
        }
        i = i + 1;
    }
    None
}

/// Reports whether `folder_id` occurs in the ancestor chain that starts
/// at `potential_parent_id` — that is, whether the potential parent lies
/// inside `folder_id`'s own subtree (or is that folder itself).
pub fn is_subfolder(folders: &Vec<Folder>, folder_id: i32, potential_parent_id: i32) -> (r: bool)
    ensures
        r == in_ancestors(
            folders@,
            Some(potential_parent_id),
            folder_id,
            (folders@.len() + 1) as nat,
        ),
{
    let ghost big: nat = (folders@.len() + 1) as nat;
    let mut cur: Option<i32> = Some(potential_parent_id);
    let mut fuel: u128 = folders.len() as u128 + 1;
    loop
        invariant
            big == (folders@.len() + 1) as nat,
            fuel <= big,
            in_ancestors(folders@, Some(potential_parent_id), folder_id, big) == in_ancestors(
                folders@,
                cur,
                folder_id,
                fuel as nat,
            ),
        decreases fuel,
    {
        match cur {
            Option::None => {
                return false;
            },
            Option::Some(c) => {
                if c == folder_id {
                    return true;
                }
                if fuel == 0 {
                    return true;
                }
                match find_folder_index(folders, c) {
                    Option::None => {
                        return false;
                    },
                    Option::Some(i) => {
                        cur = folders[i].parent_id;
                        fuel = fuel - 1;
                    },
                }
            },
        }
    }
}

/// Validates a move request against the folder records and says which
/// store mutation to perform: a bookmark moves unconditionally, a folder
/// moves to the root unconditionally, and a folder moves under a target
/// only when the target is not inside the folder's own subtree.
pub fn handle_move(folders: &Vec<Folder>, request: &MoveItemRequest) -> (r: Result<
    MoveAction,
    MoveError,
>)
    ensures
        request.item_type == ItemType::Bookmark ==> r == Ok::<MoveAction, MoveError>(
            MoveAction::ReparentBookmark(request.item_id, request.target_folder_id),
        ),
        request.item_type == ItemType::Folder && request.target_folder_id is None ==> r == Ok::<
            MoveAction,
            MoveError,
        >(MoveAction::ReparentFolder(request.item_id, request.target_folder_id)),
        request.item_type == ItemType::Folder && request.target_folder_id is Some ==> ({
            let t = request.target_folder_id->0;
            if in_ancestors(folders@, Some(t), request.item_id, (folders@.len() + 1) as nat) {
                r == Err::<MoveAction, MoveError>(MoveError::WouldCreateCycle)
            } else {
                r == Ok::<MoveAction, MoveError>(
                    MoveAction::ReparentFolder(request.item_id, request.target_folder_id),
                )
            }
        }),
{
    match request.item_type {
        ItemType::Folder => {
            match request.target_folder_id {
                Option::Some(target) => {
                    if is_subfolder(folders, request.item_id, target) {
                        Err(MoveError::WouldCreateCycle)
                    } else {
                        Ok(MoveAction::ReparentFolder(request.item_id, request.target_folder_id))
                    }
                },
                Option::None => Ok(
                    MoveAction::ReparentFolder(request.item_id, request.target_folder_id),
                ),
            }
        },
        ItemType::Bookmark => Ok(
            MoveAction::ReparentBookmark(request.item_id, request.target_folder_id),
        ),
    }
}

} // verus!
