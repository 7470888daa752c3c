//! The tree builder: turns the flat folder and bookmark records into the
//! nested `RootItems` view. Each record is consumed at most once, folders
//! whose parent cannot be resolved float to the root level, and every
//! level is sorted case-insensitively by name.

use vstd::prelude::*;
use vstd::multiset::Multiset;
use vstd::pervasive::VecAdditionalExecFns;
use crate::models::{
    Bookmark, Folder, FolderNode, RootItems, bookmarks_sorted, forest_bookmarks, forest_folders,
    forest_has_edge, forest_linked, forest_sorted, node_bookmarks, node_folders, node_has_edge,
    node_linked,
};
use crate::moves::{acyclic_folders, find_folder, rank_ok, unique_folder_ids};

verus! {

broadcast use {vstd::multiset::group_multiset_axioms, vstd::seq_lib::group_to_multiset_ensures};

/// The records at positions marked in `u2` but not in `u1`: what a pass
/// over the list consumed.
pub open spec fn marked_from<T>(s: Seq<T>, u1: Seq<bool>, u2: Seq<bool>, k: int) -> Multiset<T>
    decreases s.len() - k,
{
    if k < 0 || k >= s.len() || u1.len() != s.len() || u2.len() != s.len() {
        Multiset::empty()
    } else {
        (if !u1[k] && u2[k] {
            Multiset::singleton(s[k])
        } else {
            Multiset::empty()
        }).add(marked_from(s, u1, u2, k + 1))
    }
}

pub open spec fn marked_ms<T>(s: Seq<T>, u1: Seq<bool>, u2: Seq<bool>) -> Multiset<T> {
    marked_from(s, u1, u2, 0)
}

/// Marks only ever get set: whatever `u1` marked, `u2` still marks.
pub open spec fn le_marks(u1: Seq<bool>, u2: Seq<bool>) -> bool {
    u1.len() == u2.len() && forall|k: int| 0 <= k < u1.len() && u1[k] ==> u2[k]
}

/// Nothing consumed between identical mark states.
pub proof fn lemma_marked_refl<T>(s: Seq<T>, u: Seq<bool>, k: int)
    ensures
        marked_from(s, u, u, k) =~= Multiset::empty(),
    decreases s.len() - k,
{
    if 0 <= k < s.len() && u.len() == s.len() {
        lemma_marked_refl(s, u, k + 1);
    }
}

/// Consumption over two successive passes adds up.
pub proof fn lemma_marked_compose<T>(s: Seq<T>, u1: Seq<bool>, u2: Seq<bool>, u3: Seq<bool>, k: int)
    requires
        u1.len() == s.len(),
        u2.len() == s.len(),
        u3.len() == s.len(),
        le_marks(u1, u2),
        le_marks(u2, u3),
    ensures
        marked_from(s, u1, u3, k) =~= marked_from(s, u1, u2, k).add(marked_from(s, u2, u3, k)),
    decreases s.len() - k,
{
    if 0 <= k < s.len() {
        lemma_marked_compose(s, u1, u2, u3, k + 1);
    }
}

/// Setting a single fresh mark consumes exactly that record.
pub proof fn lemma_marked_single<T>(s: Seq<T>, u: Seq<bool>, j: int, k: int)
    requires
        u.len() == s.len(),
        0 <= j < s.len(),
        0 <= k,
        !u[j],
    ensures
        marked_from(s, u, u.update(j, true), k) =~= (if k <= j {
            Multiset::singleton(s[j])
        } else {
            Multiset::empty()
        }),
    decreases s.len() - k,
{
    if 0 <= k < s.len() {
        lemma_marked_single(s, u, j, k + 1);
    } else {
    }
}

/// A pass that starts with nothing marked and ends with everything
/// marked consumed the whole list.
pub proof fn lemma_marked_all<T>(s: Seq<T>, u1: Seq<bool>, u2: Seq<bool>, k: int)
    requires
        u1.len() == s.len(),
        u2.len() == s.len(),
        forall|m: int| 0 <= m < s.len() ==> !u1[m] && u2[m],
    ensures
        0 <= k <= s.len() ==> marked_from(s, u1, u2, k) =~= s.subrange(k, s.len() as int)
            .to_multiset(),
    decreases s.len() - k,
{
    broadcast use vstd::seq_lib::group_to_multiset_ensures;

    if 0 <= k < s.len() {
        lemma_marked_all(s, u1, u2, k + 1);
        let t = s.subrange(k, s.len() as int);
        assert(t.remove(0) =~= s.subrange(k + 1, s.len() as int));
        assert(t[0] == s[k]);
        assert(t.remove(0).to_multiset() =~= t.to_multiset().remove(s[k]));
        assert(t.contains(t[0]));
        assert(t.to_multiset().count(s[k]) > 0);
        assert(t.to_multiset() =~= t.to_multiset().remove(s[k]).insert(s[k]));
        assert(marked_from(s, u1, u2, k) =~= Multiset::singleton(s[k]).add(
            s.subrange(k + 1, s.len() as int).to_multiset(),
        ));
        assert(Multiset::singleton(s[k]).add(t.remove(0).to_multiset()) =~= t.remove(
            0,
        ).to_multiset().insert(s[k]));
    } else if k == s.len() {
        assert(s.subrange(k, s.len() as int).to_multiset() =~= Multiset::empty()) by {
            assert(s.subrange(k, s.len() as int).len() == 0);
        }
    }
}

/// How many positions are still unmarked: the builder's termination
/// measure.
pub open spec fn count_false(u: Seq<bool>) -> nat
    decreases u.len(),
{
    if u.len() == 0 {
        0
    } else {
        ((if u[0] {
            0nat
        } else {
            1nat
        }) + count_false(u.subrange(1, u.len() as int))) as nat
    }
}

pub proof fn lemma_count_false_le(u1: Seq<bool>, u2: Seq<bool>)
    requires
        le_marks(u1, u2),
    ensures
        count_false(u2) <= count_false(u1),
    decreases u1.len(),
{
    if u1.len() > 0 {
        let t1 = u1.subrange(1, u1.len() as int);
        let t2 = u2.subrange(1, u2.len() as int);
        assert(le_marks(t1, t2)) by {
            assert(forall|k: int| 0 <= k < t1.len() ==> t1[k] == u1[k + 1] && t2[k] == u2[k + 1]);
        }
        lemma_count_false_le(t1, t2);
    }
}

pub proof fn lemma_count_false_update(u: Seq<bool>, j: int)
    requires
        0 <= j < u.len(),
        !u[j],
    ensures
        count_false(u.update(j, true)) < count_false(u),
    decreases u.len(),
{
    let w = u.update(j, true);
    let tu = u.subrange(1, u.len() as int);
    let tw = w.subrange(1, w.len() as int);
    if j == 0 {
        assert(tw =~= tu);
    } else {
        assert(tw =~= tu.update(j - 1, true));
        lemma_count_false_update(tu, j - 1);
    }
}

/// Every mark `u2` set beyond `u1` stays set in any later state `u3`;
/// the parent-child closure predicates below quantify over such marks.
///
/// The tree is consistent with consumption when every consumed folder's
/// resolvable children are consumed too.
pub open spec fn closed_folders(s: Seq<Folder>, u: Seq<bool>) -> bool {
    forall|j: int, k: int|
        #![trigger u[j], u[k]]
        0 <= j < s.len() && 0 <= k < s.len() && u[j] && s[k].parent_id == Some(s[j].id) ==> u[k]
}

/// Every consumed folder's bookmarks are consumed.
pub open spec fn closed_bookmarks(
    s: Seq<Folder>,
    bms: Seq<Bookmark>,
    u: Seq<bool>,
    ub: Seq<bool>,
) -> bool {
    forall|j: int, k: int|
        #![trigger u[j], ub[k]]
        0 <= j < s.len() && 0 <= k < bms.len() && u[j] && bms[k].folder_id == Some(s[j].id)
            ==> ub[k]
}

/// An exact copy of a folder record.
pub fn clone_folder(f: &Folder) -> (r: Folder)
    ensures
        r == *f,
{
    Folder {
        id: f.id,
        name: f.name.clone(),
        created: f.created,
        parent_id: f.parent_id,
        favorite: f.favorite,
    }
}

fn clone_opt_string(s: &Option<String>) -> (r: Option<String>)
    ensures
        r == *s,
{
    match s {
        Option::Some(v) => Some(v.clone()),
        Option::None => None,
    }
}

/// An exact copy of a bookmark record.
pub fn clone_bookmark(b: &Bookmark) -> (r: Bookmark)
    ensures
        r == *b,
{
    Bookmark {
        id: b.id,
        name: b.name.clone(),
        url: b.url.clone(),
        favicon: clone_opt_string(&b.favicon),
        favicon_url: clone_opt_string(&b.favicon_url),
        created: b.created,
        folder_id: b.folder_id,
        favorite: b.favorite,
    }
}

/// Builds the node for the folder at position `i`, consuming every still
/// unconsumed record that belongs in its subtree: its bookmarks, its
/// child folders, and their subtrees in turn.
fn build_node(
    folders: &Vec<Folder>,
    bookmarks: &Vec<Bookmark>,
    i: usize,
    fused: &mut Vec<bool>,
    bused: &mut Vec<bool>,
    fuel: Ghost<nat>,
) -> (r: FolderNode)
    requires
        i < folders@.len(),
        old(fused)@.len() == folders@.len(),
        old(bused)@.len() == bookmarks@.len(),
        old(fused)@[i as int],
        fuel@ == count_false(old(fused)@),
    ensures
        final(fused)@.len() == folders@.len(),
        final(bused)@.len() == bookmarks@.len(),
        le_marks(old(fused)@, final(fused)@),
        le_marks(old(bused)@, final(bused)@),
        r.folder == folders@[i as int],
        node_linked(r),
        node_folders(r) == Multiset::singleton(folders@[i as int]).add(
            marked_ms(folders@, old(fused)@, final(fused)@),
        ),
        node_bookmarks(r) == marked_ms(bookmarks@, old(bused)@, final(bused)@),
        forall|k: int|
            0 <= k < folders@.len() && (#[trigger] folders@[k]).parent_id == Some(
                folders@[i as int].id,
            ) ==> final(fused)@[k],
        forall|k: int|
            0 <= k < bookmarks@.len() && (#[trigger] bookmarks@[k]).folder_id == Some(
                folders@[i as int].id,
            ) ==> final(bused)@[k],
        forall|j: int, k: int|
            #![trigger final(fused)@[j], final(fused)@[k]]
            0 <= j < folders@.len() && 0 <= k < folders@.len() && !old(fused)@[j]
                && final(fused)@[j] && folders@[k].parent_id == Some(folders@[j].id) ==> final(fused)@[k],
        forall|j: int, k: int|
            #![trigger final(fused)@[j], final(bused)@[k]]
            0 <= j < folders@.len() && 0 <= k < bookmarks@.len() && !old(fused)@[j]
                && final(fused)@[j] && bookmarks@[k].folder_id == Some(folders@[j].id) ==> final(bused)@[k],
    decreases fuel@,
{
    let ghost fu0 = fused@;
    let ghost bu0 = bused@;
    let me = clone_folder(&folders[i]);
    let my_id = me.id;
    let n = folders.len();
    let m = bookmarks.len();

    let mut bms: Vec<Bookmark> = Vec::new();
    let mut k: usize = 0;
    proof {
        lemma_marked_refl(bookmarks@, bu0, 0);
        assert(bms@.to_multiset().len() == 0);
    }
    while k < m
        invariant
            k <= m,
            m == bookmarks@.len(),
            bused@.len() == bookmarks@.len(),
            my_id == folders@[i as int].id,
            le_marks(bu0, bused@),
            bms@.to_multiset() == marked_ms(bookmarks@, bu0, bused@),
            forall|t: int| 0 <= t < bms@.len() ==> (#[trigger] bms@[t]).folder_id == Some(my_id),
            forall|t: int|
                0 <= t < k && (#[trigger] bookmarks@[t]).folder_id == Some(my_id) ==> bused@[t],
        decreases m - k,
    {
        let owned_here = match &bookmarks[k].folder_id {
            Option::Some(p) => *p == my_id,
            Option::None => false,
        };
        if owned_here && !bused[k] {
            let ghost bu_pre = bused@;
            bused.set(k, true);
            bms.push(clone_bookmark(&bookmarks[k]));
            proof {
                broadcast use vstd::seq_lib::group_to_multiset_ensures;

                lemma_marked_single(bookmarks@, bu_pre, k as int, 0);
                lemma_marked_compose(bookmarks@, bu0, bu_pre, bused@, 0);
                assert(marked_ms(bookmarks@, bu_pre, bused@) =~= Multiset::singleton(
                    bookmarks@[k as int],
                ));
                assert(bms@.to_multiset() =~= marked_ms(bookmarks@, bu0, bused@));
            }
        }
        k = k + 1;
    }
    let ghost bu1 = bused@;

    let mut children: Vec<FolderNode> = Vec::new();
    let mut k: usize = 0;
    proof {
        lemma_marked_refl(folders@, fu0, 0);
        lemma_marked_refl(bookmarks@, bu1, 0);
        assert(children@.to_multiset().len() == 0);
        assert(forest_folders(children@) =~= Multiset::empty());
        assert(forest_bookmarks(children@) =~= Multiset::empty());
    }
    while k < n
        invariant
            k <= n,
            n == folders@.len(),
            m == bookmarks@.len(),
            i < folders@.len(),
            fused@.len() == folders@.len(),
            bused@.len() == bookmarks@.len(),
            my_id == folders@[i as int].id,
            fu0.len() == folders@.len(),
            fu0[i as int],
            fuel@ == count_false(fu0),
            le_marks(fu0, fused@),
            le_marks(bu1, bused@),
            count_false(fused@) <= count_false(fu0),
            forest_folders(children@) == marked_ms(folders@, fu0, fused@),
            forest_bookmarks(children@) == marked_ms(bookmarks@, bu1, bused@),
            forall|t: int|
                0 <= t < children@.len() ==> (#[trigger] children@[t]).folder.parent_id == Some(
                    my_id,
                ) && node_linked(children@[t]),
            forall|t: int|
                0 <= t < k && (#[trigger] folders@[t]).parent_id == Some(my_id) ==> fused@[t],
            forall|j: int, t: int|
                #![trigger fused@[j], fused@[t]]
                0 <= j < folders@.len() && 0 <= t < folders@.len() && !fu0[j] && fused@[j]
                    && folders@[t].parent_id == Some(folders@[j].id) ==> fused@[t],
            forall|j: int, t: int|
                #![trigger fused@[j], bused@[t]]
                0 <= j < folders@.len() && 0 <= t < bookmarks@.len() && !fu0[j] && fused@[j]
                    && bookmarks@[t].folder_id == Some(folders@[j].id) ==> bused@[t],
        decreases n - k,
    {
        let is_child = match &folders[k].parent_id {
            Option::Some(p) => *p == my_id,
            Option::None => false,
        };
        if is_child && !fused[k] {
            let ghost fu_pre = fused@;
            let ghost bu_pre = bused@;
            fused.set(k, true);
            proof {
                lemma_count_false_le(fu0, fu_pre);
                lemma_count_false_update(fu_pre, k as int);
                assert(count_false(fused@) < fuel@);
            }
            let child = build_node(folders, bookmarks, k, fused, bused, Ghost(count_false(fused@)));
            let ghost ch_pre = children@;
            children.push(child);
            proof {
                broadcast use vstd::seq_lib::group_to_multiset_ensures;

                let fu_mark = fu_pre.update(k as int, true);
                assert(le_marks(fu_pre, fu_mark));
                assert(le_marks(fu0, fu_pre));
                assert(le_marks(fu_mark, fused@));
                assert(le_marks(fu0, fu_mark));
                lemma_marked_single(folders@, fu_pre, k as int, 0);
                lemma_marked_compose(folders@, fu0, fu_pre, fu_mark, 0);
                lemma_marked_compose(folders@, fu0, fu_mark, fused@, 0);
                assert(marked_ms(folders@, fu_pre, fu_mark) =~= Multiset::singleton(
                    folders@[k as int],
                ));
                assert(marked_ms(folders@, fu0, fused@) =~= marked_ms(folders@, fu0, fu_pre).add(
                    Multiset::singleton(folders@[k as int]),
                ).add(marked_ms(folders@, fu_mark, fused@)));
                lemma_marked_compose(bookmarks@, bu1, bu_pre, bused@, 0);
                lemma_forest_push(ch_pre, child);
                assert(children@ =~= ch_pre.push(child));
                assert(forest_folders(children@) == forest_folders(ch_pre).add(
                    node_folders(child),
                ));
                assert(forest_bookmarks(children@) == forest_bookmarks(ch_pre).add(
                    node_bookmarks(child),
                ));
                assert(forest_folders(ch_pre) == marked_ms(folders@, fu0, fu_pre));
                assert(forest_bookmarks(ch_pre) == marked_ms(bookmarks@, bu1, bu_pre));
                assert(node_folders(child) == Multiset::singleton(folders@[k as int]).add(
                    marked_ms(folders@, fu_pre.update(k as int, true), fused@),
                ));
                assert(forest_folders(children@) =~= marked_ms(folders@, fu0, fused@));
                assert(forest_bookmarks(children@) =~= marked_ms(bookmarks@, bu1, bused@));
                lemma_count_false_le(fu0, fused@);
            }
        }
        k = k + 1;
    }

    let node = FolderNode { folder: me, children, bookmarks: bms };
    proof {
        crate::sorting::lemma_forest_linked_iff(node.children@, my_id);
        lemma_marked_compose(bookmarks@, bu0, bu1, bused@, 0);
        assert(node_folders(node) =~= Multiset::singleton(folders@[i as int]).add(
            marked_ms(folders@, fu0, fused@),
        ));
        assert(node_bookmarks(node) =~= marked_ms(bookmarks@, bu0, bused@));
    }
    node
}

/// A folder's parent reference resolves to no record in the set: the
/// folder belongs at the root level.
pub open spec fn parent_unresolvable(s: Seq<Folder>, f: Folder) -> bool {
    match f.parent_id {
        Option::None => true,
        Option::Some(p) => find_folder(s, p) is None,
    }
}

/// A bookmark's folder reference resolves to no record in the set: the
/// bookmark belongs at the root level.
pub open spec fn folder_unresolvable(s: Seq<Folder>, b: Bookmark) -> bool {
    match b.folder_id {
        Option::None => true,
        Option::Some(p) => find_folder(s, p) is None,
    }
}

/// A folder record that sits anywhere in a linked forest and whose own
/// parent resolves is realised as a direct child of a node carrying its
/// parent's id — unless the record is one of the forest's own top nodes,
/// in which case its parent is the forest's.
proof fn lemma_forest_edge(s: Seq<FolderNode>, f: Folder, p: i32, pid: i32)
    requires
        forest_linked(s, pid),
        forest_folders(s).count(f) > 0,
        f.parent_id == Some(p),
    ensures
        forest_has_edge(s, p, f) || (p == pid && exists|i: int|
            0 <= i < s.len() && (#[trigger] s[i]).folder == f),
    decreases s,
{
    let t = s.subrange(1, s.len() as int);
    if node_folders(s[0]).count(f) > 0 {
        if f == s[0].folder {
            assert(s[0].folder.parent_id == Some(pid));
            assert(p == pid);
            assert(s[0].folder == f);
        } else {
            assert(Multiset::singleton(s[0].folder).count(f) == 0);
            assert(forest_folders(s[0].children@).count(f) > 0);
            assert(node_linked(s[0]));
            assert(decreases_to!(s => s[0].children@));
            lemma_forest_edge(s[0].children@, f, p, s[0].folder.id);
            assert(node_has_edge(s[0], p, f));
        }
    } else {
        assert(forest_folders(t).count(f) > 0);
        assert(forest_linked(t, pid));
        lemma_forest_edge(t, f, p, pid);
        if !forest_has_edge(t, p, f) {
            let i = choose|i: int| 0 <= i < t.len() && (#[trigger] t[i]).folder == f;
            assert(s[i + 1].folder == f);
        }
    }
}

/// At the root level — where every top node's own parent is
/// unresolvable — a record with a resolvable parent must lie strictly
/// inside some subtree, so its parent edge is realised.
proof fn lemma_roots_edge(s: Seq<FolderNode>, folders: Seq<Folder>, f: Folder, p: i32)
    requires
        forall|t: int|
            0 <= t < s.len() ==> node_linked(#[trigger] s[t]) && parent_unresolvable(
                folders,
                s[t].folder,
            ),
        forest_folders(s).count(f) > 0,
        f.parent_id == Some(p),
        find_folder(folders, p) is Some,
    ensures
        forest_has_edge(s, p, f),
    decreases s,
{
    let t = s.subrange(1, s.len() as int);
    if node_folders(s[0]).count(f) > 0 {
        if f == s[0].folder {
            assert(parent_unresolvable(folders, f));
            assert(false);
        } else {
            assert(Multiset::singleton(s[0].folder).count(f) == 0);
            assert(forest_folders(s[0].children@).count(f) > 0);
            assert(node_linked(s[0]));
            assert(decreases_to!(s => s[0].children@));
            lemma_forest_edge(s[0].children@, f, p, s[0].folder.id);
            assert(node_has_edge(s[0], p, f));
        }
    } else {
        assert(forest_folders(t).count(f) > 0);
        assert(forall|m: int| 0 <= m < t.len() ==> t[m] == s[m + 1]);
        lemma_roots_edge(t, folders, f, p);
    }
}

/// In an acyclic set where all root folders are consumed and consumption
/// is closed under the parent relation, every folder is consumed.
proof fn lemma_all_consumed(s: Seq<Folder>, u: Seq<bool>, rank: Map<i32, nat>, k: int)
    requires
        rank_ok(s, rank),
        u.len() == s.len(),
        closed_folders(s, u),
        forall|t: int| 0 <= t < s.len() && parent_unresolvable(s, #[trigger] s[t]) ==> u[t],
        0 <= k < s.len(),
    ensures
        u[k],
    decreases rank[s[k].id],
{
    match s[k].parent_id {
        Option::None => {},
        Option::Some(p) => {
            if find_folder(s, p) is None {
            } else {
                crate::moves::lemma_find_contains(s, p);
                let ip = choose|ip: int|
                    0 <= ip < s.len() && s[ip] == find_folder(s, p)->0 && (#[trigger] s[ip]).id
                        == p;
                assert(rank.contains_key(p) && rank[p] < rank[s[k].id]);
                assert(rank[s[ip].id] == rank[p]);
                lemma_all_consumed(s, u, rank, ip);
                assert(u[ip] && s[k].parent_id == Some(s[ip].id));
            }
        },
    }
}

/// Builds the nested tree from the flat records: every level sorted
/// case-insensitively by name, bookmarks attached to their owning
/// folders, folders to their parents, and items whose parent reference
/// does not resolve floated to the root level. With unique ids and an
/// acyclic parent relation the output holds every input record exactly
/// once.
pub fn build_tree(folders: &Vec<Folder>, bookmarks: &Vec<Bookmark>) -> (r: RootItems)
    ensures
        forest_sorted(r.root_folders@),
        bookmarks_sorted(r.root_bookmarks@),
        forall|t: int|
            0 <= t < r.root_folders@.len() ==> node_linked(#[trigger] r.root_folders@[t])
                && parent_unresolvable(folders@, r.root_folders@[t].folder),
        forall|t: int|
            0 <= t < r.root_bookmarks@.len() ==> folder_unresolvable(
                folders@,
                #[trigger] r.root_bookmarks@[t],
            ),
        unique_folder_ids(folders@) && acyclic_folders(folders@) ==> forest_folders(
            r.root_folders@,
        ) == folders@.to_multiset() && forest_bookmarks(r.root_folders@).add(
            r.root_bookmarks@.to_multiset(),
        ) == bookmarks@.to_multiset(),
        unique_folder_ids(folders@) && acyclic_folders(folders@) ==> (forall|i: int|
            0 <= i < folders@.len() ==> (match (#[trigger] folders@[i]).parent_id {
                Option::Some(p) => find_folder(folders@, p) is Some ==> forest_has_edge(
                    r.root_folders@,
                    p,
                    folders@[i],
                ),
                Option::None => true,
            })),
{
    let n = folders.len();
    let m = bookmarks.len();
    let mut fused: Vec<bool> = Vec::new();
    while fused.len() < n
        invariant
            fused@.len() <= n,
            forall|t: int| 0 <= t < fused@.len() ==> !fused@[t],
        decreases n - fused@.len(),
    {
        fused.push(false);
    }
    let mut bused: Vec<bool> = Vec::new();
    while bused.len() < m
        invariant
            bused@.len() <= m,
            forall|t: int| 0 <= t < bused@.len() ==> !bused@[t],
        decreases m - bused@.len(),
    {
        bused.push(false);
    }
    let ghost fu_init = fused@;
    let ghost bu_init = bused@;

    let mut root_folders: Vec<FolderNode> = Vec::new();
    let mut k: usize = 0;
    proof {
        lemma_marked_refl(folders@, fu_init, 0);
        lemma_marked_refl(bookmarks@, bu_init, 0);
        assert(root_folders@.to_multiset().len() == 0);
        assert(forest_folders(root_folders@) =~= Multiset::empty());
        assert(forest_bookmarks(root_folders@) =~= Multiset::empty());
    }
    while k < n
        invariant
            k <= n,
            n == folders@.len(),
            m == bookmarks@.len(),
            fused@.len() == n,
            bused@.len() == m,
            fu_init.len() == n,
            bu_init.len() == m,
            forall|t: int| 0 <= t < n ==> !fu_init[t],
            forall|t: int| 0 <= t < m ==> !bu_init[t],
            le_marks(fu_init, fused@),
            le_marks(bu_init, bused@),
            forest_folders(root_folders@) == marked_ms(folders@, fu_init, fused@),
            forest_bookmarks(root_folders@) == marked_ms(bookmarks@, bu_init, bused@),
            forall|t: int|
                0 <= t < root_folders@.len() ==> node_linked(#[trigger] root_folders@[t])
                    && parent_unresolvable(folders@, root_folders@[t].folder),
            forall|t: int|
                0 <= t < k && parent_unresolvable(folders@, #[trigger] folders@[t]) ==> fused@[t],
            closed_folders(folders@, fused@),
            closed_bookmarks(folders@, bookmarks@, fused@, bused@),
        decreases n - k,
    {
        let unresolved = match &folders[k].parent_id {
            Option::None => true,
            Option::Some(p) => crate::moves::find_folder_index(folders, *p).is_none(),
        };
        if unresolved && !fused[k] {
            let ghost fu_pre = fused@;
            let ghost bu_pre = bused@;
            fused.set(k, true);
            let ghost fl = count_false(fused@);
            let node = build_node(folders, bookmarks, k, &mut fused, &mut bused, Ghost(fl));
            let ghost rf_pre = root_folders@;
            root_folders.push(node);
            proof {
                let fu_mark = fu_pre.update(k as int, true);
                assert(le_marks(fu_pre, fu_mark));
                assert(le_marks(fu_mark, fused@));
                assert(le_marks(fu_init, fu_pre));
                assert(le_marks(fu_init, fu_mark));
                lemma_marked_single(folders@, fu_pre, k as int, 0);
                lemma_marked_compose(folders@, fu_init, fu_pre, fu_mark, 0);
                lemma_marked_compose(folders@, fu_init, fu_mark, fused@, 0);
                lemma_marked_compose(bookmarks@, bu_init, bu_pre, bused@, 0);
                lemma_forest_push(rf_pre, node);
                assert(root_folders@ =~= rf_pre.push(node));
                assert(forest_folders(root_folders@) == forest_folders(rf_pre).add(
                    node_folders(node),
                ));
                assert(forest_bookmarks(root_folders@) == forest_bookmarks(rf_pre).add(
                    node_bookmarks(node),
                ));
                assert(marked_ms(folders@, fu_pre, fu_mark) =~= Multiset::singleton(
                    folders@[k as int],
                ));
                assert(forest_folders(root_folders@) =~= marked_ms(folders@, fu_init, fused@));
                assert(forest_bookmarks(root_folders@) =~= marked_ms(bookmarks@, bu_init, bused@));
            }
        }
        k = k + 1;
    }
    let ghost fu_done = fused@;
    let ghost bu_mid = bused@;

    let mut root_bookmarks: Vec<Bookmark> = Vec::new();
    let mut k: usize = 0;
    proof {
        lemma_marked_refl(bookmarks@, bu_mid, 0);
        assert(root_bookmarks@.to_multiset().len() == 0);
    }
    while k < m
        invariant
            k <= m,
            n == folders@.len(),
            m == bookmarks@.len(),
            bused@.len() == m,
            fused@ == fu_done,
            le_marks(bu_mid, bused@),
            root_bookmarks@.to_multiset() == marked_ms(bookmarks@, bu_mid, bused@),
            forall|t: int|
                0 <= t < root_bookmarks@.len() ==> folder_unresolvable(
                    folders@,
                    #[trigger] root_bookmarks@[t],
                ),
            forall|t: int|
                0 <= t < k && folder_unresolvable(folders@, #[trigger] bookmarks@[t])
                    ==> bused@[t],
        decreases m - k,
    {
        let unresolved = match &bookmarks[k].folder_id {
            Option::None => true,
            Option::Some(p) => crate::moves::find_folder_index(folders, *p).is_none(),
        };
        if unresolved && !bused[k] {
            let ghost bu_pre = bused@;
            bused.set(k, true);
            root_bookmarks.push(clone_bookmark(&bookmarks[k]));
            proof {
                lemma_marked_single(bookmarks@, bu_pre, k as int, 0);
                lemma_marked_compose(bookmarks@, bu_mid, bu_pre, bused@, 0);
                assert(marked_ms(bookmarks@, bu_pre, bused@) =~= Multiset::singleton(
                    bookmarks@[k as int],
                ));
                assert(root_bookmarks@.to_multiset() =~= marked_ms(bookmarks@, bu_mid, bused@));
            }
        }
        k = k + 1;
    }

    proof {
        if unique_folder_ids(folders@) && acyclic_folders(folders@) {
            let rank = choose|rank: Map<i32, nat>| rank_ok(folders@, rank);
            assert forall|t: int| 0 <= t < n implies fused@[t] by {
                lemma_all_consumed(folders@, fused@, rank, t);
            }
            assert forall|t: int| 0 <= t < m implies bused@[t] by {
                let b = bookmarks@[t];
                if folder_unresolvable(folders@, b) {
                } else {
                    let p = b.folder_id->0;
                    crate::moves::lemma_find_contains(folders@, p);
                    let ip = choose|ip: int|
                        0 <= ip < folders@.len() && folders@[ip] == find_folder(folders@, p)->0
                            && (#[trigger] folders@[ip]).id == p;
                    assert(fused@[ip]);
                    assert(closed_bookmarks(folders@, bookmarks@, fu_done, bu_mid));
                    assert(bu_mid[t]);
                    assert(le_marks(bu_mid, bused@));
                }
            }
            lemma_marked_all(folders@, fu_init, fused@, 0);
            assert(folders@.subrange(0, folders@.len() as int) =~= folders@);
            lemma_marked_all(bookmarks@, bu_init, bused@, 0);
            assert(bookmarks@.subrange(0, bookmarks@.len() as int) =~= bookmarks@);
            lemma_marked_compose(bookmarks@, bu_init, bu_mid, bused@, 0);
            assert(forest_folders(root_folders@) =~= folders@.to_multiset());
            assert(forest_bookmarks(root_folders@).add(root_bookmarks@.to_multiset())
                =~= bookmarks@.to_multiset());
        }
    }

    let mut items = RootItems { root_folders, root_bookmarks };
    let ghost pre = items;
    items.sort_by_name();
    proof {
        assert forall|t: int|
            0 <= t < items.root_folders@.len() implies node_linked(#[trigger] items.root_folders@[t])
            && parent_unresolvable(folders@, items.root_folders@[t].folder) by {
            let mth = choose|mth: int|
                0 <= mth < pre.root_folders@.len() && items.root_folders@[t].folder
                    == pre.root_folders@[mth].folder && (node_linked(pre.root_folders@[mth])
                    ==> node_linked(items.root_folders@[t]));
        }
        assert forall|t: int|
            0 <= t < items.root_bookmarks@.len() implies folder_unresolvable(
            folders@,
            #[trigger] items.root_bookmarks@[t],
        ) by {
            broadcast use vstd::seq_lib::group_to_multiset_ensures;

            assert(items.root_bookmarks@.contains(items.root_bookmarks@[t]));
            assert(items.root_bookmarks@.to_multiset().count(items.root_bookmarks@[t]) > 0);
            assert(pre.root_bookmarks@.to_multiset().count(items.root_bookmarks@[t]) > 0);
            assert(pre.root_bookmarks@.contains(items.root_bookmarks@[t]));
        }
        if unique_folder_ids(folders@) && acyclic_folders(folders@) {
            assert(forest_folders(items.root_folders@) == folders@.to_multiset());
            assert forall|i: int|
                0 <= i < folders@.len() implies (match (#[trigger] folders@[i]).parent_id {
                Option::Some(p) => find_folder(folders@, p) is Some ==> forest_has_edge(
                    items.root_folders@,
                    p,
                    folders@[i],
                ),
                Option::None => true,
            }) by {
                let f = folders@[i];
                match f.parent_id {
                    Option::Some(p) => {
                        if find_folder(folders@, p) is Some {
                            assert(folders@.contains(f));
                            assert(folders@.to_multiset().count(f) > 0);
                            lemma_roots_edge(items.root_folders@, folders@, f, p);
                        }
                    },
                    Option::None => {},
                }
            }
        }
    }
    items
}

/// Appending one node to a forest adds exactly its records.
proof fn lemma_forest_push(s: Seq<FolderNode>, x: FolderNode)
    ensures
        forest_folders(s.push(x)) =~= forest_folders(s).add(node_folders(x)),
        forest_bookmarks(s.push(x)) =~= forest_bookmarks(s).add(node_bookmarks(x)),
    decreases s.len(),
{
    let t = s.push(x);
    if s.len() == 0 {
        assert(t[0] == x);
        assert(t.subrange(1, t.len() as int) =~= Seq::<FolderNode>::empty());
        assert(forest_folders(Seq::<FolderNode>::empty()) == Multiset::<Folder>::empty());
        assert(forest_bookmarks(Seq::<FolderNode>::empty()) == Multiset::<Bookmark>::empty());
        assert(forest_folders(s) == Multiset::<Folder>::empty());
        assert(forest_bookmarks(s) == Multiset::<Bookmark>::empty());
        assert(forest_folders(t) == node_folders(x).add(Multiset::<Folder>::empty()));
        assert(forest_bookmarks(t) == node_bookmarks(x).add(Multiset::<Bookmark>::empty()));
    } else {
        let sp = s.subrange(1, s.len() as int);
        assert(t[0] == s[0]);
        assert(t.subrange(1, t.len() as int) =~= sp.push(x));
        lemma_forest_push(sp, x);
        assert(forest_folders(t) == node_folders(s[0]).add(forest_folders(sp.push(x))));
        assert(forest_folders(sp.push(x)) == forest_folders(sp).add(node_folders(x)));
        assert(forest_folders(s) == node_folders(s[0]).add(forest_folders(sp)));
        assert(forest_bookmarks(t) == node_bookmarks(s[0]).add(forest_bookmarks(sp.push(x))));
        assert(forest_bookmarks(sp.push(x)) == forest_bookmarks(sp).add(node_bookmarks(x)));
        assert(forest_bookmarks(s) == node_bookmarks(s[0]).add(forest_bookmarks(sp)));
    }
}

} // verus!
