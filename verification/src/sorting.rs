//! Case-insensitive sorting of sibling folders and bookmarks, and the
//! recursive `sort_by_name` pass over a built tree.

use vstd::prelude::*;
use vstd::multiset::Multiset;
use crate::models::{
    Bookmark, Folder, FolderNode, RootItems, bookmark_name_le, bookmarks_sorted, folder_name_le,
    forest_bookmarks, forest_folders, forest_linked, forest_nodes_sorted, forest_sorted,
    level_order, node_bookmarks, node_folders, node_linked, node_sorted,
};
use crate::strutil::{lemma_lex_le_total, lemma_lex_le_trans, lex_le_exec, lower_chars};

verus! {

/// Inserting an element anywhere adds exactly it to the sequence's
/// multiset.
pub proof fn lemma_insert_multiset<A>(s: Seq<A>, j: int, x: A)
    requires
        0 <= j <= s.len(),
    ensures
        s.insert(j, x).to_multiset() =~= s.to_multiset().insert(x),
{
    broadcast use vstd::seq_lib::group_to_multiset_ensures;

    let t = s.insert(j, x);
    assert(t.remove(j) =~= s);
    assert(t[j] == x);
    assert(t.remove(j).to_multiset() =~= t.to_multiset().remove(x));
    assert(t.contains(x));
    assert(t.to_multiset().count(x) > 0);
    assert(t.to_multiset() =~= t.to_multiset().remove(x).insert(x));
}

/// `x` inserted into `t` after every element whose key is not greater:
/// equal keys stay before `x`, so repeated insertion sorts stably.
pub open spec fn insert_bm(t: Seq<Bookmark>, x: Bookmark) -> Seq<Bookmark>
    decreases t.len(),
{
    if t.len() == 0 {
        seq![x]
    } else if bookmark_name_le(t[0], x) {
        seq![t[0]] + insert_bm(t.subrange(1, t.len() as int), x)
    } else {
        seq![x] + t
    }
}

/// The stable sort of the bookmarks by case-insensitive name: elements
/// are inserted left to right, and equal keys keep their input order.
pub open spec fn stable_sort_bms(s: Seq<Bookmark>) -> Seq<Bookmark>
    decreases s.len(),
{
    if s.len() == 0 {
        Seq::empty()
    } else {
        insert_bm(stable_sort_bms(s.drop_last()), s.last())
    }
}

/// `x` inserted into a sibling list after every node whose key is not
/// greater.
pub open spec fn insert_node(t: Seq<FolderNode>, x: FolderNode) -> Seq<FolderNode>
    decreases t.len(),
{
    if t.len() == 0 {
        seq![x]
    } else if folder_name_le(t[0].folder, x.folder) {
        seq![t[0]] + insert_node(t.subrange(1, t.len() as int), x)
    } else {
        seq![x] + t
    }
}

/// The stable sort of sibling nodes by case-insensitive folder name.
pub open spec fn stable_sort_nodes(s: Seq<FolderNode>) -> Seq<FolderNode>
    decreases s.len(),
{
    if s.len() == 0 {
        Seq::empty()
    } else {
        insert_node(stable_sort_nodes(s.drop_last()), s.last())
    }
}

/// Inserting at the position the scan found is the stable insertion:
/// everything left of `j` keeps before `x`, everything from `j` on goes
/// after.
proof fn lemma_insert_bm_at(t: Seq<Bookmark>, x: Bookmark, j: int)
    requires
        0 <= j <= t.len(),
        forall|m: int| 0 <= m < j ==> bookmark_name_le(#[trigger] t[m], x),
        forall|m: int| j <= m < t.len() ==> !bookmark_name_le(#[trigger] t[m], x),
    ensures
        insert_bm(t, x) == t.insert(j, x),
    decreases t.len(),
{
    if t.len() == 0 {
        assert(insert_bm(t, x) =~= t.insert(0, x));
    } else if j == 0 {
        assert(insert_bm(t, x) =~= seq![x] + t);
        assert(t.insert(0, x) =~= seq![x] + t);
    } else {
        let tt = t.subrange(1, t.len() as int);
        assert(forall|m: int| 0 <= m < tt.len() ==> tt[m] == t[m + 1]);
        lemma_insert_bm_at(tt, x, j - 1);
        assert(insert_bm(t, x) =~= seq![t[0]] + tt.insert(j - 1, x));
        assert(t.insert(j, x) =~= seq![t[0]] + tt.insert(j - 1, x));
    }
}

proof fn lemma_insert_node_at(t: Seq<FolderNode>, x: FolderNode, j: int)
    requires
        0 <= j <= t.len(),
        forall|m: int| 0 <= m < j ==> folder_name_le((#[trigger] t[m]).folder, x.folder),
        forall|m: int| j <= m < t.len() ==> !folder_name_le((#[trigger] t[m]).folder, x.folder),
    ensures
        insert_node(t, x) == t.insert(j, x),
    decreases t.len(),
{
    if t.len() == 0 {
        assert(insert_node(t, x) =~= t.insert(0, x));
    } else if j == 0 {
        assert(insert_node(t, x) =~= seq![x] + t);
        assert(t.insert(0, x) =~= seq![x] + t);
    } else {
        let tt = t.subrange(1, t.len() as int);
        assert(forall|m: int| 0 <= m < tt.len() ==> tt[m] == t[m + 1]);
        lemma_insert_node_at(tt, x, j - 1);
        assert(insert_node(t, x) =~= seq![t[0]] + tt.insert(j - 1, x));
        assert(t.insert(j, x) =~= seq![t[0]] + tt.insert(j - 1, x));
    }
}

/// A subtree reduced to its mathematical content: the same shape with
/// sequences for the child and bookmark lists.
pub struct TreeView {
    pub folder: Folder,
    pub children: Seq<TreeView>,
    pub bookmarks: Seq<Bookmark>,
}

pub open spec fn node_view(n: FolderNode) -> TreeView
    decreases n,
{
    TreeView { folder: n.folder, children: forest_view(n.children@), bookmarks: n.bookmarks@ }
}

pub open spec fn forest_view(s: Seq<FolderNode>) -> Seq<TreeView>
    decreases s,
{
    if s.len() == 0 {
        Seq::empty()
    } else {
        seq![node_view(s[0])] + forest_view(s.subrange(1, s.len() as int))
    }
}

/// `x` inserted among sibling views after every node whose key is not
/// greater.
pub open spec fn insert_view(t: Seq<TreeView>, x: TreeView) -> Seq<TreeView>
    decreases t.len(),
{
    if t.len() == 0 {
        seq![x]
    } else if folder_name_le(t[0].folder, x.folder) {
        seq![t[0]] + insert_view(t.subrange(1, t.len() as int), x)
    } else {
        seq![x] + t
    }
}

/// The stable sort of sibling views by case-insensitive folder name.
pub open spec fn stable_sort_views(s: Seq<TreeView>) -> Seq<TreeView>
    decreases s.len(),
{
    if s.len() == 0 {
        Seq::empty()
    } else {
        insert_view(stable_sort_views(s.drop_last()), s.last())
    }
}

/// The fully sorted form of a subtree: at every level the children and
/// bookmarks stand in stable case-insensitive name order, ties keeping
/// their input relative order.
pub open spec fn sort_view(v: TreeView) -> TreeView
    decreases v,
{
    TreeView {
        folder: v.folder,
        children: stable_sort_views(sort_forest_view(v.children)),
        bookmarks: stable_sort_bms(v.bookmarks),
    }
}

pub open spec fn sort_forest_view(s: Seq<TreeView>) -> Seq<TreeView>
    decreases s,
{
    if s.len() == 0 {
        Seq::empty()
    } else {
        seq![sort_view(s[0])] + sort_forest_view(s.subrange(1, s.len() as int))
    }
}

/// A forest's view lists each node's view in order.
pub proof fn lemma_forest_view_index(s: Seq<FolderNode>)
    ensures
        forest_view(s).len() == s.len(),
        forall|i: int| 0 <= i < s.len() ==> forest_view(s)[i] == node_view(#[trigger] s[i]),
    decreases s.len(),
{
    if s.len() > 0 {
        let t = s.subrange(1, s.len() as int);
        lemma_forest_view_index(t);
        assert(forall|i: int| 0 <= i < t.len() ==> t[i] == s[i + 1]);
        assert(forest_view(s) == seq![node_view(s[0])] + forest_view(t));
        assert forall|i: int|
            0 <= i < s.len() implies forest_view(s)[i] == node_view(#[trigger] s[i]) by {
            if i > 0 {
                assert(t[i - 1] == s[i]);
                assert(forest_view(s)[i] == (seq![node_view(s[0])] + forest_view(t))[i]);
                assert(forest_view(s)[i] == forest_view(t)[i - 1]);
                assert(forest_view(t)[i - 1] == node_view(t[i - 1]));
            } else {
                assert(forest_view(s)[0] == (seq![node_view(s[0])] + forest_view(t))[0]);
            }
        }
    }
}

/// Sorting each view in a forest lists each sorted view in order.
pub proof fn lemma_sort_forest_view_index(s: Seq<TreeView>)
    ensures
        sort_forest_view(s).len() == s.len(),
        forall|i: int| 0 <= i < s.len() ==> sort_forest_view(s)[i] == sort_view(#[trigger] s[i]),
    decreases s.len(),
{
    if s.len() > 0 {
        let t = s.subrange(1, s.len() as int);
        lemma_sort_forest_view_index(t);
        assert(forall|i: int| 0 <= i < t.len() ==> t[i] == s[i + 1]);
        assert(sort_forest_view(s) == seq![sort_view(s[0])] + sort_forest_view(t));
        assert forall|i: int|
            0 <= i < s.len() implies sort_forest_view(s)[i] == sort_view(#[trigger] s[i]) by {
            if i > 0 {
                assert(t[i - 1] == s[i]);
                assert(sort_forest_view(s)[i] == (seq![sort_view(s[0])] + sort_forest_view(t))[i]);
                assert(sort_forest_view(s)[i] == sort_forest_view(t)[i - 1]);
                assert(sort_forest_view(t)[i - 1] == sort_view(t[i - 1]));
            } else {
                assert(sort_forest_view(s)[0] == (seq![sort_view(s[0])] + sort_forest_view(t))[0]);
            }
        }
    }
}

/// Taking views commutes with stable insertion: the keys agree, so the
/// element lands in the same place.
proof fn lemma_insert_view_commutes(t: Seq<FolderNode>, x: FolderNode)
    ensures
        forest_view(insert_node(t, x)) =~= insert_view(forest_view(t), node_view(x)),
    decreases t.len(),
{
    lemma_forest_view_index(t);
    if t.len() == 0 {
        assert(insert_node(t, x) == seq![x]);
        lemma_forest_view_index(seq![x]);
        assert(forest_view(seq![x])[0] == node_view(x));
        assert(insert_view(forest_view(t), node_view(x)) == seq![node_view(x)]);
        assert(forest_view(insert_node(t, x)) =~= insert_view(forest_view(t), node_view(x)));
    } else if folder_name_le(t[0].folder, x.folder) {
        let tt = t.subrange(1, t.len() as int);
        let ins = insert_node(tt, x);
        lemma_insert_view_commutes(tt, x);
        lemma_forest_view_index(tt);
        lemma_forest_view_index(ins);
        lemma_forest_view_index(insert_node(t, x));
        assert(insert_node(t, x) == seq![t[0]] + ins);
        assert(forest_view(t)[0] == node_view(t[0]));
        assert(forest_view(t).subrange(1, forest_view(t).len() as int) =~= forest_view(tt)) by {
            assert forall|i: int| 0 <= i < tt.len() implies forest_view(t)[i + 1] == forest_view(
                tt,
            )[i] by {
                assert(tt[i] == t[i + 1]);
                assert(forest_view(t)[i + 1] == node_view(t[i + 1]));
                assert(forest_view(tt)[i] == node_view(tt[i]));
            }
        }
        assert(insert_view(forest_view(t), node_view(x)) == seq![node_view(t[0])] + insert_view(
            forest_view(t).subrange(1, forest_view(t).len() as int),
            node_view(x),
        ));
        assert forall|i: int| 0 <= i < forest_view(insert_node(t, x)).len() implies forest_view(
            insert_node(t, x),
        )[i] == insert_view(forest_view(t), node_view(x))[i] by {
            assert(forest_view(insert_node(t, x))[i] == node_view(insert_node(t, x)[i]));
            if i == 0 {
                assert(insert_node(t, x)[0] == t[0]);
            } else {
                assert(insert_node(t, x)[i] == ins[i - 1]);
                assert(forest_view(ins)[i - 1] == node_view(ins[i - 1]));
                assert(forest_view(ins)[i - 1] == insert_view(forest_view(tt), node_view(x))[i
                    - 1]);
            }
        }
        assert(forest_view(insert_node(t, x)) =~= insert_view(forest_view(t), node_view(x)));
    } else {
        assert(insert_node(t, x) == seq![x] + t);
        lemma_forest_view_index(seq![x] + t);
        lemma_forest_view_index(insert_node(t, x));
        assert(forest_view(t)[0] == node_view(t[0]));
        assert(insert_view(forest_view(t), node_view(x)) == seq![node_view(x)] + forest_view(t));
        assert forall|i: int| 0 <= i < forest_view(insert_node(t, x)).len() implies forest_view(
            insert_node(t, x),
        )[i] == insert_view(forest_view(t), node_view(x))[i] by {
            assert(forest_view(insert_node(t, x))[i] == node_view(insert_node(t, x)[i]));
            if i == 0 {
                assert(insert_node(t, x)[0] == x);
            } else {
                assert(insert_node(t, x)[i] == t[i - 1]);
                assert(forest_view(t)[i - 1] == node_view(t[i - 1]));
            }
        }
        assert(forest_view(insert_node(t, x)) =~= insert_view(forest_view(t), node_view(x)));
    }
}

/// Taking views commutes with the stable sort of a sibling list.
proof fn lemma_sort_views_commutes(s: Seq<FolderNode>)
    ensures
        forest_view(stable_sort_nodes(s)) =~= stable_sort_views(forest_view(s)),
    decreases s.len(),
{
    lemma_forest_view_index(s);
    if s.len() == 0 {
        assert(forest_view(stable_sort_nodes(s)) =~= stable_sort_views(forest_view(s)));
    } else {
        let d = s.drop_last();
        lemma_sort_views_commutes(d);
        lemma_forest_view_index(d);
        assert(forest_view(s).drop_last() =~= forest_view(d)) by {
            assert forall|i: int| 0 <= i < d.len() implies forest_view(s)[i] == forest_view(
                d,
            )[i] by {
                assert(d[i] == s[i]);
                assert(forest_view(s)[i] == node_view(s[i]));
                assert(forest_view(d)[i] == node_view(d[i]));
            }
        }
        assert(s.last() == s[s.len() - 1]);
        assert(forest_view(s)[s.len() - 1] == node_view(s[s.len() - 1]));
        assert(forest_view(s).last() == node_view(s.last()));
        lemma_insert_view_commutes(stable_sort_nodes(d), s.last());
        assert(stable_sort_nodes(s) == insert_node(stable_sort_nodes(d), s.last()));
        assert(stable_sort_views(forest_view(s)) == insert_view(
            stable_sort_views(forest_view(s).drop_last()),
            forest_view(s).last(),
        ));
        assert(forest_view(stable_sort_nodes(s)) =~= stable_sort_views(forest_view(s)));
    }
}

/// Case-insensitive comparison of two bookmarks by name.
fn bookmark_le_exec(a: &Bookmark, b: &Bookmark) -> (r: bool)
    ensures
        r == bookmark_name_le(*a, *b),
{
    let la = lower_chars(a.name.as_str());
    let lb = lower_chars(b.name.as_str());
    lex_le_exec(&la, &lb)
}

/// Case-insensitive comparison of two sibling nodes by folder name.
fn node_le_exec(a: &FolderNode, b: &FolderNode) -> (r: bool)
    ensures
        r == folder_name_le(a.folder, b.folder),
{
    let la = lower_chars(a.folder.name.as_str());
    let lb = lower_chars(b.folder.name.as_str());
    lex_le_exec(&la, &lb)
}

/// Sorts bookmarks case-insensitively by name, keeping exactly the same
/// records; the result is the stable sort, so equal names keep their
/// input relative order.
pub fn sort_bookmarks(v: &mut Vec<Bookmark>)
    ensures
        bookmarks_sorted(final(v)@),
        final(v)@.to_multiset() == old(v)@.to_multiset(),
        final(v)@.len() == old(v)@.len(),
        final(v)@ == stable_sort_bms(old(v)@),
{
    broadcast use vstd::seq_lib::group_to_multiset_ensures;

    let n = v.len();
    if n <= 1 {
        proof {
            if v@.len() == 0 {
                assert(stable_sort_bms(v@) =~= v@);
            } else {
                assert(v@.drop_last() =~= Seq::<Bookmark>::empty());
                assert(stable_sort_bms(Seq::<Bookmark>::empty()) =~= Seq::<Bookmark>::empty());
                assert(insert_bm(Seq::<Bookmark>::empty(), v@.last()) =~= seq![v@.last()]);
                assert(stable_sort_bms(v@) =~= seq![v@[0]]);
                assert(v@ =~= seq![v@[0]]);
            }
        }
        return ;
    }
    let mut i: usize = 1;
    proof {
        let p1 = v@.subrange(0, 1);
        assert(p1.drop_last() =~= Seq::<Bookmark>::empty());
        assert(stable_sort_bms(Seq::<Bookmark>::empty()) =~= Seq::<Bookmark>::empty());
        assert(insert_bm(Seq::<Bookmark>::empty(), p1.last()) =~= seq![p1.last()]);
        assert(stable_sort_bms(p1) =~= seq![v@[0]]);
        assert(p1 =~= seq![v@[0]]);
    }
    while i < n
        invariant
            1 <= i <= n,
            n == v@.len(),
            n == old(v)@.len(),
            bookmarks_sorted(v@.subrange(0, i as int)),
            v@.to_multiset() == old(v)@.to_multiset(),
            forall|m: int| i <= m < n ==> v@[m] == old(v)@[m],
            v@.subrange(0, i as int) == stable_sort_bms(old(v)@.subrange(0, i as int)),
        decreases n - i,
    {
        let mut j: usize = i;
        while j > 0 && !bookmark_le_exec(&v[j - 1], &v[i])
            invariant
                j <= i < n,
                n == v@.len(),
                forall|m: int| j <= m < i ==> !bookmark_name_le(v@[m], v@[i as int]),
            decreases j,
        {
            j = j - 1;
        }
        if j < i {
            let ghost s = v@;
            let x = v.remove(i);
            v.insert(j, x);
            proof {
                broadcast use vstd::seq_lib::group_to_multiset_ensures;

                assert(v@ == s.remove(i as int).insert(j as int, x));
                assert(s[i as int] == x);
                assert(s.remove(i as int).to_multiset() =~= s.to_multiset().remove(x));
                lemma_insert_multiset(s.remove(i as int), j as int, x);
                assert(s.contains(x)) by {
                    assert(s[i as int] == x);
                }
                assert(s.to_multiset().count(x) > 0);
                assert(v@.to_multiset() =~= s.to_multiset());
                assert forall|p: int, q: int| 0 <= p < q <= i implies bookmark_name_le(
                    v@[p],
                    v@[q],
                ) by {
                    assert forall|m: int| 0 <= m <= i implies v@[m] == (if m < j {
                        s[m]
                    } else if m == j {
                        x
                    } else {
                        s[m - 1]
                    }) by {
                        assert(v@[m] == s.remove(i as int).insert(j as int, x)[m]);
                    }
                    assert(forall|m: int| 0 <= m < i ==> s.subrange(0, i as int)[m] == s[m]);
                    if q < j {
                        // both inside the old sorted prefix
                    } else if q == j {
                        // p < j: the scan stopped at j, so s[j-1] <= x, and the
                        // prefix order carries p up to j-1
                        if p < j - 1 {
                            lemma_bm_trans(s[p], s[j - 1], x);
                        }
                    } else if p == j {
                        // x goes before every element the scan stepped over
                        lemma_lex_le_total(
                            crate::strutil::lower_of(s[q - 1].name@),
                            crate::strutil::lower_of(x.name@),
                        );
                    } else if p < j {
                        // p in the old prefix, q a stepped-over element
                    } else {
                        // both stepped-over elements keep their old order
                    }
                }
                assert(bookmarks_sorted(v@.subrange(0, i + 1))) by {
                    assert(forall|m: int| 0 <= m <= i ==> v@.subrange(0, i + 1)[m] == v@[m]);
                }
                let t = s.subrange(0, i as int);
                assert(forall|m: int| 0 <= m < i ==> t[m] == s[m]);
                assert forall|m: int| 0 <= m < j implies bookmark_name_le(#[trigger] t[m], x) by {
                    if m < j - 1 {
                        lemma_bm_trans(t[m], s[j - 1], x);
                    }
                }
                lemma_insert_bm_at(t, x, j as int);
                assert(v@.subrange(0, i + 1) =~= t.insert(j as int, x)) by {
                    assert(forall|m: int| 0 <= m <= i ==> v@.subrange(0, i + 1)[m] == v@[m]);
                }
                let p0 = old(v)@.subrange(0, i as int);
                let p1 = old(v)@.subrange(0, i + 1);
                assert(p1.drop_last() =~= p0);
                assert(p1.last() == old(v)@[i as int]);
                assert(x == old(v)@[i as int]);
                assert(t == stable_sort_bms(p0));
                assert(stable_sort_bms(p1) == insert_bm(t, x));
                assert(v@.subrange(0, i + 1) == stable_sort_bms(p1));
                assert forall|m: int| i + 1 <= m < n implies v@[m] == old(v)@[m] by {
                    assert(v@[m] == s.remove(i as int).insert(j as int, x)[m]);
                    assert(v@[m] == s[m]);
                }
            }
        } else {
            proof {
                assert(bookmarks_sorted(v@.subrange(0, i + 1))) by {
                    assert(forall|m: int| 0 <= m <= i ==> v@.subrange(0, i + 1)[m] == v@[m]);
                    assert(forall|m: int| 0 <= m < i ==> v@.subrange(0, i as int)[m] == v@[m]);
                    assert forall|p: int, q: int| 0 <= p < q <= i implies bookmark_name_le(
                        v@[p],
                        v@[q],
                    ) by {
                        if q == i as int && p < j {
                            if j > 0 {
                                if p < j - 1 {
                                    lemma_bm_trans(v@[p], v@[j - 1], v@[i as int]);
                                }
                            }
                        } else if q == i as int {
                            // j == i: the element is already in place relative
                            // to its left neighbour
                            assert(j == i);
                        }
                    }
                }
                let ghost x = v@[i as int];
                let t = v@.subrange(0, i as int);
                assert(forall|m: int| 0 <= m < i ==> t[m] == v@[m]);
                assert forall|m: int| 0 <= m < i implies bookmark_name_le(#[trigger] t[m], x) by {
                    if m < i - 1 {
                        assert(bookmark_name_le(t[m], t[i - 1]));
                        lemma_bm_trans(t[m], v@[i - 1], x);
                    }
                }
                lemma_insert_bm_at(t, x, i as int);
                assert(v@.subrange(0, i + 1) =~= t.insert(i as int, x)) by {
                    assert(forall|m: int| 0 <= m <= i ==> v@.subrange(0, i + 1)[m] == v@[m]);
                }
                let p0 = old(v)@.subrange(0, i as int);
                let p1 = old(v)@.subrange(0, i + 1);
                assert(p1.drop_last() =~= p0);
                assert(p1.last() == old(v)@[i as int]);
                assert(x == old(v)@[i as int]);
                assert(t == stable_sort_bms(p0));
                assert(stable_sort_bms(p1) == insert_bm(t, x));
                assert(v@.subrange(0, i + 1) == stable_sort_bms(p1));
            }
        }
        i = i + 1;
    }
    proof {
        assert(v@.subrange(0, n as int) =~= v@);
        assert(old(v)@.subrange(0, n as int) =~= old(v)@);
    }
}

/// Sorts sibling nodes case-insensitively by folder name, keeping
/// exactly the same nodes; the result is the stable sort, so equal
/// names keep their input relative order.
pub fn sort_nodes(v: &mut Vec<FolderNode>)
    ensures
        level_order(final(v)@),
        final(v)@.to_multiset() == old(v)@.to_multiset(),
        final(v)@.len() == old(v)@.len(),
        final(v)@ == stable_sort_nodes(old(v)@),
{
    broadcast use vstd::seq_lib::group_to_multiset_ensures;

    let n = v.len();
    if n <= 1 {
        proof {
            if v@.len() == 0 {
                assert(stable_sort_nodes(v@) =~= v@);
            } else {
                assert(v@.drop_last() =~= Seq::<FolderNode>::empty());
                assert(stable_sort_nodes(Seq::<FolderNode>::empty()) =~= Seq::<
                    FolderNode,
                >::empty());
                assert(insert_node(Seq::<FolderNode>::empty(), v@.last()) =~= seq![v@.last()]);
                assert(stable_sort_nodes(v@) =~= seq![v@[0]]);
                assert(v@ =~= seq![v@[0]]);
            }
        }
        return ;
    }
    let mut i: usize = 1;
    proof {
        let p1 = v@.subrange(0, 1);
        assert(p1.drop_last() =~= Seq::<FolderNode>::empty());
        assert(stable_sort_nodes(Seq::<FolderNode>::empty()) =~= Seq::<FolderNode>::empty());
        assert(insert_node(Seq::<FolderNode>::empty(), p1.last()) =~= seq![p1.last()]);
        assert(stable_sort_nodes(p1) =~= seq![v@[0]]);
        assert(p1 =~= seq![v@[0]]);
    }
    while i < n
        invariant
            1 <= i <= n,
            n == v@.len(),
            n == old(v)@.len(),
            level_order(v@.subrange(0, i as int)),
            v@.to_multiset() == old(v)@.to_multiset(),
            forall|m: int| i <= m < n ==> v@[m] == old(v)@[m],
            v@.subrange(0, i as int) == stable_sort_nodes(old(v)@.subrange(0, i as int)),
        decreases n - i,
    {
        let mut j: usize = i;
        while j > 0 && !node_le_exec(&v[j - 1], &v[i])
            invariant
                j <= i < n,
                n == v@.len(),
                forall|m: int|
                    j <= m < i ==> !folder_name_le(
                        (#[trigger] v@[m]).folder,
                        v@[i as int].folder,
                    ),
            decreases j,
        {
            j = j - 1;
        }
        if j < i {
            let ghost s = v@;
            let x = v.remove(i);
            v.insert(j, x);
            proof {
                broadcast use vstd::seq_lib::group_to_multiset_ensures;

                assert(v@ == s.remove(i as int).insert(j as int, x));
                assert(s[i as int] == x);
                assert(s.remove(i as int).to_multiset() =~= s.to_multiset().remove(x));
                lemma_insert_multiset(s.remove(i as int), j as int, x);
                assert(s.contains(x)) by {
                    assert(s[i as int] == x);
                }
                assert(s.to_multiset().count(x) > 0);
                assert(v@.to_multiset() =~= s.to_multiset());
                assert forall|p: int, q: int| 0 <= p < q <= i implies folder_name_le(
                    v@[p].folder,
                    v@[q].folder,
                ) by {
                    assert forall|m: int| 0 <= m <= i implies v@[m] == (if m < j {
                        s[m]
                    } else if m == j {
                        x
                    } else {
                        s[m - 1]
                    }) by {
                        assert(v@[m] == s.remove(i as int).insert(j as int, x)[m]);
                    }
                    assert(forall|m: int| 0 <= m < i ==> s.subrange(0, i as int)[m] == s[m]);
                    if q < j {
                    } else if q == j {
                        if p < j - 1 {
                            lemma_node_trans(s[p], s[j - 1], x);
                        }
                    } else if p == j {
                        lemma_lex_le_total(
                            crate::strutil::lower_of(s[q - 1].folder.name@),
                            crate::strutil::lower_of(x.folder.name@),
                        );
                    } else if p < j {
                    } else {
                    }
                }
                assert(level_order(v@.subrange(0, i + 1))) by {
                    assert(forall|m: int| 0 <= m <= i ==> v@.subrange(0, i + 1)[m] == v@[m]);
                }
                let t = s.subrange(0, i as int);
                assert(forall|m: int| 0 <= m < i ==> t[m] == s[m]);
                assert forall|m: int|
                    0 <= m < j implies folder_name_le((#[trigger] t[m]).folder, x.folder) by {
                    if m < j - 1 {
                        lemma_node_trans(t[m], s[j - 1], x);
                    }
                }
                lemma_insert_node_at(t, x, j as int);
                assert(v@.subrange(0, i + 1) =~= t.insert(j as int, x)) by {
                    assert(forall|m: int| 0 <= m <= i ==> v@.subrange(0, i + 1)[m] == v@[m]);
                }
                let p0 = old(v)@.subrange(0, i as int);
                let p1 = old(v)@.subrange(0, i + 1);
                assert(p1.drop_last() =~= p0);
                assert(p1.last() == old(v)@[i as int]);
                assert(x == old(v)@[i as int]);
                assert(t == stable_sort_nodes(p0));
                assert(stable_sort_nodes(p1) == insert_node(t, x));
                assert(v@.subrange(0, i + 1) == stable_sort_nodes(p1));
                assert forall|m: int| i + 1 <= m < n implies v@[m] == old(v)@[m] by {
                    assert(v@[m] == s.remove(i as int).insert(j as int, x)[m]);
                    assert(v@[m] == s[m]);
                }
            }
        } else {
            proof {
                assert(level_order(v@.subrange(0, i + 1))) by {
                    assert(forall|m: int| 0 <= m <= i ==> v@.subrange(0, i + 1)[m] == v@[m]);
                    assert(forall|m: int| 0 <= m < i ==> v@.subrange(0, i as int)[m] == v@[m]);
                    assert forall|p: int, q: int| 0 <= p < q <= i implies folder_name_le(
                        v@[p].folder,
                        v@[q].folder,
                    ) by {
                        if q == i as int && p < j {
                            if j > 0 {
                                if p < j - 1 {
                                    lemma_node_trans(v@[p], v@[j - 1], v@[i as int]);
                                }
                            }
                        } else if q == i as int {
                            assert(j == i);
                        }
                    }
                }
                let ghost x = v@[i as int];
                let t = v@.subrange(0, i as int);
                assert(forall|m: int| 0 <= m < i ==> t[m] == v@[m]);
                assert forall|m: int|
                    0 <= m < i implies folder_name_le((#[trigger] t[m]).folder, x.folder) by {
                    if m < i - 1 {
                        assert(folder_name_le(t[m].folder, t[i - 1].folder));
                        lemma_node_trans(t[m], v@[i - 1], x);
                    }
                }
                lemma_insert_node_at(t, x, i as int);
                assert(v@.subrange(0, i + 1) =~= t.insert(i as int, x)) by {
                    assert(forall|m: int| 0 <= m <= i ==> v@.subrange(0, i + 1)[m] == v@[m]);
                }
                let p0 = old(v)@.subrange(0, i as int);
                let p1 = old(v)@.subrange(0, i + 1);
                assert(p1.drop_last() =~= p0);
                assert(p1.last() == old(v)@[i as int]);
                assert(x == old(v)@[i as int]);
                assert(t == stable_sort_nodes(p0));
                assert(stable_sort_nodes(p1) == insert_node(t, x));
                assert(v@.subrange(0, i + 1) == stable_sort_nodes(p1));
            }
        }
        i = i + 1;
    }
    proof {
        assert(v@.subrange(0, n as int) =~= v@);
        assert(old(v)@.subrange(0, n as int) =~= old(v)@);
    }
}

/// Transitivity of the case-insensitive node order.
proof fn lemma_node_trans(a: FolderNode, b: FolderNode, c: FolderNode)
    requires
        folder_name_le(a.folder, b.folder),
        folder_name_le(b.folder, c.folder),
    ensures
        folder_name_le(a.folder, c.folder),
{
    lemma_lex_le_trans(
        crate::strutil::lower_of(a.folder.name@),
        crate::strutil::lower_of(b.folder.name@),
        crate::strutil::lower_of(c.folder.name@),
    );
}

/// Transitivity of the case-insensitive bookmark order.
proof fn lemma_bm_trans(a: Bookmark, b: Bookmark, c: Bookmark)
    requires
        bookmark_name_le(a, b),
        bookmark_name_le(b, c),
    ensures
        bookmark_name_le(a, c),
{
    lemma_lex_le_trans(
        crate::strutil::lower_of(a.name@),
        crate::strutil::lower_of(b.name@),
        crate::strutil::lower_of(c.name@),
    );
}

/// `forest_nodes_sorted` says exactly that every node of the forest is
/// sorted.
pub proof fn lemma_forest_nodes_sorted_iff(s: Seq<FolderNode>)
    ensures
        forest_nodes_sorted(s) <==> (forall|i: int|
            0 <= i < s.len() ==> node_sorted(#[trigger] s[i])),
    decreases s.len(),
{
    if s.len() > 0 {
        let t = s.subrange(1, s.len() as int);
        lemma_forest_nodes_sorted_iff(t);
        assert(forall|i: int| 0 <= i < t.len() ==> t[i] == s[i + 1]);
        if node_sorted(s[0]) && (forall|i: int| 0 <= i < t.len() ==> node_sorted(#[trigger] t[i])) {
            assert forall|i: int| 0 <= i < s.len() implies node_sorted(#[trigger] s[i]) by {
                if i > 0 {
                    assert(s[i] == t[i - 1]);
                }
            }
        }
    }
}

/// `forest_linked` says exactly that every node of the forest records
/// `pid` as its parent and is internally linked.
pub proof fn lemma_forest_linked_iff(s: Seq<FolderNode>, pid: i32)
    ensures
        forest_linked(s, pid) <==> (forall|i: int|
            0 <= i < s.len() ==> (#[trigger] s[i]).folder.parent_id == Some(pid) && node_linked(
                s[i],
            )),
    decreases s.len(),
{
    if s.len() > 0 {
        let t = s.subrange(1, s.len() as int);
        lemma_forest_linked_iff(t, pid);
        assert(forall|i: int| 0 <= i < t.len() ==> t[i] == s[i + 1]);
        if s[0].folder.parent_id == Some(pid) && node_linked(s[0]) && (forall|i: int|
            0 <= i < t.len() ==> (#[trigger] t[i]).folder.parent_id == Some(pid) && node_linked(
                t[i],
            )) {
            assert forall|i: int|
                0 <= i < s.len() implies (#[trigger] s[i]).folder.parent_id == Some(pid)
                && node_linked(s[i]) by {
                if i > 0 {
                    assert(s[i] == t[i - 1]);
                }
            }
        }
    }
}

/// Removing one node splits a forest's records into the node's and the
/// rest's.
pub proof fn lemma_forest_remove(s: Seq<FolderNode>, j: int)
    requires
        0 <= j < s.len(),
    ensures
        forest_folders(s) =~= node_folders(s[j]).add(forest_folders(s.remove(j))),
        forest_bookmarks(s) =~= node_bookmarks(s[j]).add(forest_bookmarks(s.remove(j))),
    decreases s.len(),
{
    let t = s.subrange(1, s.len() as int);
    if j == 0 {
        assert(s.remove(0) =~= t);
    } else {
        lemma_forest_remove(t, j - 1);
        assert(t[j - 1] == s[j]);
        let r = s.remove(j);
        assert(r[0] == s[0]);
        assert(r.subrange(1, r.len() as int) =~= t.remove(j - 1));
        assert(forest_folders(r) == node_folders(s[0]).add(forest_folders(t.remove(j - 1))));
        assert(forest_bookmarks(r) == node_bookmarks(s[0]).add(forest_bookmarks(t.remove(j - 1))));
    }
}

/// Forests holding the same nodes hold the same records, in whatever
/// order.
pub proof fn lemma_forest_perm(s1: Seq<FolderNode>, s2: Seq<FolderNode>)
    requires
        s1.to_multiset() == s2.to_multiset(),
    ensures
        forest_folders(s1) == forest_folders(s2),
        forest_bookmarks(s1) == forest_bookmarks(s2),
    decreases s1.len(),
{
    broadcast use vstd::seq_lib::group_to_multiset_ensures;

    if s1.len() == 0 {
        assert(s1.to_multiset().len() == s1.len());
        assert(s2.to_multiset().len() == s2.len());
        assert(s2.len() == 0);
        assert(forest_folders(s1) =~= forest_folders(s2));
        assert(forest_bookmarks(s1) =~= forest_bookmarks(s2));
    } else {
        let x = s1[0];
        assert(s1.contains(x));
        assert(s1.to_multiset().count(x) > 0);
        assert(s2.to_multiset().count(x) > 0);
        assert(s2.contains(x));
        let j = choose|j: int| 0 <= j < s2.len() && s2[j] == x;
        let t1 = s1.remove(0);
        let t2 = s2.remove(j);
        assert(t1.to_multiset() =~= s1.to_multiset().remove(x));
        assert(t2.to_multiset() =~= s2.to_multiset().remove(x));
        assert(t1.to_multiset() == t2.to_multiset());
        lemma_forest_perm(t1, t2);
        lemma_forest_remove(s1, 0);
        lemma_forest_remove(s2, j);
        assert(forest_folders(s1) =~= forest_folders(s2));
        assert(forest_bookmarks(s1) =~= forest_bookmarks(s2));
    }
}

/// Forests whose nodes carry the same records slot by slot hold the same
/// records.
pub proof fn lemma_forest_elementwise(s1: Seq<FolderNode>, s2: Seq<FolderNode>)
    requires
        s1.len() == s2.len(),
        forall|i: int|
            0 <= i < s1.len() ==> node_folders(#[trigger] s1[i]) == node_folders(s2[i])
                && node_bookmarks(s1[i]) == node_bookmarks(s2[i]),
    ensures
        forest_folders(s1) == forest_folders(s2),
        forest_bookmarks(s1) == forest_bookmarks(s2),
    decreases s1.len(),
{
    if s1.len() > 0 {
        let t1 = s1.subrange(1, s1.len() as int);
        let t2 = s2.subrange(1, s2.len() as int);
        assert(forall|i: int| 0 <= i < t1.len() ==> t1[i] == s1[i + 1] && t2[i] == s2[i + 1]);
        lemma_forest_elementwise(t1, t2);
        assert(node_folders(s1[0]) == node_folders(s2[0]));
    }
}

/// A fresh placeholder node, used only to swap a tree out of a mutable
/// reference.
fn empty_node() -> FolderNode {
    FolderNode {
        folder: Folder {
            id: 0,
            name: String::new(),
            created: 0,
            parent_id: None,
            favorite: false,
        },
        children: Vec::new(),
        bookmarks: Vec::new(),
    }
}

/// Sorts a subtree recursively: children and bookmarks are put in
/// stable case-insensitive name order at every level — ties keep their
/// input relative order — keeping the same folder and bookmark records,
/// and keeping the tree's agreement with its records.
pub fn sorted_node(n: FolderNode) -> (r: FolderNode)
    ensures
        r.folder == n.folder,
        node_sorted(r),
        node_folders(r) == node_folders(n),
        node_bookmarks(r) == node_bookmarks(n),
        node_linked(n) ==> node_linked(r),
        node_view(r) == sort_view(node_view(n)),
    decreases n,
{
    let ghost n0 = n;
    let mut node = n;
    let len = node.children.len();
    let mut i: usize = 0;
    while i < len
        invariant
            n0 == n,
            i <= len,
            len == node.children@.len(),
            len == n0.children@.len(),
            node.folder == n0.folder,
            node.bookmarks == n0.bookmarks,
            forall|k: int| i <= k < len ==> node.children@[k] == n0.children@[k],
            forall|k: int|
                0 <= k < i ==> {
                    let c = #[trigger] node.children@[k];
                    let c0 = n0.children@[k];
                    &&& c.folder == c0.folder
                    &&& node_sorted(c)
                    &&& node_folders(c) == node_folders(c0)
                    &&& node_bookmarks(c) == node_bookmarks(c0)
                    &&& (node_linked(c0) ==> node_linked(c))
                    &&& node_view(c) == sort_view(node_view(c0))
                },
        decreases len - i,
    {
        let c = node.children.remove(i);
        proof {
            assert(c == n0.children@[i as int]);
            assert(decreases_to!(n0 => c));
        }
        let sc = sorted_node(c);
        node.children.insert(i, sc);
        proof {
            assert(forall|k: int|
                0 <= k < len ==> k != i ==> node.children@[k] == node.children@.remove(i as int)
                    .insert(i as int, sc)[k]);
        }
        i = i + 1;
    }
    let ghost mid = node.children@;
    sort_nodes(&mut node.children);
    sort_bookmarks(&mut node.bookmarks);
    proof {
        broadcast use vstd::seq_lib::group_to_multiset_ensures;

        lemma_forest_elementwise(mid, n0.children@);
        lemma_forest_perm(node.children@, mid);
        lemma_forest_nodes_sorted_iff(mid);
        lemma_forest_nodes_sorted_iff(node.children@);
        assert forall|k: int| 0 <= k < node.children@.len() implies node_sorted(
            #[trigger] node.children@[k],
        ) by {
            assert(node.children@.contains(node.children@[k]));
            assert(node.children@.to_multiset().count(node.children@[k]) > 0);
            assert(mid.to_multiset().count(node.children@[k]) > 0);
            assert(mid.contains(node.children@[k]));
        }
        if node_linked(n0) {
            lemma_forest_linked_iff(n0.children@, n0.folder.id);
            lemma_forest_linked_iff(mid, n0.folder.id);
            lemma_forest_linked_iff(node.children@, node.folder.id);
            assert forall|k: int|
                0 <= k < node.children@.len() implies (#[trigger] node.children@[k]).folder
                .parent_id == Some(node.folder.id) && node_linked(node.children@[k]) by {
                assert(node.children@.contains(node.children@[k]));
                assert(node.children@.to_multiset().count(node.children@[k]) > 0);
                assert(mid.to_multiset().count(node.children@[k]) > 0);
                assert(mid.contains(node.children@[k]));
            }
            assert forall|k: int|
                0 <= k < node.bookmarks@.len() implies (#[trigger] node.bookmarks@[k]).folder_id
                == Some(node.folder.id) by {
                assert(node.bookmarks@.contains(node.bookmarks@[k]));
                assert(node.bookmarks@.to_multiset().count(node.bookmarks@[k]) > 0);
                assert(n0.bookmarks@.to_multiset().count(node.bookmarks@[k]) > 0);
                assert(n0.bookmarks@.contains(node.bookmarks@[k]));
            }
        }
        assert(node.bookmarks@.to_multiset() == n0.bookmarks@.to_multiset());
        assert(node_folders(node) =~= node_folders(n0));
        assert(node_bookmarks(node) =~= node_bookmarks(n0));
        lemma_forest_view_index(mid);
        lemma_forest_view_index(n0.children@);
        lemma_sort_forest_view_index(forest_view(n0.children@));
        assert(forest_view(mid) =~= sort_forest_view(forest_view(n0.children@))) by {
            assert forall|k: int| 0 <= k < mid.len() implies forest_view(mid)[k]
                == sort_forest_view(forest_view(n0.children@))[k] by {
                assert(forest_view(mid)[k] == node_view(mid[k]));
                assert(node_view(mid[k]) == sort_view(node_view(n0.children@[k])));
                assert(forest_view(n0.children@)[k] == node_view(n0.children@[k]));
                assert(sort_forest_view(forest_view(n0.children@))[k] == sort_view(
                    forest_view(n0.children@)[k],
                ));
            }
        }
        lemma_sort_views_commutes(mid);
        assert(forest_view(node.children@) == stable_sort_views(forest_view(mid)));
        assert(node_view(node) == sort_view(node_view(n0)));
    }
    node
}

impl FolderNode {
    /// Sorts this subtree's children and bookmarks case-insensitively by
    /// name at every level — a stable sort, so equal names keep their
    /// input relative order — keeping the same records and the same
    /// agreement between tree structure and record fields.
    pub fn sort_by_name(&mut self)
        ensures
            final(self).folder == old(self).folder,
            node_sorted(*final(self)),
            node_folders(*final(self)) == node_folders(*old(self)),
            node_bookmarks(*final(self)) == node_bookmarks(*old(self)),
            node_linked(*old(self)) ==> node_linked(*final(self)),
            node_view(*final(self)) == sort_view(node_view(*old(self))),
    {
        let mut tmp = empty_node();
        core::mem::swap(self, &mut tmp);
        let mut sorted = sorted_node(tmp);
        core::mem::swap(self, &mut sorted);
    }
}

impl RootItems {
    /// Sorts root folders and root bookmarks case-insensitively by name,
    /// recursing into every folder, keeping the same records. The sort
    /// is stable at every level: equal names keep their input relative
    /// order.
    pub fn sort_by_name(&mut self)
        ensures
            forest_sorted(final(self).root_folders@),
            bookmarks_sorted(final(self).root_bookmarks@),
            forest_view(final(self).root_folders@) == stable_sort_views(
                sort_forest_view(forest_view(old(self).root_folders@)),
            ),
            final(self).root_bookmarks@ == stable_sort_bms(old(self).root_bookmarks@),
            forest_folders(final(self).root_folders@) == forest_folders(
                old(self).root_folders@,
            ),
            forest_bookmarks(final(self).root_folders@) == forest_bookmarks(
                old(self).root_folders@,
            ),
            final(self).root_bookmarks@.to_multiset() == old(self).root_bookmarks@.to_multiset(),
            final(self).root_folders@.len() == old(self).root_folders@.len(),
            forall|k: int|
                0 <= k < final(self).root_folders@.len() ==> exists|m: int|
                    0 <= m < old(self).root_folders@.len()
                    && (#[trigger] final(self).root_folders@[k]).folder
                        == old(self).root_folders@[m].folder
                    && (node_linked(old(self).root_folders@[m])
                        ==> node_linked(final(self).root_folders@[k])),
    {
        let ghost r0 = *self;
        let len = self.root_folders.len();
        let mut i: usize = 0;
        while i < len
            invariant
                i <= len,
                len == self.root_folders@.len(),
                len == r0.root_folders@.len(),
                self.root_bookmarks == r0.root_bookmarks,
                forall|k: int| i <= k < len ==> self.root_folders@[k] == r0.root_folders@[k],
                forall|k: int|
                    0 <= k < i ==> {
                        let c = #[trigger] self.root_folders@[k];
                        let c0 = r0.root_folders@[k];
                        &&& c.folder == c0.folder
                        &&& node_sorted(c)
                        &&& node_folders(c) == node_folders(c0)
                        &&& node_bookmarks(c) == node_bookmarks(c0)
                        &&& (node_linked(c0) ==> node_linked(c))
                        &&& node_view(c) == sort_view(node_view(c0))
                    },
            decreases len - i,
        {
            let c = self.root_folders.remove(i);
            let sc = sorted_node(c);
            self.root_folders.insert(i, sc);
            proof {
                assert(forall|k: int|
                    0 <= k < len ==> k != i ==> self.root_folders@[k] == self.root_folders@.remove(
                        i as int,
                    ).insert(i as int, sc)[k]);
            }
            i = i + 1;
        }
        let ghost mid = self.root_folders@;
        sort_nodes(&mut self.root_folders);
        sort_bookmarks(&mut self.root_bookmarks);
        proof {
            broadcast use vstd::seq_lib::group_to_multiset_ensures;

            lemma_forest_elementwise(mid, r0.root_folders@);
            lemma_forest_perm(self.root_folders@, mid);
            lemma_forest_nodes_sorted_iff(mid);
            lemma_forest_nodes_sorted_iff(self.root_folders@);
            assert forall|k: int| 0 <= k < self.root_folders@.len() implies node_sorted(
                #[trigger] self.root_folders@[k],
            ) by {
                assert(self.root_folders@.contains(self.root_folders@[k]));
                assert(self.root_folders@.to_multiset().count(self.root_folders@[k]) > 0);
                assert(mid.to_multiset().count(self.root_folders@[k]) > 0);
                assert(mid.contains(self.root_folders@[k]));
            }
            assert forall|k: int| 0 <= k < self.root_folders@.len() implies exists|m: int|
                0 <= m < r0.root_folders@.len() && (#[trigger] self.root_folders@[k]).folder
                    == r0.root_folders@[m].folder && (node_linked(r0.root_folders@[m])
                    ==> node_linked(self.root_folders@[k])) by {
                assert(self.root_folders@.contains(self.root_folders@[k]));
                assert(self.root_folders@.to_multiset().count(self.root_folders@[k]) > 0);
                assert(mid.to_multiset().count(self.root_folders@[k]) > 0);
                assert(mid.contains(self.root_folders@[k]));
                let m = choose|m: int| 0 <= m < mid.len() && mid[m] == self.root_folders@[k];
                assert(mid[m].folder == r0.root_folders@[m].folder);
            }
            lemma_forest_view_index(mid);
            lemma_forest_view_index(r0.root_folders@);
            lemma_sort_forest_view_index(forest_view(r0.root_folders@));
            assert(forest_view(mid) =~= sort_forest_view(forest_view(r0.root_folders@))) by {
                assert forall|k: int| 0 <= k < mid.len() implies forest_view(mid)[k]
                    == sort_forest_view(forest_view(r0.root_folders@))[k] by {
                    assert(forest_view(mid)[k] == node_view(mid[k]));
                    assert(node_view(mid[k]) == sort_view(node_view(r0.root_folders@[k])));
                    assert(forest_view(r0.root_folders@)[k] == node_view(r0.root_folders@[k]));
                    assert(sort_forest_view(forest_view(r0.root_folders@))[k] == sort_view(
                        forest_view(r0.root_folders@)[k],
                    ));
                }
            }
            lemma_sort_views_commutes(mid);
            assert(forest_view(self.root_folders@) == stable_sort_views(forest_view(mid)));
        }
    }
}

} // verus!
