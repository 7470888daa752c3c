//! Serialising the store into the Netscape bookmark file format: a
//! nested `<DL>` list with one `<DT><H3>` header per folder and one
//! `<DT><A>` anchor per bookmark, indented one tab per nesting level.

use vstd::prelude::*;
use crate::models::{Bookmark, Folder};
use crate::strutil::{append_chars, append_str, chars_to_string, dec_int, i64_dec_chars};
use crate::tree::{clone_bookmark, clone_folder};

verus! {

/// The child folders of the given scope, in record order: the records
/// whose `parent_id` equals the scope.
pub open spec fn folders_under(s: Seq<Folder>, pid: Option<i32>, k: int) -> Seq<Folder>
    decreases k,
{
    if k <= 0 || k > s.len() {
        Seq::empty()
    } else {
        folders_under(s, pid, k - 1) + (if s[k - 1].parent_id == pid {
            seq![s[k - 1]]
        } else {
            Seq::empty()
        })
    }
}

/// The bookmarks of the given scope, in record order.
pub open spec fn bookmarks_under(s: Seq<Bookmark>, pid: Option<i32>, k: int) -> Seq<Bookmark>
    decreases k,
{
    if k <= 0 || k > s.len() {
        Seq::empty()
    } else {
        bookmarks_under(s, pid, k - 1) + (if s[k - 1].folder_id == pid {
            seq![s[k - 1]]
        } else {
            Seq::empty()
        })
    }
}

/// A run of tab characters.
pub open spec fn tabs_chars(n: nat) -> Seq<char> {
    Seq::new(n, |i: int| '\t')
}

/// The document-level wrapper emitted once at the top of a non-empty
/// export.
pub open spec fn doc_header() -> Seq<char> {
    "\n<!DOCTYPE NETSCAPE-Bookmark-file-1>\n<!-- This is an automatically generated file.\n    It will be read and overwritten.\n    DO NOT EDIT! -->\n<META HTTP-EQUIV=\"Content-Type\" CONTENT=\"text/html; charset=UTF-8\">\n<TITLE>Bookmarks</TITLE>\n<H1>Bookmarks</H1>\n\n"@
}

/// One folder header line.
pub open spec fn header_chars(f: Folder, tabs: nat) -> Seq<char> {
    tabs_chars(tabs) + "<DT><H3 ADD_DATE=\""@ + dec_int(f.created as int) + "\">"@ + f.name@
        + "</H3>\n"@
}

/// One bookmark anchor line.
pub open spec fn anchor_chars(b: Bookmark, tabs: nat) -> Seq<char> {
    tabs_chars(tabs) + "<DT><A HREF=\""@ + b.url@ + "\" ADD_DATE=\""@ + dec_int(b.created as int)
        + "\""@ + (match b.favicon {
        Option::Some(v) => " ICON=\""@ + v@ + "\""@,
        Option::None => Seq::empty(),
    }) + (match b.favicon_url {
        Option::Some(v) => " ICON_URI=\""@ + v@ + "\""@,
        Option::None => Seq::empty(),
    }) + ">"@ + b.name@ + "</A>\n"@
}

/// The anchor lines of a scope's bookmarks.
pub open spec fn render_anchors(bs: Seq<Bookmark>, tabs: nat) -> Seq<char>
    decreases bs.len(),
{
    if bs.len() == 0 {
        Seq::empty()
    } else {
        anchor_chars(bs[0], tabs) + render_anchors(bs.subrange(1, bs.len() as int), tabs)
    }
}

/// The rendering of one scope: a `<DL><p>` opener when and only when
/// the scope has any direct children, the child folders each as a
/// header followed by their own scope, the scope's bookmarks, and the
/// matching `</DL><p>` closer. `fuel` bounds the recursion depth; an
/// acyclic folder set never exhausts it.
pub open spec fn render_scope(
    folders: Seq<Folder>,
    bookmarks: Seq<Bookmark>,
    pid: Option<i32>,
    tabs: nat,
    fuel: nat,
) -> Seq<char>
    decreases fuel, 0nat,
{
    let kids = folders_under(folders, pid, folders.len() as int);
    let bms = bookmarks_under(bookmarks, pid, bookmarks.len() as int);
    let add_tags = kids.len() > 0 || bms.len() > 0;
    let further = if add_tags {
        tabs + 1
    } else {
        tabs
    };
    let open_part = if add_tags {
        tabs_chars(tabs) + "<DL><p>\n"@
    } else {
        Seq::empty()
    };
    let kids_part = if fuel > 0 {
        render_forest(folders, bookmarks, kids, further as nat, (fuel - 1) as nat)
    } else {
        Seq::empty()
    };
    let bms_part = render_anchors(bms, further as nat);
    let close_part = if add_tags {
        tabs_chars(tabs) + "</DL><p>\n"@
    } else {
        Seq::empty()
    };
    open_part + kids_part + bms_part + close_part
}

/// The rendering of a list of sibling folders: each folder's header
/// line followed by the rendering of its own scope.
pub open spec fn render_forest(
    folders: Seq<Folder>,
    bookmarks: Seq<Bookmark>,
    kids: Seq<Folder>,
    tabs: nat,
    fuel: nat,
) -> Seq<char>
    decreases fuel, kids.len(),
{
    if kids.len() == 0 {
        Seq::empty()
    } else {
        header_chars(kids[0], tabs) + render_scope(folders, bookmarks, Some(kids[0].id), tabs, fuel)
            + render_forest(folders, bookmarks, kids.subrange(1, kids.len() as int), tabs, fuel)
    }
}

/// The full export: the empty string for an empty store; otherwise the
/// document wrapper, emitted once, followed by the root scope.
pub open spec fn export_spec(folders: Seq<Folder>, bookmarks: Seq<Bookmark>) -> Seq<char> {
    if folders.len() == 0 && bookmarks.len() == 0 {
        Seq::empty()
    } else {
        doc_header() + render_scope(folders, bookmarks, None, 0, folders.len())
    }
}

/// Collects the child folders of a scope, in record order.
fn child_folders(folders: &Vec<Folder>, pid: &Option<i32>) -> (r: Vec<Folder>)
    ensures
        r@ == folders_under(folders@, *pid, folders@.len() as int),
{
    let n = folders.len();
    let mut r: Vec<Folder> = Vec::new();
    let mut k: usize = 0;
    while k < n
        invariant
            k <= n,
            n == folders@.len(),
            r@ == folders_under(folders@, *pid, k as int),
        decreases n - k,
    {
        let same = match (folders[k].parent_id, *pid) {
            (Option::Some(a), Option::Some(b)) => a == b,
            (Option::None, Option::None) => true,
            _ => false,
        };
        if same {
            r.push(clone_folder(&folders[k]));
        }
        proof {
            if same {
                assert(r@ =~= folders_under(folders@, *pid, k as int) + seq![
                    folders@[k as int],
                ]);
            } else {
                assert(r@ =~= folders_under(folders@, *pid, k as int) + Seq::<Folder>::empty());
            }
        }
        k = k + 1;
    }
    r
}

/// Collects the bookmarks of a scope, in record order.
fn child_bookmarks(bookmarks: &Vec<Bookmark>, pid: &Option<i32>) -> (r: Vec<Bookmark>)
    ensures
        r@ == bookmarks_under(bookmarks@, *pid, bookmarks@.len() as int),
{
    let m = bookmarks.len();
    let mut r: Vec<Bookmark> = Vec::new();
    let mut k: usize = 0;
    while k < m
        invariant
            k <= m,
            m == bookmarks@.len(),
            r@ == bookmarks_under(bookmarks@, *pid, k as int),
        decreases m - k,
    {
        let same = match (bookmarks[k].folder_id, *pid) {
            (Option::Some(a), Option::Some(b)) => a == b,
            (Option::None, Option::None) => true,
            _ => false,
        };
        if same {
            r.push(clone_bookmark(&bookmarks[k]));
        }
        proof {
            if same {
                assert(r@ =~= bookmarks_under(bookmarks@, *pid, k as int) + seq![
                    bookmarks@[k as int],
                ]);
            } else {
                assert(r@ =~= bookmarks_under(bookmarks@, *pid, k as int)
                    + Seq::<Bookmark>::empty());
            }
        }
        k = k + 1;
    }
    r
}

/// A run of tab characters of any count.
fn make_tabs(tabs: u128) -> (r: Vec<char>)
    ensures
        r@ == tabs_chars(tabs as nat),
{
    let mut v: Vec<char> = Vec::new();
    let mut i: u128 = 0;
    while i < tabs
        invariant
            i <= tabs,
            v@ == Seq::new(i as nat, |j: int| '\t'),
        decreases tabs - i,
    {
        v.push('\t');
        i = i + 1;
        proof {
            assert(v@ =~= Seq::new(i as nat, |j: int| '\t'));
        }
    }
    v
}

/// Appends one folder header line.
fn push_header(out: &mut Vec<char>, f: &Folder, tabs: u128)
    ensures
        final(out)@ == old(out)@ + header_chars(*f, tabs as nat),
{
    let t = make_tabs(tabs);
    append_chars(out, &t);
    append_str(out, "<DT><H3 ADD_DATE=\"");
    let d = i64_dec_chars(f.created);
    append_chars(out, &d);
    append_str(out, "\">");
    append_str(out, f.name.as_str());
    append_str(out, "</H3>\n");
    proof {
        assert(out@ =~= old(out)@ + header_chars(*f, tabs as nat));
    }
}

/// Appends one bookmark anchor line.
#[verifier::rlimit(50)]
fn push_anchor(out: &mut Vec<char>, b: &Bookmark, tabs: u128)
    ensures
        final(out)@ == old(out)@ + anchor_chars(*b, tabs as nat),
{
    let t = make_tabs(tabs);
    append_chars(out, &t);
    append_str(out, "<DT><A HREF=\"");
    append_str(out, b.url.as_str());
    append_str(out, "\" ADD_DATE=\"");
    let d = i64_dec_chars(b.created);
    append_chars(out, &d);
    append_str(out, "\"");
    match &b.favicon {
        Option::Some(v) => {
            append_str(out, " ICON=\"");
            append_str(out, v.as_str());
            append_str(out, "\"");
        },
        Option::None => {},
    }
    match &b.favicon_url {
        Option::Some(v) => {
            append_str(out, " ICON_URI=\"");
            append_str(out, v.as_str());
            append_str(out, "\"");
        },
        Option::None => {},
    }
    append_str(out, ">");
    append_str(out, b.name.as_str());
    append_str(out, "</A>\n");
    proof {
        assert(out@ =~= old(out)@ + anchor_chars(*b, tabs as nat));
    }
}

/// Renders one scope into `out`, mirroring `render_scope`.
#[verifier::rlimit(50)]
fn traverse_bookmarks(
    folders: &Vec<Folder>,
    bookmarks: &Vec<Bookmark>,
    parent_folder_id: &Option<i32>,
    out: &mut Vec<char>,
    tabs: u128,
    fuel: u128,
)
    requires
        tabs + fuel <= folders@.len(),
        folders@.len() <= usize::MAX,
    ensures
        final(out)@ == old(out)@ + render_scope(
            folders@,
            bookmarks@,
            *parent_folder_id,
            tabs as nat,
            fuel as nat,
        ),
    decreases fuel, 0int, 0int,
{
    let kids = child_folders(folders, parent_folder_id);
    let bms = child_bookmarks(bookmarks, parent_folder_id);
    let add_tags = kids.len() > 0 || bms.len() > 0;
    let further = if add_tags {
        tabs + 1
    } else {
        tabs
    };
    if add_tags {
        let t = make_tabs(tabs);
        append_chars(out, &t);
        append_str(out, "<DL><p>\n");
    }
    let ghost open_done = out@;
    if fuel > 0 {
        render_kids(folders, bookmarks, &kids, out, further, fuel - 1);
    }
    let mut k: usize = 0;
    let ghost bms_done = out@;
    proof {
        assert(bms@.subrange(0, 0) =~= Seq::<Bookmark>::empty());
    }
    while k < bms.len()
        invariant
            k <= bms@.len(),
            out@ == bms_done + render_anchors(bms@.subrange(0, k as int), further as nat),
        decreases bms@.len() - k,
    {
        push_anchor(out, &bms[k], further);
        proof {
            lemma_render_anchors_snoc(bms@, k as int, further as nat);
            assert(out@ =~= bms_done + render_anchors(bms@.subrange(0, k + 1), further as nat));
        }
        k = k + 1;
    }
    proof {
        assert(bms@.subrange(0, bms@.len() as int) =~= bms@);
    }
    let ghost anchors_done = out@;
    if add_tags {
        let t = make_tabs(tabs);
        append_chars(out, &t);
        append_str(out, "</DL><p>\n");
    }
    proof {
        let kids_sp = folders_under(folders@, *parent_folder_id, folders@.len() as int);
        let bms_sp = bookmarks_under(bookmarks@, *parent_folder_id, bookmarks@.len() as int);
        let add = kids_sp.len() > 0 || bms_sp.len() > 0;
        let open_part = if add {
            tabs_chars(tabs as nat) + "<DL><p>\n"@
        } else {
            Seq::<char>::empty()
        };
        let kids_part = if fuel > 0 {
            render_forest(folders@, bookmarks@, kids_sp, further as nat, (fuel - 1) as nat)
        } else {
            Seq::<char>::empty()
        };
        let bms_part = render_anchors(bms_sp, further as nat);
        let close_part = if add {
            tabs_chars(tabs as nat) + "</DL><p>\n"@
        } else {
            Seq::<char>::empty()
        };
        assert(open_done =~= old(out)@ + open_part);
        assert(bms_done =~= open_done + kids_part);
        assert(anchors_done =~= bms_done + bms_part);
        assert(out@ =~= anchors_done + close_part);
        assert(render_scope(folders@, bookmarks@, *parent_folder_id, tabs as nat, fuel as nat)
            == open_part + kids_part + bms_part + close_part);
        assert(out@ =~= old(out)@ + render_scope(
            folders@,
            bookmarks@,
            *parent_folder_id,
            tabs as nat,
            fuel as nat,
        ));
    }
}

/// A prefix of the anchor lines grows one line at a time.
proof fn lemma_render_anchors_snoc(bs: Seq<Bookmark>, k: int, tabs: nat)
    requires
        0 <= k < bs.len(),
    ensures
        render_anchors(bs.subrange(0, k + 1), tabs) == render_anchors(bs.subrange(0, k), tabs)
            + anchor_chars(bs[k], tabs),
    decreases k,
{
    let p1 = bs.subrange(0, k + 1);
    let p0 = bs.subrange(0, k);
    if k == 0 {
        assert(p1 =~= seq![bs[0]]);
        assert(p1.subrange(1, 1) =~= Seq::<Bookmark>::empty());
        assert(render_anchors(Seq::<Bookmark>::empty(), tabs) == Seq::<char>::empty());
        assert(render_anchors(p1, tabs) =~= anchor_chars(bs[0], tabs));
        assert(render_anchors(p0, tabs) =~= Seq::<char>::empty());
    } else {
        lemma_render_anchors_snoc(bs.subrange(1, bs.len() as int), k - 1, tabs);
        let t = bs.subrange(1, bs.len() as int);
        assert(p1[0] == bs[0]);
        assert(p1.subrange(1, p1.len() as int) =~= t.subrange(0, k));
        assert(p0[0] == bs[0]);
        assert(p0.subrange(1, p0.len() as int) =~= t.subrange(0, k - 1));
        assert(t[k - 1] == bs[k]);
        assert(render_anchors(p1, tabs) =~= anchor_chars(bs[0], tabs) + render_anchors(
            t.subrange(0, k),
            tabs,
        ));
        assert(render_anchors(p0, tabs) =~= anchor_chars(bs[0], tabs) + render_anchors(
            t.subrange(0, k - 1),
            tabs,
        ));
    }
}

/// Renders each child folder's header and scope, mirroring
/// `render_forest`.
fn render_kids(
    folders: &Vec<Folder>,
    bookmarks: &Vec<Bookmark>,
    kids: &Vec<Folder>,
    out: &mut Vec<char>,
    tabs: u128,
    fuel: u128,
)
    requires
        tabs + fuel <= folders@.len(),
        folders@.len() <= usize::MAX,
    ensures
        final(out)@ == old(out)@ + render_forest(
            folders@,
            bookmarks@,
            kids@,
            tabs as nat,
            fuel as nat,
        ),
    decreases fuel, kids@.len(), 1int,
{
    render_kids_from(folders, bookmarks, kids, 0, out, tabs, fuel);
    proof {
        assert(kids@.subrange(0, kids@.len() as int) =~= kids@);
    }
}

/// Renders the child folders from position `from` on.
fn render_kids_from(
    folders: &Vec<Folder>,
    bookmarks: &Vec<Bookmark>,
    kids: &Vec<Folder>,
    from: usize,
    out: &mut Vec<char>,
    tabs: u128,
    fuel: u128,
)
    requires
        from <= kids@.len(),
        tabs + fuel <= folders@.len(),
        folders@.len() <= usize::MAX,
    ensures
        final(out)@ == old(out)@ + render_forest(
            folders@,
            bookmarks@,
            kids@.subrange(from as int, kids@.len() as int),
            tabs as nat,
            fuel as nat,
        ),
    decreases fuel, kids@.len() - from, 0int,
{
    if from == kids.len() {
        proof {
            assert(kids@.subrange(from as int, kids@.len() as int).len() == 0);
        }
        return ;
    }
    let ghost rest = kids@.subrange(from as int, kids@.len() as int);
    push_header(out, &kids[from], tabs);
    traverse_bookmarks(folders, bookmarks, &Some(kids[from].id), out, tabs, fuel);
    render_kids_from(folders, bookmarks, kids, from + 1, out, tabs, fuel);
    proof {
        assert(rest[0] == kids@[from as int]);
        assert(rest.subrange(1, rest.len() as int) =~= kids@.subrange(
            from as int + 1,
            kids@.len() as int,
        ));
        assert(out@ =~= old(out)@ + render_forest(
            folders@,
            bookmarks@,
            rest,
            tabs as nat,
            fuel as nat,
        ));
    }
}

/// Exports the records as a Netscape bookmark document: the wrapper,
/// emitted once for a non-empty store, followed by the recursive
/// rendering of the tree from the root scope. An empty store exports
/// the empty string, with no document wrapper.
pub fn export_bookmarks(folders: &Vec<Folder>, bookmarks: &Vec<Bookmark>) -> (r: String)
    ensures
        r@ == export_spec(folders@, bookmarks@),
        folders@.len() == 0 && bookmarks@.len() == 0 ==> r@ == Seq::<char>::empty(),
{
    if folders.is_empty() && bookmarks.is_empty() {
        return String::new();
    }
    let mut out: Vec<char> = Vec::new();
    append_str(
        &mut out,
        "\n<!DOCTYPE NETSCAPE-Bookmark-file-1>\n<!-- This is an automatically generated file.\n    It will be read and overwritten.\n    DO NOT EDIT! -->\n<META HTTP-EQUIV=\"Content-Type\" CONTENT=\"text/html; charset=UTF-8\">\n<TITLE>Bookmarks</TITLE>\n<H1>Bookmarks</H1>\n\n",
    );
    let none: Option<i32> = None;
    let fuel: u128 = folders.len() as u128;
    traverse_bookmarks(folders, bookmarks, &none, &mut out, 0, fuel);
    chars_to_string(&out)
}

} // verus!
