//! Parsing the Netscape bookmark file format: a single pass over the
//! document that records each `<H3>` header as a folder and each
//! `<A HREF=...>` anchor as a bookmark, resolving every item's enclosing
//! folder from the header that precedes its surrounding `<DL>` list.
//!
//! Imported records get fresh sequential ids starting one past the
//! store's highest, `ADD_DATE` attributes become creation times when
//! they parse and lie in the representable range, and anything else
//! falls back to the supplied current time.

use vstd::prelude::*;
use crate::models::{Bookmark, Folder};
use crate::strutil::{is_space, str_to_i64, trim_of};
use crate::timestamps::ts_in_range;

verus! {

/// A folder record reduced to its mathematical content.
pub struct FolderView {
    pub id: int,
    pub name: Seq<char>,
    pub created: int,
    pub parent_id: Option<int>,
    pub favorite: bool,
}

/// A bookmark record reduced to its mathematical content.
pub struct BookmarkView {
    pub id: int,
    pub name: Seq<char>,
    pub url: Seq<char>,
    pub favicon: Option<Seq<char>>,
    pub favicon_url: Option<Seq<char>>,
    pub created: int,
    pub folder_id: Option<int>,
    pub favorite: bool,
}

pub open spec fn folder_abs(f: Folder) -> FolderView {
    FolderView {
        id: f.id as int,
        name: f.name@,
        created: f.created as int,
        parent_id: match f.parent_id {
            Option::Some(p) => Some(p as int),
            Option::None => None,
        },
        favorite: f.favorite,
    }
}

pub open spec fn opt_chars(o: Option<String>) -> Option<Seq<char>> {
    match o {
        Option::Some(s) => Some(s@),
        Option::None => None,
    }
}

pub open spec fn bookmark_abs(b: Bookmark) -> BookmarkView {
    BookmarkView {
        id: b.id as int,
        name: b.name@,
        url: b.url@,
        favicon: opt_chars(b.favicon),
        favicon_url: opt_chars(b.favicon_url),
        created: b.created as int,
        folder_id: match b.folder_id {
            Option::Some(p) => Some(p as int),
            Option::None => None,
        },
        favorite: b.favorite,
    }
}

/// The scanner's state: decoded records, the stack of open `<DL>` lists
/// (each holding the header text that preceded it), and the most recent
/// header at the current level.
pub struct ScanState {
    pub folders: Seq<FolderView>,
    pub bookmarks: Seq<BookmarkView>,
    pub stack: Seq<Option<Seq<char>>>,
    pub last_h3: Option<Seq<char>>,
}

pub open spec fn empty_scan_state() -> ScanState {
    ScanState { folders: Seq::empty(), bookmarks: Seq::empty(), stack: Seq::empty(), last_h3: None }
}

/// The position of the next `>` at or after `i`, or the end.
pub open spec fn gt_end(s: Seq<char>, i: int) -> int
    decreases s.len() - i,
{
    if i < 0 || i >= s.len() {
        s.len() as int
    } else if s[i] == '>' {
        i
    } else {
        gt_end(s, i + 1)
    }
}

/// The position of the next `<` at or after `i`, or the end.
pub open spec fn text_end(s: Seq<char>, i: int) -> int
    decreases s.len() - i,
{
    if i < 0 || i >= s.len() {
        s.len() as int
    } else if s[i] == '<' {
        i
    } else {
        text_end(s, i + 1)
    }
}

/// The position of the tag's closing `>`, skipping quoted attribute
/// values, or the end.
pub open spec fn tag_end_from(s: Seq<char>, i: int, inq: bool) -> int
    decreases s.len() - i,
{
    if i < 0 || i >= s.len() {
        s.len() as int
    } else if inq {
        tag_end_from(s, i + 1, s[i] != '"')
    } else if s[i] == '>' {
        i
    } else if s[i] == '"' {
        tag_end_from(s, i + 1, true)
    } else {
        tag_end_from(s, i + 1, false)
    }
}

/// A character that can be part of a tag name.
pub open spec fn is_tag_char(c: char) -> bool {
    ('a' <= c && c <= 'z') || ('A' <= c && c <= 'Z') || ('0' <= c && c <= '9')
}

/// The end of the tag name that starts at `i`.
pub open spec fn name_end(s: Seq<char>, i: int) -> int
    decreases s.len() - i,
{
    if i < 0 || i >= s.len() {
        s.len() as int
    } else if is_tag_char(s[i]) {
        name_end(s, i + 1)
    } else {
        i
    }
}

/// ASCII case-insensitive match of one character against a lowercase
/// letter or digit.
pub open spec fn ci_eq(a: char, b: char) -> bool {
    a == b || ('a' <= b && b <= 'z' && (a as u32) + 32 == (b as u32))
}

/// ASCII case-insensitive match of `s[lo..hi]` against a lowercase name.
pub open spec fn ci_match(s: Seq<char>, lo: int, hi: int, name: Seq<char>) -> bool {
    hi - lo == name.len() && 0 <= lo && hi <= s.len() && (forall|j: int|
        0 <= j < name.len() ==> ci_eq(s[lo + j], #[trigger] name[j]))
}

/// The end of an attribute name: the next `=`, whitespace, or `hi`.
pub open spec fn attr_name_end(s: Seq<char>, i: int, hi: int) -> int
    decreases hi - i,
{
    if i < 0 || i >= hi || i >= s.len() {
        if hi <= s.len() {
            hi
        } else {
            s.len() as int
        }
    } else if s[i] == '=' || is_space(s[i]) {
        i
    } else {
        attr_name_end(s, i + 1, hi)
    }
}

/// The next `"` before `hi`, or `hi`.
pub open spec fn quote_end(s: Seq<char>, i: int, hi: int) -> int
    decreases hi - i,
{
    if i < 0 || i >= hi || i >= s.len() {
        if hi <= s.len() {
            hi
        } else {
            s.len() as int
        }
    } else if s[i] == '"' {
        i
    } else {
        quote_end(s, i + 1, hi)
    }
}

/// The next whitespace before `hi`, or `hi`: the end of an unquoted
/// attribute value.
pub open spec fn unquoted_end(s: Seq<char>, i: int, hi: int) -> int
    decreases hi - i,
{
    if i < 0 || i >= hi || i >= s.len() {
        if hi <= s.len() {
            hi
        } else {
            s.len() as int
        }
    } else if is_space(s[i]) {
        i
    } else {
        unquoted_end(s, i + 1, hi)
    }
}

/// The value of the named attribute in the tag body `s[i..hi]`: the
/// first attribute whose name matches case-insensitively, with its
/// quoted or unquoted value, or the empty value for a bare attribute.
pub open spec fn attr_value(s: Seq<char>, i: int, hi: int, name: Seq<char>, fuel: nat) -> Option<
    Seq<char>,
>
    decreases fuel,
{
    if fuel == 0 || i < 0 || i >= hi || i >= s.len() {
        None
    } else if is_space(s[i]) {
        attr_value(s, i + 1, hi, name, (fuel - 1) as nat)
    } else {
        let ne = attr_name_end(s, i, hi);
        let matched = ci_match(s, i, ne, name);
        if ne < hi && ne < s.len() && s[ne] == '=' {
            if ne + 1 < hi && ne + 1 < s.len() && s[ne + 1] == '"' {
                let ve = quote_end(s, ne + 2, hi);
                if matched {
                    Some(s.subrange(ne + 2, ve))
                } else {
                    attr_value(s, ve + 1, hi, name, (fuel - 1) as nat)
                }
            } else {
                let ve = unquoted_end(s, ne + 1, hi);
                if matched {
                    Some(s.subrange(ne + 1, ve))
                } else {
                    attr_value(s, ve, hi, name, (fuel - 1) as nat)
                }
            }
        } else {
            if matched {
                Some(Seq::empty())
            } else {
                attr_value(
                    s,
                    if ne <= i {
                        i + 1
                    } else {
                        ne
                    },
                    hi,
                    name,
                    (fuel - 1) as nat,
                )
            }
        }
    }
}

/// The creation time an optional `ADD_DATE` value denotes: the parsed
/// seconds when they parse and lie in the representable range, the
/// fallback time otherwise.
pub open spec fn created_from(v: Option<Seq<char>>, now: int) -> int {
    match v {
        Option::None => now,
        Option::Some(t) => match str_to_i64(t) {
            Option::None => now,
            Option::Some(ts) => if ts_in_range(ts) {
                ts as int
            } else {
                now
            },
        },
    }
}

/// The id of the first decoded folder with the given name.
pub open spec fn first_folder_named(fs: Seq<FolderView>, name: Seq<char>) -> Option<int>
    decreases fs.len(),
{
    if fs.len() == 0 {
        None
    } else if fs[0].name == name {
        Some(fs[0].id)
    } else {
        first_folder_named(fs.subrange(1, fs.len() as int), name)
    }
}

/// The enclosing folder an item resolves to: the first decoded folder
/// whose name equals the enclosing header's trimmed text.
pub open spec fn resolve_parent(fs: Seq<FolderView>, scope: Option<Seq<char>>) -> Option<int> {
    match scope {
        Option::None => None,
        Option::Some(h) => first_folder_named(fs, trim_of(h)),
    }
}

/// The header governing the current level: the one the innermost open
/// `<DL>` was preceded by.
pub open spec fn scope_top(stack: Seq<Option<Seq<char>>>) -> Option<Seq<char>> {
    if stack.len() == 0 {
        None
    } else {
        stack.last()
    }
}

pub open spec fn tag_is_dl(s: Seq<char>, lo: int, hi: int) -> bool {
    hi - lo == 2 && 0 <= lo && hi <= s.len() && (s[lo] == 'd' || s[lo] == 'D') && (s[lo + 1] == 'l'
        || s[lo + 1] == 'L')
}

pub open spec fn tag_is_h3(s: Seq<char>, lo: int, hi: int) -> bool {
    hi - lo == 2 && 0 <= lo && hi <= s.len() && (s[lo] == 'h' || s[lo] == 'H') && s[lo + 1] == '3'
}

pub open spec fn tag_is_a(s: Seq<char>, lo: int, hi: int) -> bool {
    hi - lo == 1 && 0 <= lo && hi <= s.len() && (s[lo] == 'a' || s[lo] == 'A')
}

/// One full scan of the document from `pos`: the heart of the decoder.
/// Each step consumes one construct — a text run, a comment or doctype,
/// a closing tag, or an opening tag with, for headers and anchors, the
/// text run that follows it — and `fuel` bounds the number of steps.
pub open spec fn scan(
    s: Seq<char>,
    pos: int,
    st: ScanState,
    nf: int,
    nb: int,
    now: int,
    fuel: nat,
) -> ScanState
    decreases fuel,
{
    if fuel == 0 || pos < 0 || pos >= s.len() {
        st
    } else if s[pos] != '<' {
        scan(s, pos + 1, st, nf, nb, now, (fuel - 1) as nat)
    } else if pos + 1 >= s.len() {
        scan(s, pos + 1, st, nf, nb, now, (fuel - 1) as nat)
    } else if s[pos + 1] == '!' {
        scan(s, gt_end(s, pos + 2) + 1, st, nf, nb, now, (fuel - 1) as nat)
    } else if s[pos + 1] == '/' {
        let ne = name_end(s, pos + 2);
        let st1 = if tag_is_dl(s, pos + 2, ne) {
            ScanState {
                stack: if st.stack.len() > 0 {
                    st.stack.drop_last()
                } else {
                    st.stack
                },
                last_h3: None,
                ..st
            }
        } else {
            st
        };
        scan(s, gt_end(s, ne) + 1, st1, nf, nb, now, (fuel - 1) as nat)
    } else {
        let ne = name_end(s, pos + 1);
        let te = tag_end_from(s, pos + 1, false);
        if tag_is_dl(s, pos + 1, ne) {
            let st1 = ScanState { stack: st.stack.push(st.last_h3), last_h3: None, ..st };
            scan(s, te + 1, st1, nf, nb, now, (fuel - 1) as nat)
        } else if tag_is_h3(s, pos + 1, ne) {
            if te >= s.len() {
                scan(s, te + 1, st, nf, nb, now, (fuel - 1) as nat)
            } else {
                let tend = text_end(s, te + 1);
                let fname = s.subrange(te + 1, tend);
                let created = created_from(
                    attr_value(s, ne, te, "add_date"@, (if te >= ne {
                        te - ne
                    } else {
                        0
                    }) as nat),
                    now,
                );
                let f = FolderView {
                    id: nf + st.folders.len(),
                    name: fname,
                    created: created,
                    parent_id: resolve_parent(st.folders, scope_top(st.stack)),
                    favorite: false,
                };
                let st1 = ScanState {
                    folders: st.folders.push(f),
                    last_h3: Some(fname),
                    ..st
                };
                scan(s, tend, st1, nf, nb, now, (fuel - 1) as nat)
            }
        } else if tag_is_a(s, pos + 1, ne) {
            if te >= s.len() {
                scan(s, te + 1, st, nf, nb, now, (fuel - 1) as nat)
            } else {
                let afuel = (if te >= ne {
                    te - ne
                } else {
                    0
                }) as nat;
                match attr_value(s, ne, te, "href"@, afuel) {
                    Option::None => scan(s, te + 1, st, nf, nb, now, (fuel - 1) as nat),
                    Option::Some(url) => {
                        let tend = text_end(s, te + 1);
                        let bname = s.subrange(te + 1, tend);
                        let created = created_from(attr_value(s, ne, te, "add_date"@, afuel), now);
                        let b = BookmarkView {
                            id: nb + st.bookmarks.len(),
                            name: bname,
                            url: url,
                            favicon: attr_value(s, ne, te, "icon"@, afuel),
                            favicon_url: attr_value(s, ne, te, "icon_uri"@, afuel),
                            created: created,
                            folder_id: resolve_parent(st.folders, scope_top(st.stack)),
                            favorite: false,
                        };
                        let st1 = ScanState { bookmarks: st.bookmarks.push(b), ..st };
                        scan(s, tend, st1, nf, nb, now, (fuel - 1) as nat)
                    },
                }
            }
        } else {
            scan(s, te + 1, st, nf, nb, now, (fuel - 1) as nat)
        }
    }
}

/// The records a document decodes to.
pub open spec fn decode_spec(s: Seq<char>, nf: int, nb: int, now: int) -> ScanState {
    scan(s, 0, empty_scan_state(), nf, nb, now, (s.len() + s.len() + 1) as nat)
}

/// A resolved name is the id of one of the folders searched.
proof fn lemma_first_folder_named_range(fs: Seq<FolderView>, name: Seq<char>)
    requires
        first_folder_named(fs, name) is Some,
    ensures
        exists|j: int| 0 <= j < fs.len() && (#[trigger] fs[j]).id == first_folder_named(fs, name)->0,
    decreases fs.len(),
{
    if fs.len() > 0 && fs[0].name != name {
        let t = fs.subrange(1, fs.len() as int);
        lemma_first_folder_named_range(t, name);
        let j = choose|j: int| 0 <= j < t.len() && (#[trigger] t[j]).id == first_folder_named(t, name)->0;
        assert(fs[j + 1] == t[j]);
    } else {
    }
}

/// The scanner only appends records, assigns them consecutive ids, and
/// never marks one as a favorite.
proof fn lemma_scan_records(
    s: Seq<char>,
    pos: int,
    st: ScanState,
    nf: int,
    nb: int,
    now: int,
    fuel: nat,
)
    requires
        forall|i: int|
            0 <= i < st.folders.len() ==> (#[trigger] st.folders[i]).id == nf + i
                && !st.folders[i].favorite && (st.folders[i].parent_id matches Some(p) ==> nf <= p
                < nf + i),
        forall|k: int|
            0 <= k < st.bookmarks.len() ==> (#[trigger] st.bookmarks[k]).id == nb + k
                && !st.bookmarks[k].favorite && (st.bookmarks[k].folder_id matches Some(p) ==> nf
                <= p < nf + st.folders.len()),
    ensures
        ({
            let r = scan(s, pos, st, nf, nb, now, fuel);
            &&& r.folders.len() >= st.folders.len()
            &&& r.bookmarks.len() >= st.bookmarks.len()
            &&& forall|i: int|
                0 <= i < r.folders.len() ==> (#[trigger] r.folders[i]).id == nf + i
                    && !r.folders[i].favorite && (r.folders[i].parent_id matches Some(p) ==> nf
                    <= p < nf + i)
            &&& forall|k: int|
                0 <= k < r.bookmarks.len() ==> (#[trigger] r.bookmarks[k]).id == nb + k
                    && !r.bookmarks[k].favorite && (r.bookmarks[k].folder_id matches Some(p)
                    ==> nf <= p < nf + r.folders.len())
        }),
    decreases fuel,
{
    if fuel == 0 || pos < 0 || pos >= s.len() {
    } else if s[pos] != '<' {
        lemma_scan_records(s, pos + 1, st, nf, nb, now, (fuel - 1) as nat);
    } else if pos + 1 >= s.len() {
        lemma_scan_records(s, pos + 1, st, nf, nb, now, (fuel - 1) as nat);
    } else if s[pos + 1] == '!' {
        lemma_scan_records(s, gt_end(s, pos + 2) + 1, st, nf, nb, now, (fuel - 1) as nat);
    } else if s[pos + 1] == '/' {
        let ne = name_end(s, pos + 2);
        let st1 = if tag_is_dl(s, pos + 2, ne) {
            ScanState {
                stack: if st.stack.len() > 0 {
                    st.stack.drop_last()
                } else {
                    st.stack
                },
                last_h3: None,
                ..st
            }
        } else {
            st
        };
        lemma_scan_records(s, gt_end(s, ne) + 1, st1, nf, nb, now, (fuel - 1) as nat);
    } else {
        let ne = name_end(s, pos + 1);
        let te = tag_end_from(s, pos + 1, false);
        if tag_is_dl(s, pos + 1, ne) {
            let st1 = ScanState { stack: st.stack.push(st.last_h3), last_h3: None, ..st };
            lemma_scan_records(s, te + 1, st1, nf, nb, now, (fuel - 1) as nat);
        } else if tag_is_h3(s, pos + 1, ne) {
            if te >= s.len() {
                lemma_scan_records(s, te + 1, st, nf, nb, now, (fuel - 1) as nat);
            } else {
                let tend = text_end(s, te + 1);
                let fname = s.subrange(te + 1, tend);
                let created = created_from(
                    attr_value(s, ne, te, "add_date"@, (if te >= ne {
                        te - ne
                    } else {
                        0
                    }) as nat),
                    now,
                );
                let f = FolderView {
                    id: nf + st.folders.len(),
                    name: fname,
                    created: created,
                    parent_id: resolve_parent(st.folders, scope_top(st.stack)),
                    favorite: false,
                };
                if resolve_parent(st.folders, scope_top(st.stack)) is Some {
                    let h = scope_top(st.stack)->0;
                    lemma_first_folder_named_range(st.folders, crate::strutil::trim_of(h));
                }
                let st1 = ScanState { folders: st.folders.push(f), last_h3: Some(fname), ..st };
                lemma_scan_records(s, tend, st1, nf, nb, now, (fuel - 1) as nat);
            }
        } else if tag_is_a(s, pos + 1, ne) {
            if te >= s.len() {
                lemma_scan_records(s, te + 1, st, nf, nb, now, (fuel - 1) as nat);
            } else {
                let afuel = (if te >= ne {
                    te - ne
                } else {
                    0
                }) as nat;
                match attr_value(s, ne, te, "href"@, afuel) {
                    Option::None => {
                        lemma_scan_records(s, te + 1, st, nf, nb, now, (fuel - 1) as nat);
                    },
                    Option::Some(url) => {
                        let tend = text_end(s, te + 1);
                        let bname = s.subrange(te + 1, tend);
                        let created = created_from(attr_value(s, ne, te, "add_date"@, afuel), now);
                        let b = BookmarkView {
                            id: nb + st.bookmarks.len(),
                            name: bname,
                            url: url,
                            favicon: attr_value(s, ne, te, "icon"@, afuel),
                            favicon_url: attr_value(s, ne, te, "icon_uri"@, afuel),
                            created: created,
                            folder_id: resolve_parent(st.folders, scope_top(st.stack)),
                            favorite: false,
                        };
                        if resolve_parent(st.folders, scope_top(st.stack)) is Some {
                            let h = scope_top(st.stack)->0;
                            lemma_first_folder_named_range(
                                st.folders,
                                crate::strutil::trim_of(h),
                            );
                        }
                        let st1 = ScanState { bookmarks: st.bookmarks.push(b), ..st };
                        lemma_scan_records(s, tend, st1, nf, nb, now, (fuel - 1) as nat);
                    },
                }
            }
        } else {
            lemma_scan_records(s, te + 1, st, nf, nb, now, (fuel - 1) as nat);
        }
    }
}

/// Importing resets every favorite flag — the interchange format has no
/// field for it — and assigns consecutive fresh ids: folder ids count up
/// from `nf` in document order, bookmark ids from `nb`. Every resolved
/// parent reference points at a previously decoded folder, so an
/// imported set can never hold a cycle.
pub proof fn lemma_import_well_formed(s: Seq<char>, nf: int, nb: int, now: int)
    ensures
        forall|i: int|
            0 <= i < decode_spec(s, nf, nb, now).folders.len() ==> (#[trigger] decode_spec(
                s,
                nf,
                nb,
                now,
            ).folders[i]).id == nf + i && !decode_spec(s, nf, nb, now).folders[i].favorite && (
            decode_spec(s, nf, nb, now).folders[i].parent_id matches Some(p) ==> nf <= p < nf
                + i),
        forall|k: int|
            0 <= k < decode_spec(s, nf, nb, now).bookmarks.len() ==> (#[trigger] decode_spec(
                s,
                nf,
                nb,
                now,
            ).bookmarks[k]).id == nb + k && !decode_spec(s, nf, nb, now).bookmarks[k].favorite && (
            decode_spec(s, nf, nb, now).bookmarks[k].folder_id matches Some(p) ==> nf <= p < nf
                + decode_spec(s, nf, nb, now).folders.len()),
{
    lemma_scan_records(
        s,
        0,
        empty_scan_state(),
        nf,
        nb,
        now,
        (s.len() + s.len() + 1) as nat,
    );
}

fn gt_end_exec(v: &Vec<char>, i: usize) -> (r: usize)
    ensures
        r as int == gt_end(v@, i as int),
        r <= v@.len(),
        i <= v@.len() ==> i <= r,
{
    let n = v.len();
    let mut j: usize = i;
    while j < n && v[j] != '>'
        invariant
            i <= j,
            j <= n || j == i,
            n == v@.len(),
            gt_end(v@, i as int) == gt_end(v@, j as int),
        decreases n - j,
    {
        j = j + 1;
    }
    if j >= n {
        n
    } else {
        j
    }
}

fn text_end_exec(v: &Vec<char>, i: usize) -> (r: usize)
    ensures
        r as int == text_end(v@, i as int),
        r <= v@.len(),
        i <= v@.len() ==> i <= r,
{
    let n = v.len();
    let mut j: usize = i;
    while j < n && v[j] != '<'
        invariant
            i <= j,
            j <= n || j == i,
            n == v@.len(),
            text_end(v@, i as int) == text_end(v@, j as int),
        decreases n - j,
    {
        j = j + 1;
    }
    if j >= n {
        n
    } else {
        j
    }
}

fn tag_end_exec(v: &Vec<char>, i: usize) -> (r: usize)
    ensures
        r as int == tag_end_from(v@, i as int, false),
        r <= v@.len(),
        i <= v@.len() ==> i <= r,
{
    let n = v.len();
    let mut j: usize = i;
    let mut inq: bool = false;
    while j < n && (inq || v[j] != '>')
        invariant
            i <= j,
            j <= n || j == i,
            n == v@.len(),
            tag_end_from(v@, i as int, false) == tag_end_from(v@, j as int, inq),
        decreases n - j,
    {
        if inq {
            inq = v[j] != '"';
        } else if v[j] == '"' {
            inq = true;
        }
        j = j + 1;
    }
    if j >= n {
        n
    } else {
        j
    }
}

fn is_tag_char_exec(c: char) -> (r: bool)
    ensures
        r == is_tag_char(c),
{
    ('a' <= c && c <= 'z') || ('A' <= c && c <= 'Z') || ('0' <= c && c <= '9')
}

fn name_end_exec(v: &Vec<char>, i: usize) -> (r: usize)
    ensures
        r as int == name_end(v@, i as int),
        r <= v@.len(),
        i <= v@.len() ==> i <= r,
{
    let n = v.len();
    let mut j: usize = i;
    while j < n && is_tag_char_exec(v[j])
        invariant
            i <= j,
            j <= n || j == i,
            n == v@.len(),
            name_end(v@, i as int) == name_end(v@, j as int),
        decreases n - j,
    {
        j = j + 1;
    }
    if j >= n {
        n
    } else {
        j
    }
}

fn attr_name_end_exec(v: &Vec<char>, i: usize, hi: usize) -> (r: usize)
    requires
        hi <= v@.len(),
    ensures
        r as int == attr_name_end(v@, i as int, hi as int),
        r <= hi,
        i <= hi ==> i <= r,
{
    let mut j: usize = i;
    while j < hi && !(v[j] == '=' || crate::strutil::is_space_exec(v[j]))
        invariant
            i <= j,
            j <= hi || j == i,
            hi <= v@.len(),
            attr_name_end(v@, i as int, hi as int) == attr_name_end(v@, j as int, hi as int),
        decreases hi - j,
    {
        j = j + 1;
    }
    if j >= hi {
        hi
    } else {
        j
    }
}

fn quote_end_exec(v: &Vec<char>, i: usize, hi: usize) -> (r: usize)
    requires
        hi <= v@.len(),
    ensures
        r as int == quote_end(v@, i as int, hi as int),
        r <= hi,
        i <= hi ==> i <= r,
{
    let mut j: usize = i;
    while j < hi && v[j] != '"'
        invariant
            i <= j,
            j <= hi || j == i,
            hi <= v@.len(),
            quote_end(v@, i as int, hi as int) == quote_end(v@, j as int, hi as int),
        decreases hi - j,
    {
        j = j + 1;
    }
    if j >= hi {
        hi
    } else {
        j
    }
}

fn unquoted_end_exec(v: &Vec<char>, i: usize, hi: usize) -> (r: usize)
    requires
        hi <= v@.len(),
    ensures
        r as int == unquoted_end(v@, i as int, hi as int),
        r <= hi,
        i <= hi ==> i <= r,
{
    let mut j: usize = i;
    while j < hi && !crate::strutil::is_space_exec(v[j])
        invariant
            i <= j,
            j <= hi || j == i,
            hi <= v@.len(),
            unquoted_end(v@, i as int, hi as int) == unquoted_end(v@, j as int, hi as int),
        decreases hi - j,
    {
        j = j + 1;
    }
    if j >= hi {
        hi
    } else {
        j
    }
}

fn ci_eq_exec(a: char, b: char) -> (r: bool)
    ensures
        r == ci_eq(a, b),
{
    a == b || ('a' <= b && b <= 'z' && (a as u32) + 32 == (b as u32))
}

fn ci_match_exec(v: &Vec<char>, lo: usize, hi: usize, name: &Vec<char>) -> (r: bool)
    requires
        hi <= v@.len(),
    ensures
        r == ci_match(v@, lo as int, hi as int, name@),
{
    if hi < lo || hi - lo != name.len() {
        return false;
    }
    let n = name.len();
    let mut j: usize = 0;
    while j < n
        invariant
            j <= n,
            n == name@.len(),
            lo + n == hi <= v@.len(),
            forall|m: int| 0 <= m < j ==> ci_eq(v@[lo + m], #[trigger] name@[m]),
        decreases n - j,
    {
        if !ci_eq_exec(v[lo + j], name[j]) {
            return false;
        }
        j = j + 1;
    }
    true
}

fn attr_value_exec(v: &Vec<char>, lo: usize, hi: usize, name: &Vec<char>) -> (r: Option<Vec<char>>)
    requires
        hi <= v@.len(),
    ensures
        match r {
            Option::Some(val) => attr_value(
                v@,
                lo as int,
                hi as int,
                name@,
                (if hi >= lo {
                    hi - lo
                } else {
                    0
                }) as nat,
            ) == Some(val@),
            Option::None => attr_value(
                v@,
                lo as int,
                hi as int,
                name@,
                (if hi >= lo {
                    hi - lo
                } else {
                    0
                }) as nat,
            ) is None,
        },
{
    let ghost fuel0: nat = (if hi >= lo {
        hi - lo
    } else {
        0
    }) as nat;
    let mut i: usize = lo;
    let mut fuel: usize = if hi >= lo {
        hi - lo
    } else {
        0
    };
    loop
        invariant
            hi <= v@.len(),
            fuel0 == (if hi >= lo {
                hi - lo
            } else {
                0
            }) as nat,
            attr_value(v@, lo as int, hi as int, name@, fuel0) == attr_value(
                v@,
                i as int,
                hi as int,
                name@,
                fuel as nat,
            ),
        decreases fuel,
    {
        if fuel == 0 || i >= hi {
            return None;
        }
        if crate::strutil::is_space_exec(v[i]) {
            i = i + 1;
            fuel = fuel - 1;
            continue ;
        }
        let ne = attr_name_end_exec(v, i, hi);
        let matched = ci_match_exec(v, i, ne, name);
        if ne < hi && v[ne] == '=' {
            if ne + 1 < hi && v[ne + 1] == '"' {
                let ve = quote_end_exec(v, ne + 2, hi);
                if matched {
                    proof {
                        assert(attr_value(v@, i as int, hi as int, name@, fuel as nat) == Some(
                            v@.subrange(ne + 2, ve as int),
                        ));
                    }
                    return Some(crate::strutil::subrange_vec(v, ne + 2, ve));
                }
                proof {
                    assert(attr_value(v@, i as int, hi as int, name@, fuel as nat) == attr_value(
                        v@,
                        ve + 1,
                        hi as int,
                        name@,
                        (fuel - 1) as nat,
                    ));
                }
                i = if ve < hi {
                    ve + 1
                } else {
                    hi
                };
                fuel = fuel - 1;
            } else {
                let ve = unquoted_end_exec(v, ne + 1, hi);
                if matched {
                    proof {
                        assert(attr_value(v@, i as int, hi as int, name@, fuel as nat) == Some(
                            v@.subrange(ne + 1, ve as int),
                        ));
                    }
                    return Some(crate::strutil::subrange_vec(v, ne + 1, ve));
                }
                i = ve;
                fuel = fuel - 1;
            }
        } else {
            if matched {
                let r: Vec<char> = Vec::new();
                proof {
                    assert(r@ =~= Seq::<char>::empty());
                    assert(attr_value(v@, i as int, hi as int, name@, fuel as nat) == Some(
                        Seq::<char>::empty(),
                    ));
                }
                return Some(r);
            }
            if ne <= i {
                i = i + 1;
            } else {
                i = ne;
            }
            fuel = fuel - 1;
        }
    }
}

pub open spec fn opt_vec_abs(o: Option<Vec<char>>) -> Option<Seq<char>> {
    match o {
        Option::Some(v) => Some(v@),
        Option::None => None,
    }
}

/// Whether a string holds exactly the given characters.
fn str_eq_chars(s: &String, v: &Vec<char>) -> (r: bool)
    ensures
        r == (s@ == v@),
{
    let st = s.as_str();
    let n = st.unicode_len();
    if n != v.len() {
        return false;
    }
    let mut k: usize = 0;
    while k < n
        invariant
            k <= n,
            st@ == s@,
            n == s@.len(),
            n == v@.len(),
            forall|m: int| 0 <= m < k ==> s@[m] == v@[m],
        decreases n - k,
    {
        if st.get_char(k) != v[k] {
            return false;
        }
        k = k + 1;
    }
    proof {
        assert(s@ =~= v@);
    }
    true
}

/// Finds the first decoded folder with exactly the given name.
fn first_folder_named_exec(folders: &Vec<Folder>, name: &Vec<char>) -> (r: Option<i32>)
    ensures
        match first_folder_named(folders@.map_values(|f: Folder| folder_abs(f)), name@) {
            Option::Some(idv) => r matches Some(x) && x as int == idv,
            Option::None => r is None,
        },
{
    let ghost fs = folders@.map_values(|f: Folder| folder_abs(f));
    let n = folders.len();
    let mut k: usize = 0;
    proof {
        assert(fs.subrange(0, fs.len() as int) =~= fs);
    }
    while k < n
        invariant
            k <= n,
            n == folders@.len(),
            fs == folders@.map_values(|f: Folder| folder_abs(f)),
            first_folder_named(fs, name@) == first_folder_named(
                fs.subrange(k as int, fs.len() as int),
                name@,
            ),
        decreases n - k,
    {
        proof {
            let t = fs.subrange(k as int, fs.len() as int);
            assert(t[0] == fs[k as int]);
            assert(fs[k as int] == folder_abs(folders@[k as int]));
            assert(t.subrange(1, t.len() as int) =~= fs.subrange(k + 1, fs.len() as int));
        }
        if str_eq_chars(&folders[k].name, name) {
            return Some(folders[k].id);
        }
        k = k + 1;
    }
    proof {
        assert(fs.subrange(n as int, fs.len() as int).len() == 0);
    }
    None
}

/// Resolves the enclosing folder from the innermost open list's header.
fn resolve_scope_exec(folders: &Vec<Folder>, stack: &Vec<Option<Vec<char>>>) -> (r: Option<i32>)
    ensures
        match resolve_parent(
            folders@.map_values(|f: Folder| folder_abs(f)),
            scope_top(stack@.map_values(|o: Option<Vec<char>>| opt_vec_abs(o))),
        ) {
            Option::Some(idv) => r matches Some(x) && x as int == idv,
            Option::None => r is None,
        },
{
    let ghost sabs = stack@.map_values(|o: Option<Vec<char>>| opt_vec_abs(o));
    if stack.len() == 0 {
        return None;
    }
    proof {
        assert(sabs.last() == opt_vec_abs(stack@.last()));
    }
    match &stack[stack.len() - 1] {
        Option::None => None,
        Option::Some(h) => {
            let t = crate::strutil::trim_chars(h);
            first_folder_named_exec(folders, &t)
        },
    }
}

/// Turns an optional `ADD_DATE` value into a creation time, falling back
/// to `now` for a missing, unparsable, or out-of-range value.
fn created_from_exec(att: &Option<Vec<char>>, now: i64) -> (r: i64)
    ensures
        r as int == created_from(
            match *att {
                Option::Some(v) => Some(v@),
                Option::None => None,
            },
            now as int,
        ),
{
    match att {
        Option::None => now,
        Option::Some(t) => {
            match crate::strutil::parse_i64_chars(t) {
                Option::None => now,
                Option::Some(ts) => {
                    if crate::timestamps::timestamp_in_range(ts) {
                        ts
                    } else {
                        now
                    }
                },
            }
        },
    }
}

fn opt_chars_to_string(o: &Option<Vec<char>>) -> (r: Option<String>)
    ensures
        opt_chars(r) == opt_vec_abs(*o),
{
    match o {
        Option::Some(v) => Some(crate::strutil::chars_to_string(v)),
        Option::None => None,
    }
}

/// Decodes a bookmark document into flat folder and bookmark records,
/// ready for bulk insertion. Fresh ids are assigned sequentially from
/// `next_folder_id` and `next_bookmark_id`; the bounds keep every
/// assigned id within range, since a document yields fewer records than
/// it has characters. `now` is the creation time used when an `ADD_DATE`
/// is missing or invalid.
#[verifier::rlimit(100)]
pub fn parse_bookmarks_html(
    html: &str,
    next_folder_id: i32,
    next_bookmark_id: i32,
    now: i64,
) -> (r: (Vec<Folder>, Vec<Bookmark>))
    requires
        0 <= next_folder_id,
        0 <= next_bookmark_id,
        next_folder_id + 2 * html@.len() + 1 <= i32::MAX,
        next_bookmark_id + 2 * html@.len() + 1 <= i32::MAX,
    ensures
        r.0@.map_values(|f: Folder| folder_abs(f)) == decode_spec(
            html@,
            next_folder_id as int,
            next_bookmark_id as int,
            now as int,
        ).folders,
        r.1@.map_values(|b: Bookmark| bookmark_abs(b)) == decode_spec(
            html@,
            next_folder_id as int,
            next_bookmark_id as int,
            now as int,
        ).bookmarks,
        crate::moves::unique_folder_ids(r.0@),
        crate::moves::acyclic_folders(r.0@),
        forall|i: int|
            0 <= i < r.0@.len() ==> (#[trigger] r.0@[i]).id == next_folder_id + i
                && !r.0@[i].favorite,
        forall|k: int|
            0 <= k < r.1@.len() ==> (#[trigger] r.1@[k]).id == next_bookmark_id + k
                && !r.1@[k].favorite,
{
    let v = crate::strutil::to_char_vec(html);
    let n = v.len();
    let adname = crate::strutil::to_char_vec("add_date");
    let hrefname = crate::strutil::to_char_vec("href");
    let iconname = crate::strutil::to_char_vec("icon");
    let iconuriname = crate::strutil::to_char_vec("icon_uri");
    let mut folders: Vec<Folder> = Vec::new();
    let mut bookmarks: Vec<Bookmark> = Vec::new();
    let mut stack: Vec<Option<Vec<char>>> = Vec::new();
    let mut last_h3: Option<Vec<char>> = None;
    let mut pos: u128 = 0;
    let mut fuel: u128 = n as u128 + n as u128 + 1;
    let ghost nf = next_folder_id as int;
    let ghost nb = next_bookmark_id as int;
    let ghost fuel0 = (html@.len() + html@.len() + 1) as nat;
    proof {
        assert(folders@.map_values(|f: Folder| folder_abs(f)) =~= Seq::<FolderView>::empty());
        assert(bookmarks@.map_values(|b: Bookmark| bookmark_abs(b)) =~= Seq::<
            BookmarkView,
        >::empty());
        assert(stack@.map_values(|o: Option<Vec<char>>| opt_vec_abs(o)) =~= Seq::<
            Option<Seq<char>>,
        >::empty());
    }
    while fuel > 0 && pos < n as u128
        invariant
            v@ == html@,
            n == v@.len(),
            adname@ == "add_date"@,
            hrefname@ == "href"@,
            iconname@ == "icon"@,
            iconuriname@ == "icon_uri"@,
            nf == next_folder_id as int,
            nb == next_bookmark_id as int,
            0 <= next_folder_id,
            0 <= next_bookmark_id,
            next_folder_id + 2 * html@.len() + 1 <= i32::MAX,
            next_bookmark_id + 2 * html@.len() + 1 <= i32::MAX,
            fuel0 == (html@.len() + html@.len() + 1) as nat,
            fuel <= fuel0,
            folders@.len() + bookmarks@.len() + fuel <= fuel0,
            scan(html@, 0, empty_scan_state(), nf, nb, now as int, fuel0) == scan(
                html@,
                pos as int,
                ScanState {
                    folders: folders@.map_values(|f: Folder| folder_abs(f)),
                    bookmarks: bookmarks@.map_values(|b: Bookmark| bookmark_abs(b)),
                    stack: stack@.map_values(|o: Option<Vec<char>>| opt_vec_abs(o)),
                    last_h3: opt_vec_abs(last_h3),
                },
                nf,
                nb,
                now as int,
                fuel as nat,
            ),
        decreases fuel,
    {
        let ghost pre = ScanState {
            folders: folders@.map_values(|f: Folder| folder_abs(f)),
            bookmarks: bookmarks@.map_values(|b: Bookmark| bookmark_abs(b)),
            stack: stack@.map_values(|o: Option<Vec<char>>| opt_vec_abs(o)),
            last_h3: opt_vec_abs(last_h3),
        };
        let p = pos as usize;
        let c = v[p];
        if c != '<' {
            pos = pos + 1;
            fuel = fuel - 1;
            continue ;
        }
        if p + 1 >= n {
            pos = pos + 1;
            fuel = fuel - 1;
            continue ;
        }
        let c1 = v[p + 1];
        if c1 == '!' {
            let e = gt_end_exec(&v, p + 2);
            pos = e as u128 + 1;
            fuel = fuel - 1;
            continue ;
        }
        if c1 == '/' {
            let ne = name_end_exec(&v, p + 2);
            let isdl = ne == p + 4 && (v[p + 2] == 'd' || v[p + 2] == 'D') && (v[p + 3] == 'l'
                || v[p + 3] == 'L');
            if isdl {
                if stack.len() > 0 {
                    stack.pop();
                    proof {
                        assert(stack@.map_values(|o: Option<Vec<char>>| opt_vec_abs(o))
                            =~= pre.stack.drop_last());
                    }
                }
                last_h3 = None;
            }
            let e = gt_end_exec(&v, ne);
            pos = e as u128 + 1;
            fuel = fuel - 1;
            continue ;
        }
        let ne = name_end_exec(&v, p + 1);
        let te = tag_end_exec(&v, p + 1);
        let isdl = ne == p + 3 && (v[p + 1] == 'd' || v[p + 1] == 'D') && (v[p + 2] == 'l' || v[p
            + 2] == 'L');
        let ish3 = ne == p + 3 && (v[p + 1] == 'h' || v[p + 1] == 'H') && v[p + 2] == '3';
        let isa = ne == p + 2 && (v[p + 1] == 'a' || v[p + 1] == 'A');
        if isdl {
            stack.push(last_h3);
            last_h3 = None;
            proof {
                assert(stack@.map_values(|o: Option<Vec<char>>| opt_vec_abs(o)) =~= pre.stack.push(
                    pre.last_h3,
                ));
            }
            pos = te as u128 + 1;
            fuel = fuel - 1;
            continue ;
        }
        if ish3 {
            if te >= n {
                pos = te as u128 + 1;
                fuel = fuel - 1;
                continue ;
            }
            let tend = text_end_exec(&v, te + 1);
            let namev = crate::strutil::subrange_vec(&v, te + 1, tend);
            let ad = attr_value_exec(&v, ne, te, &adname);
            let created = created_from_exec(&ad, now);
            let parent = resolve_scope_exec(&folders, &stack);
            let fid = next_folder_id + folders.len() as i32;
            let newf = Folder {
                id: fid,
                name: crate::strutil::chars_to_string(&namev),
                created: created,
                parent_id: parent,
                favorite: false,
            };
            proof {
                let fv = FolderView {
                    id: nf + pre.folders.len(),
                    name: html@.subrange(te + 1, tend as int),
                    created: created_from(
                        attr_value(html@, ne as int, te as int, "add_date"@, (if te >= ne {
                            te - ne
                        } else {
                            0
                        }) as nat),
                        now as int,
                    ),
                    parent_id: resolve_parent(pre.folders, scope_top(pre.stack)),
                    favorite: false,
                };
                assert(folder_abs(newf) == fv);
            }
            folders.push(newf);
            last_h3 = Some(namev);
            proof {
                assert(folders@.map_values(|f: Folder| folder_abs(f)) =~= pre.folders.push(
                    folder_abs(folders@.last()),
                ));
            }
            pos = tend as u128;
            fuel = fuel - 1;
            continue ;
        }
        if isa {
            if te >= n {
                pos = te as u128 + 1;
                fuel = fuel - 1;
                continue ;
            }
            let href = attr_value_exec(&v, ne, te, &hrefname);
            match href {
                Option::None => {
                    pos = te as u128 + 1;
                    fuel = fuel - 1;
                    continue ;
                },
                Option::Some(urlv) => {
                    let tend = text_end_exec(&v, te + 1);
                    let namev = crate::strutil::subrange_vec(&v, te + 1, tend);
                    let ad = attr_value_exec(&v, ne, te, &adname);
                    let created = created_from_exec(&ad, now);
                    let icon = attr_value_exec(&v, ne, te, &iconname);
                    let iconuri = attr_value_exec(&v, ne, te, &iconuriname);
                    let fid = resolve_scope_exec(&folders, &stack);
                    let bid = next_bookmark_id + bookmarks.len() as i32;
                    let newb = Bookmark {
                        id: bid,
                        name: crate::strutil::chars_to_string(&namev),
                        url: crate::strutil::chars_to_string(&urlv),
                        favicon: opt_chars_to_string(&icon),
                        favicon_url: opt_chars_to_string(&iconuri),
                        created: created,
                        folder_id: fid,
                        favorite: false,
                    };
                    bookmarks.push(newb);
                    proof {
                        assert(bookmarks@.map_values(|b: Bookmark| bookmark_abs(b))
                            =~= pre.bookmarks.push(bookmark_abs(bookmarks@.last())));
                    }
                    pos = tend as u128;
                    fuel = fuel - 1;
                    continue ;
                },
            }
        }
        pos = te as u128 + 1;
        fuel = fuel - 1;
    }
    proof {
        broadcast use vstd::map::group_map_axioms;

        assert(decode_spec(html@, nf, nb, now as int).folders == folders@.map_values(
            |f: Folder| folder_abs(f),
        ));
        assert(decode_spec(html@, nf, nb, now as int).bookmarks == bookmarks@.map_values(
            |b: Bookmark| bookmark_abs(b),
        ));
        lemma_import_well_formed(html@, nf, nb, now as int);
        let fs = decode_spec(html@, nf, nb, now as int).folders;
        let bs = decode_spec(html@, nf, nb, now as int).bookmarks;
        assert forall|i: int| 0 <= i < folders@.len() implies (#[trigger] folders@[i]).id
            == next_folder_id + i && !folders@[i].favorite && (folders@[i].parent_id matches Some(
            p,
        ) ==> next_folder_id <= p < next_folder_id + i) by {
            assert(fs[i] == folder_abs(folders@[i]));
        }
        assert forall|k: int| 0 <= k < bookmarks@.len() implies (#[trigger] bookmarks@[k]).id
            == next_bookmark_id + k && !bookmarks@[k].favorite by {
            assert(bs[k] == bookmark_abs(bookmarks@[k]));
        }
        assert(crate::moves::unique_folder_ids(folders@));
        let len = folders@.len() as int;
        let rank = Map::new(
            |id: i32| next_folder_id <= id < next_folder_id + len,
            |id: i32| (id - next_folder_id) as nat,
        );
        assert(crate::moves::rank_ok(folders@, rank)) by {
            assert forall|i: int| 0 <= i < folders@.len() implies {
                let f = #[trigger] folders@[i];
                &&& rank.contains_key(f.id)
                &&& rank[f.id] < folders@.len()
                &&& match f.parent_id {
                    Option::Some(p) => crate::moves::find_folder(folders@, p) is Some
                        ==> rank.contains_key(p) && rank[p] < rank[f.id],
                    Option::None => true,
                }
            } by {
                let f = folders@[i];
                assert(f.id == next_folder_id + i);
            }
        }
        assert(crate::moves::acyclic_folders(folders@));
    }
    (folders, bookmarks)
}

} // verus!
