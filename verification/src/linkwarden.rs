//! The external import adapter: converts a third-party JSON export — a
//! `collections` array whose entries carry `links` — into flat folder
//! and bookmark records, remapping the external ids to freshly assigned
//! local ones.

use vstd::prelude::*;
use crate::models::{Bookmark, Folder};
use crate::strutil::is_space;
use crate::timestamps::rfc3339_unix;

verus! {

/// Why an import was rejected as a whole.
#[derive(Debug, Clone, Copy, PartialEq, Eq, Structural)]
pub enum ImportError {
    /// The document is not valid JSON.
    InvalidJson,
    /// The records would not fit in the remaining id space.
    TooManyItems,
}

/// One link of a collection, as the document supplies it.
#[derive(Debug, Clone)]
pub struct RawLink {
    pub url: String,
    pub name: Option<String>,
}

/// One collection, with the defaults the adapter applies for missing
/// scalar fields already in place.
#[derive(Debug, Clone)]
pub struct RawCollection {
    pub ext_id: i64,
    pub name: String,
    pub parent_ext: Option<i64>,
    pub created: i64,
    pub links: Vec<RawLink>,
}

/// The position of the last collection carrying the external id `e`:
/// the translation table keeps the latest entry for each id.
pub open spec fn remap_idx(cols: Seq<RawCollection>, e: i64) -> Option<int>
    decreases cols.len(),
{
    if cols.len() == 0 {
        None
    } else if cols.last().ext_id == e {
        Some(cols.len() - 1)
    } else {
        remap_idx(cols.drop_last(), e)
    }
}

/// A name that holds nothing but whitespace, including the empty name.
pub open spec fn all_spaces(s: Seq<char>) -> bool {
    forall|i: int| 0 <= i < s.len() ==> is_space(#[trigger] s[i])
}

/// The display name a link gets: its own, unless that is missing or
/// blank, in which case a literal placeholder.
pub open spec fn link_name_spec(n: Option<String>) -> Seq<char> {
    match n {
        Option::None => "Missing Name"@,
        Option::Some(s) => if all_spaces(s@) {
            "Missing Name"@
        } else {
            s@
        },
    }
}

/// The links of the first `k` collections, each tagged with its
/// collection's position.
pub open spec fn flat_links(cols: Seq<RawCollection>, k: int) -> Seq<(int, RawLink)>
    decreases k,
{
    if k <= 0 || k > cols.len() {
        Seq::empty()
    } else {
        flat_links(cols, k - 1) + cols[k - 1].links@.map_values(|l: RawLink| ((k - 1) as int, l))
    }
}

/// Finds the last collection with the given external id.
fn remap_exec(cols: &Vec<RawCollection>, e: i64) -> (r: Option<usize>)
    ensures
        match remap_idx(cols@, e) {
            Option::Some(j) => r matches Some(x) && x as int == j && j < cols@.len(),
            Option::None => r is None,
        },
{
    let mut j: usize = cols.len();
    proof {
        assert(cols@.subrange(0, j as int) =~= cols@);
    }
    while j > 0
        invariant
            j <= cols@.len(),
            remap_idx(cols@, e) == remap_idx(cols@.subrange(0, j as int), e),
        decreases j,
    {
        proof {
            let t = cols@.subrange(0, j as int);
            assert(t.last() == cols@[j - 1]);
            assert(t.drop_last() =~= cols@.subrange(0, j - 1));
        }
        if cols[j - 1].ext_id == e {
            return Some(j - 1);
        }
        j = j - 1;
    }
    None
}

/// Whether a string is blank: empty or all whitespace.
fn is_blank(s: &String) -> (r: bool)
    ensures
        r == all_spaces(s@),
{
    let st = s.as_str();
    let n = st.unicode_len();
    let mut k: usize = 0;
    while k < n
        invariant
            k <= n,
            st@ == s@,
            n == s@.len(),
            forall|m: int| 0 <= m < k ==> is_space(#[trigger] s@[m]),
        decreases n - k,
    {
        if !crate::strutil::is_space_exec(st.get_char(k)) {
            return false;
        }
        k = k + 1;
    }
    true
}

/// The placeholder or actual name of a link.
fn link_name_exec(n: &Option<String>) -> (r: String)
    ensures
        r@ == link_name_spec(*n),
{
    match n {
        Option::None => crate::strutil::chars_to_string(&crate::strutil::to_char_vec("Missing Name")),
        Option::Some(s) => {
            if is_blank(s) {
                crate::strutil::chars_to_string(&crate::strutil::to_char_vec("Missing Name"))
            } else {
                s.clone()
            }
        },
    }
}

/// Converts the collections into flat records: each collection becomes
/// a folder with a fresh sequential id, its external parent reference
/// remapped through the translation table, and each of its links
/// becomes a bookmark owned by the new folder, created at the
/// collection's creation time.
pub fn adapt_collections(cols: &Vec<RawCollection>, next_folder_id: i32, next_bookmark_id: i32) -> (r: (
    Vec<Folder>,
    Vec<Bookmark>,
))
    requires
        0 <= next_folder_id,
        0 <= next_bookmark_id,
        next_folder_id + cols@.len() <= i32::MAX,
        next_bookmark_id + flat_links(cols@, cols@.len() as int).len() <= i32::MAX,
    ensures
        r.0@.len() == cols@.len(),
        forall|i: int|
            0 <= i < cols@.len() ==> {
                let f = #[trigger] r.0@[i];
                &&& f.id == next_folder_id + i
                &&& f.name@ == cols@[i].name@
                &&& f.created == cols@[i].created
                &&& !f.favorite
                &&& (match cols@[i].parent_ext {
                    Option::Some(e) => match remap_idx(cols@, e) {
                        Option::Some(j) => f.parent_id == Some((next_folder_id + j) as i32),
                        Option::None => f.parent_id is None,
                    },
                    Option::None => f.parent_id is None,
                })
            },
        r.1@.len() == flat_links(cols@, cols@.len() as int).len(),
        forall|k: int|
            0 <= k < r.1@.len() ==> {
                let b = #[trigger] r.1@[k];
                let ci = flat_links(cols@, cols@.len() as int)[k].0;
                let l = flat_links(cols@, cols@.len() as int)[k].1;
                &&& b.id == next_bookmark_id + k
                &&& b.url@ == l.url@
                &&& b.name@ == link_name_spec(l.name)
                &&& b.favicon is None
                &&& b.favicon_url is None
                &&& b.created == cols@[ci].created
                &&& b.folder_id == Some((next_folder_id + ci) as i32)
                &&& !b.favorite
            },
{
    let n = cols.len();
    let mut folders: Vec<Folder> = Vec::new();
    let mut bookmarks: Vec<Bookmark> = Vec::new();
    let mut i: usize = 0;
    while i < n
        invariant
            i <= n,
            n == cols@.len(),
            0 <= next_folder_id,
            0 <= next_bookmark_id,
            next_folder_id + cols@.len() <= i32::MAX,
            next_bookmark_id + flat_links(cols@, cols@.len() as int).len() <= i32::MAX,
            folders@.len() == i as int,
            forall|t: int|
                0 <= t < i ==> {
                    let f = #[trigger] folders@[t];
                    &&& f.id == next_folder_id + t
                    &&& f.name@ == cols@[t].name@
                    &&& f.created == cols@[t].created
                    &&& !f.favorite
                    &&& (match cols@[t].parent_ext {
                        Option::Some(e) => match remap_idx(cols@, e) {
                            Option::Some(j) => f.parent_id == Some((next_folder_id + j) as i32),
                            Option::None => f.parent_id is None,
                        },
                        Option::None => f.parent_id is None,
                    })
                },
            bookmarks@.len() == flat_links(cols@, i as int).len(),
            forall|k: int|
                0 <= k < bookmarks@.len() ==> {
                    let b = #[trigger] bookmarks@[k];
                    let ci = flat_links(cols@, i as int)[k].0;
                    let l = flat_links(cols@, i as int)[k].1;
                    &&& b.id == next_bookmark_id + k
                    &&& b.url@ == l.url@
                    &&& b.name@ == link_name_spec(l.name)
                    &&& b.favicon is None
                    &&& b.favicon_url is None
                    &&& b.created == cols@[ci].created
                    &&& b.folder_id == Some((next_folder_id + ci) as i32)
                    &&& !b.favorite
                },
        decreases n - i,
    {
        proof {
            lemma_flat_links_le(cols@, i + 1, cols@.len() as int);
            assert(flat_links(cols@, i + 1) == flat_links(cols@, i as int) + cols@[i as int].links@
                .map_values(|l: RawLink| (i as int, l)));
        }
        let parent: Option<i32> = match cols[i].parent_ext {
            Option::Some(e) => {
                match remap_exec(cols, e) {
                    Option::Some(j) => Some(next_folder_id + j as i32),
                    Option::None => None,
                }
            },
            Option::None => None,
        };
        folders.push(
            Folder {
                id: next_folder_id + i as i32,
                name: cols[i].name.clone(),
                created: cols[i].created,
                parent_id: parent,
                favorite: false,
            },
        );
        let m = cols[i].links.len();
        let mut j: usize = 0;
        while j < m
            invariant
                j <= m,
                i < n,
                n == cols@.len(),
                m == cols@[i as int].links@.len(),
                0 <= next_folder_id,
                0 <= next_bookmark_id,
                next_folder_id + cols@.len() <= i32::MAX,
                next_bookmark_id + flat_links(cols@, cols@.len() as int).len() <= i32::MAX,
                flat_links(cols@, i as int).len() + j == flat_links(cols@, i + 1).len() - (m - j),
                bookmarks@.len() == flat_links(cols@, i as int).len() + j,
                flat_links(cols@, i + 1).len() <= flat_links(cols@, cols@.len() as int).len(),
                forall|k: int|
                    0 <= k < bookmarks@.len() ==> {
                        let b = #[trigger] bookmarks@[k];
                        let ci = if k < flat_links(cols@, i as int).len() {
                            flat_links(cols@, i as int)[k].0
                        } else {
                            i as int
                        };
                        let l = if k < flat_links(cols@, i as int).len() {
                            flat_links(cols@, i as int)[k].1
                        } else {
                            cols@[i as int].links@[k - flat_links(cols@, i as int).len()]
                        };
                        &&& b.id == next_bookmark_id + k
                        &&& b.url@ == l.url@
                        &&& b.name@ == link_name_spec(l.name)
                        &&& b.favicon is None
                        &&& b.favicon_url is None
                        &&& b.created == cols@[ci].created
                        &&& b.folder_id == Some((next_folder_id + ci) as i32)
                        &&& !b.favorite
                    },
            decreases m - j,
        {
            let bid = next_bookmark_id + bookmarks.len() as i32;
            bookmarks.push(
                Bookmark {
                    id: bid,
                    name: link_name_exec(&cols[i].links[j].name),
                    url: cols[i].links[j].url.clone(),
                    favicon: None,
                    favicon_url: None,
                    created: cols[i].created,
                    folder_id: Some(next_folder_id + i as i32),
                    favorite: false,
                },
            );
            j = j + 1;
        }
        proof {
            assert(flat_links(cols@, i + 1) == flat_links(cols@, i as int) + cols@[i as int].links@
                .map_values(|l: RawLink| (i as int, l)));
            assert forall|k: int| 0 <= k < bookmarks@.len() implies {
                let b = #[trigger] bookmarks@[k];
                let ci = flat_links(cols@, i + 1)[k].0;
                let l = flat_links(cols@, i + 1)[k].1;
                &&& b.id == next_bookmark_id + k
                &&& b.url@ == l.url@
                &&& b.name@ == link_name_spec(l.name)
                &&& b.favicon is None
                &&& b.favicon_url is None
                &&& b.created == cols@[ci].created
                &&& b.folder_id == Some((next_folder_id + ci) as i32)
                &&& !b.favorite
            } by {
                let pre = flat_links(cols@, i as int);
                if k < pre.len() {
                    assert(flat_links(cols@, i + 1)[k] == pre[k]);
                } else {
                    assert(flat_links(cols@, i + 1)[k] == cols@[i as int].links@.map_values(
                        |l: RawLink| (i as int, l),
                    )[k - pre.len()]);
                }
            }
        }
        i = i + 1;
    }
    (folders, bookmarks)
}

/// The creation time an optional RFC 3339 string denotes, falling back
/// to the supplied current time when the string is missing or does not
/// parse.
pub fn parse_created_date(date_str: Option<&str>, now: i64) -> (r: i64)
    ensures
        r == (match date_str {
            Option::Some(ds) => match rfc3339_unix(ds@) {
                Option::Some(t) => t,
                Option::None => now,
            },
            Option::None => now,
        }),
{
    match date_str {
        Option::Some(ds) => {
            match crate::timestamps::parse_rfc3339_unix(ds) {
                Option::Some(t) => t,
                Option::None => now,
            }
        },
        Option::None => now,
    }
}

/// Reads the collections array out of a parsed document, applying the
/// scalar defaults: a missing id counts as zero, a missing name as
/// empty, and a missing or unparsable creation date as the current
/// time. Links without a `url` are dropped. What comes back depends on
/// the document alone; the caller's contract is on `adapt_collections`.
fn extract_collections(doc: &serde_json::Value, now: i64) -> Vec<RawCollection> {
    let mut cols: Vec<RawCollection> = Vec::new();
    let arr = match crate::jsonval::json_get(doc, "collections") {
        Option::Some(v) => crate::jsonval::json_as_array(v),
        Option::None => None,
    };
    match arr {
        Option::None => cols,
        Option::Some(items) => {
            let n = items.len();
            let mut i: usize = 0;
            while i < n
                invariant
                    i <= n,
                    n == items@.len(),
                decreases n - i,
            {
                let c = &items[i];
                let ext_id: i64 = match crate::jsonval::json_get(c, "id") {
                    Option::Some(v) => match crate::jsonval::json_as_i64(v) {
                        Option::Some(x) => x,
                        Option::None => 0,
                    },
                    Option::None => 0,
                };
                let name: String = match crate::jsonval::json_get(c, "name") {
                    Option::Some(v) => match crate::jsonval::json_as_str(v) {
                        Option::Some(s) => s.to_owned(),
                        Option::None => String::new(),
                    },
                    Option::None => String::new(),
                };
                let parent_ext: Option<i64> = match crate::jsonval::json_get(c, "parentId") {
                    Option::Some(v) => crate::jsonval::json_as_i64(v),
                    Option::None => None,
                };
                let created: i64 = match crate::jsonval::json_get(c, "createdAt") {
                    Option::Some(v) => parse_created_date(crate::jsonval::json_as_str(v), now),
                    Option::None => now,
                };
                let mut links: Vec<RawLink> = Vec::new();
                match crate::jsonval::json_get(c, "links") {
                    Option::Some(lv) => {
                        match crate::jsonval::json_as_array(lv) {
                            Option::Some(larr) => {
                                let m = larr.len();
                                let mut j: usize = 0;
                                while j < m
                                    invariant
                                        j <= m,
                                        m == larr@.len(),
                                    decreases m - j,
                                {
                                    let l = &larr[j];
                                    match crate::jsonval::json_get(l, "url") {
                                        Option::Some(uv) => {
                                            match crate::jsonval::json_as_str(uv) {
                                                Option::Some(u) => {
                                                    let lname: Option<String> = match crate::jsonval::json_get(
                                                        l,
                                                        "name",
                                                    ) {
                                                        Option::Some(nv) => match crate::jsonval::json_as_str(
                                                            nv,
                                                        ) {
                                                            Option::Some(s) => Some(s.to_owned()),
                                                            Option::None => None,
                                                        },
                                                        Option::None => None,
                                                    };
                                                    links.push(
                                                        RawLink { url: u.to_owned(), name: lname },
                                                    );
                                                },
                                                Option::None => {},
                                            }
                                        },
                                        Option::None => {},
                                    }
                                    j = j + 1;
                                }
                            },
                            Option::None => {},
                        }
                    },
                    Option::None => {},
                }
                cols.push(
                    RawCollection {
                        ext_id: ext_id,
                        name: name,
                        parent_ext: parent_ext,
                        created: created,
                        links: links,
                    },
                );
                i = i + 1;
            }
            cols
        },
    }
}

/// Parses a third-party JSON export and adapts it into flat records.
/// The whole import fails on malformed JSON — exactly then is
/// `InvalidJson` returned — or when the document holds more records than
/// the remaining id space; otherwise the records come from
/// `adapt_collections`, whose contract pins them down: fresh sequential
/// ids from the given counters, remapped parents, placeholder names for
/// blank links, and no favorites.
pub fn parse_linkwarden_json(
    linkwarden_json: &str,
    next_folder_id: i32,
    next_bookmark_id: i32,
    now: i64,
) -> (r: Result<(Vec<Folder>, Vec<Bookmark>), ImportError>)
    requires
        0 <= next_folder_id,
        0 <= next_bookmark_id,
    ensures
        r == Err::<(Vec<Folder>, Vec<Bookmark>), ImportError>(ImportError::InvalidJson)
            <==> !crate::jsonval::json_parses(linkwarden_json@),
        r matches Ok(out) ==> {
            &&& forall|i: int|
                0 <= i < out.0@.len() ==> (#[trigger] out.0@[i]).id == next_folder_id + i
                    && !out.0@[i].favorite
            &&& forall|k: int|
                0 <= k < out.1@.len() ==> (#[trigger] out.1@[k]).id == next_bookmark_id + k
                    && !out.1@[k].favorite && out.1@[k].favicon is None && out.1@[k].favicon_url is None
        },
{
    let doc = match crate::jsonval::json_parse(linkwarden_json) {
        Option::Some(d) => d,
        Option::None => {
            return Err(ImportError::InvalidJson);
        },
    };
    let cols = extract_collections(&doc, now);
    if cols.len() as u64 > (i32::MAX - next_folder_id) as u64 {
        return Err(ImportError::TooManyItems);
    }
    let n = cols.len();
    let mut total: u64 = 0;
    let mut i: usize = 0;
    while i < n
        invariant
            i <= n,
            n == cols@.len(),
            0 <= next_folder_id,
            0 <= next_bookmark_id,
            crate::jsonval::json_parses(linkwarden_json@),
            total == flat_links(cols@, i as int).len(),
            total <= u64::MAX - 1,
            total <= (i32::MAX - next_bookmark_id) as u64,
        decreases n - i,
    {
        proof {
            assert(flat_links(cols@, i + 1) == flat_links(cols@, i as int) + cols@[i as int].links@
                .map_values(|l: RawLink| (i as int, l)));
        }
        let m = cols[i].links.len();
        if m as u64 > u64::MAX - 1 - total {
            return Err(ImportError::TooManyItems);
        }
        total = total + m as u64;
        if total > (i32::MAX - next_bookmark_id) as u64 {
            return Err(ImportError::TooManyItems);
        }
        i = i + 1;
    }
    let out = adapt_collections(&cols, next_folder_id, next_bookmark_id);
    Ok(out)
}

/// A longer prefix of collections has at least as many links.
proof fn lemma_flat_links_le(cols: Seq<RawCollection>, a: int, b: int)
    requires
        a <= b,
        b <= cols.len(),
    ensures
        flat_links(cols, a).len() <= flat_links(cols, b).len(),
    decreases b - a,
{
    if a < b {
        lemma_flat_links_le(cols, a, b - 1);
    }
}

} // verus!
