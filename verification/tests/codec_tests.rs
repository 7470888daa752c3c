use nadamark::htmlin::parse_bookmarks_html;
use nadamark::htmlout::export_bookmarks;
use nadamark::models::{Bookmark, Folder};

fn folder(id: i32, name: &str, parent: Option<i32>, created: i64) -> Folder {
    Folder { id, name: name.to_string(), created, parent_id: parent, favorite: false }
}

fn bookmark(id: i32, name: &str, url: &str, folder_id: Option<i32>, created: i64) -> Bookmark {
    Bookmark {
        id,
        name: name.to_string(),
        url: url.to_string(),
        favicon: None,
        favicon_url: None,
        created,
        folder_id,
        favorite: false,
    }
}

const WRAPPER: &str = "\n<!DOCTYPE NETSCAPE-Bookmark-file-1>\n<!-- This is an automatically generated file.\n    It will be read and overwritten.\n    DO NOT EDIT! -->\n<META HTTP-EQUIV=\"Content-Type\" CONTENT=\"text/html; charset=UTF-8\">\n<TITLE>Bookmarks</TITLE>\n<H1>Bookmarks</H1>\n\n";

#[test]
fn empty_store_exports_empty_string() {
    let out = export_bookmarks(&vec![], &vec![]);
    assert_eq!(out, "");
}

#[test]
fn export_writes_the_exact_document() {
    let folders = vec![folder(1, "Work", None, 1000)];
    let bookmarks = vec![bookmark(1, "X", "http://x", Some(1), 1000)];
    let out = export_bookmarks(&folders, &bookmarks);
    let expected = format!(
        "{}<DL><p>\n\t<DT><H3 ADD_DATE=\"1000\">Work</H3>\n\t<DL><p>\n\t\t<DT><A HREF=\"http://x\" ADD_DATE=\"1000\">X</A>\n\t</DL><p>\n</DL><p>\n",
        WRAPPER
    );
    assert_eq!(out, expected);
}

#[test]
fn export_includes_icon_attributes() {
    let folders = vec![];
    let mut b = bookmark(1, "Y", "http://y", None, 5);
    b.favicon = Some("data:image/png;base64,AA".to_string());
    b.favicon_url = Some("http://y/favicon.ico".to_string());
    let out = export_bookmarks(&folders, &vec![b]);
    let expected = format!(
        "{}<DL><p>\n\t<DT><A HREF=\"http://y\" ADD_DATE=\"5\" ICON=\"data:image/png;base64,AA\" ICON_URI=\"http://y/favicon.ico\">Y</A>\n</DL><p>\n",
        WRAPPER
    );
    assert_eq!(out, expected);
}

#[test]
fn import_reads_one_folder_and_its_bookmark() {
    let html = "<DL><p>\n<DT><H3 ADD_DATE=\"900\">Work</H3>\n<DL><p>\n<DT><A HREF=\"http://x\" ADD_DATE=\"1000\">X</A>\n</DL><p>\n</DL>\n";
    let (folders, bookmarks) = parse_bookmarks_html(html, 1, 1, 555);
    assert_eq!(folders.len(), 1);
    assert_eq!(folders[0].name, "Work");
    assert_eq!(folders[0].id, 1);
    assert_eq!(folders[0].created, 900);
    assert_eq!(folders[0].parent_id, None);
    assert!(!folders[0].favorite);
    assert_eq!(bookmarks.len(), 1);
    assert_eq!(bookmarks[0].name, "X");
    assert_eq!(bookmarks[0].url, "http://x");
    assert_eq!(bookmarks[0].created, 1000);
    assert_eq!(bookmarks[0].folder_id, Some(1));
    assert!(!bookmarks[0].favorite);
}

#[test]
fn import_assigns_fresh_ids_past_the_highest() {
    let html = "<DL><p>\n<DT><H3>A</H3>\n<DT><H3>B</H3>\n<DT><A HREF=\"http://a\">a</A>\n</DL>\n";
    let (folders, bookmarks) = parse_bookmarks_html(html, 7, 31, 0);
    assert_eq!(folders.len(), 2);
    assert_eq!(folders[0].id, 7);
    assert_eq!(folders[1].id, 8);
    assert_eq!(bookmarks.len(), 1);
    assert_eq!(bookmarks[0].id, 31);
}

#[test]
fn invalid_add_date_falls_back_to_now() {
    let html = "<DL><p>\n<DT><A HREF=\"http://x\" ADD_DATE=\"abc\">X</A>\n</DL>\n";
    let (_, bookmarks) = parse_bookmarks_html(html, 1, 1, 777);
    assert_eq!(bookmarks.len(), 1);
    assert_eq!(bookmarks[0].created, 777);
}

#[test]
fn out_of_range_add_date_falls_back_to_now() {
    // One second past the largest representable timestamp.
    let html = "<DL><p>\n<DT><A HREF=\"http://x\" ADD_DATE=\"253402300800\">X</A>\n</DL>\n";
    let (_, bookmarks) = parse_bookmarks_html(html, 1, 1, 777);
    assert_eq!(bookmarks[0].created, 777);
    // The largest representable timestamp itself is kept.
    let html2 = "<DL><p>\n<DT><A HREF=\"http://x\" ADD_DATE=\"253402300799\">X</A>\n</DL>\n";
    let (_, bookmarks2) = parse_bookmarks_html(html2, 1, 1, 777);
    assert_eq!(bookmarks2[0].created, 253402300799);
}

#[test]
fn earliest_representable_add_date_is_kept() {
    let html = "<DL><p>\n<DT><A HREF=\"http://x\" ADD_DATE=\"-377705116800\">X</A>\n</DL>\n";
    let (_, bookmarks) = parse_bookmarks_html(html, 1, 1, 777);
    assert_eq!(bookmarks[0].created, -377705116800);
    // One second before it falls back.
    let html2 = "<DL><p>\n<DT><A HREF=\"http://x\" ADD_DATE=\"-377705116801\">X</A>\n</DL>\n";
    let (_, bookmarks2) = parse_bookmarks_html(html2, 1, 1, 777);
    assert_eq!(bookmarks2[0].created, 777);
}

#[test]
fn anchors_without_href_are_skipped() {
    let html = "<DL><p>\n<DT><A ADD_DATE=\"5\">nameless</A>\n</DL>\n";
    let (folders, bookmarks) = parse_bookmarks_html(html, 1, 1, 0);
    assert!(folders.is_empty());
    assert!(bookmarks.is_empty());
}

#[test]
fn round_trip_preserves_names_urls_and_structure() {
    let folders = vec![
        folder(3, "Work", None, 1000),
        folder(5, "Deep", Some(3), 2000),
        folder(9, "Play", None, 1500),
    ];
    let mut fav = bookmark(2, "starred", "http://s", Some(5), 50);
    fav.favorite = true;
    fav.favicon = Some("data:,i".to_string());
    fav.favicon_url = Some("http://s/f.ico".to_string());
    let bookmarks = vec![
        bookmark(1, "top", "http://t", None, 10),
        fav,
        bookmark(4, "inwork", "http://w", Some(3), 60),
    ];
    let html = export_bookmarks(&folders, &bookmarks);
    let (nf, nb) = parse_bookmarks_html(&html, 10, 5, 999);

    assert_eq!(nf.len(), 3);
    assert_eq!(nb.len(), 3);

    // Document order is pre-order: Work, Deep, then Play.
    assert_eq!(nf[0].name, "Work");
    assert_eq!(nf[1].name, "Deep");
    assert_eq!(nf[2].name, "Play");
    assert_eq!(nf[0].id, 10);
    assert_eq!(nf[1].id, 11);
    assert_eq!(nf[2].id, 12);
    assert_eq!(nf[0].parent_id, None);
    assert_eq!(nf[1].parent_id, Some(10));
    assert_eq!(nf[2].parent_id, None);
    assert_eq!(nf[0].created, 1000);
    assert_eq!(nf[1].created, 2000);
    assert_eq!(nf[2].created, 1500);

    let starred = nb.iter().find(|b| b.name == "starred").unwrap();
    assert_eq!(starred.url, "http://s");
    assert_eq!(starred.folder_id, Some(11));
    assert_eq!(starred.created, 50);
    assert_eq!(starred.favicon.as_deref(), Some("data:,i"));
    assert_eq!(starred.favicon_url.as_deref(), Some("http://s/f.ico"));
    // The format has no favorite field: the flag resets on reimport.
    assert!(!starred.favorite);

    let top = nb.iter().find(|b| b.name == "top").unwrap();
    assert_eq!(top.folder_id, None);
    let inwork = nb.iter().find(|b| b.name == "inwork").unwrap();
    assert_eq!(inwork.folder_id, Some(10));
}

#[test]
fn store_with_only_dangling_items_exports_the_wrapper_alone() {
    // The store is non-empty, so the wrapper appears once; nothing sits
    // at the root level, so no list is opened.
    let folders = vec![folder(1, "orphan", Some(9), 0)];
    let out = export_bookmarks(&folders, &vec![]);
    assert_eq!(out, WRAPPER);
}

#[test]
fn decoder_tolerates_malformed_markup() {
    let junk = "<<<>>> <dl><DT><h3 broken <a href=\"x\" <!nonsense </dl></dl></dl> trailing";
    let (folders, bookmarks) = parse_bookmarks_html(junk, 1, 1, 0);
    // Nothing well-formed to decode, and no crash.
    assert!(folders.len() + bookmarks.len() <= 1);
}

#[test]
fn equal_names_keep_their_original_order() {
    let folders = vec![folder(1, "f", None, 0)];
    let bookmarks = vec![
        bookmark(10, "same", "http://first", Some(1), 0),
        bookmark(11, "same", "http://second", Some(1), 0),
    ];
    let tree = nadamark::tree::build_tree(&folders, &bookmarks);
    let urls: Vec<&str> =
        tree.root_folders[0].bookmarks.iter().map(|b| b.url.as_str()).collect();
    assert_eq!(urls, vec!["http://first", "http://second"]);
}

#[test]
fn tab_chars_builds_a_tab_run() {
    assert_eq!(nadamark::tab_chars(3), "\t\t\t");
    assert!(nadamark::tab_chars(0).is_empty());
}
