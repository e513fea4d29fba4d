use bookmarks::actions::group_links;
use bookmarks::bookmarks::{Bookmark, BookmarksDB, Group};
use bookmarks::results::{route, search_results, SearchItem};

fn bookmark(id: usize, name: &str, link: &str) -> Bookmark {
    Bookmark { id, name: name.to_string(), link: link.to_string() }
}

fn group(id: usize, name: &str, bookmark_ids: Vec<usize>) -> Group {
    Group { id, name: name.to_string(), bookmark_ids }
}

fn empty_db() -> BookmarksDB {
    BookmarksDB { bookmarks: Vec::new(), groups: Vec::new() }
}

#[test]
fn every_name_matches_itself() {
    assert!(bookmarks::matcher::matches("Docs", "Docs"));
    assert!(bookmarks::matcher::matches("a quite long bookmark name", "a quite long bookmark name"));
    assert!(bookmarks::matcher::matches("D", "D"));
}

#[test]
fn matching_is_case_insensitive_and_typo_tolerant() {
    assert!(bookmarks::matcher::matches("Docs", "doc"));
    assert!(bookmarks::matcher::matches("Docs", "docs"));
    assert!(!bookmarks::matcher::matches("Docs", "xyzzyq"));
}

#[test]
fn route_keeps_plain_text_whole() {
    let q = route("doc");
    assert!(q.keyword.is_none());
    assert_eq!(q.search_text, "doc");
    let q = route("");
    assert!(q.keyword.is_none());
    assert_eq!(q.search_text, "");
}

#[test]
fn route_splits_edit_keywords() {
    let q = route("edit doc");
    assert_eq!(q.keyword.as_deref(), Some("edit"));
    assert_eq!(q.search_text, "doc");
    let q = route("e doc");
    assert_eq!(q.keyword.as_deref(), Some("e"));
    assert_eq!(q.search_text, "doc");
    let q = route("editdoc");
    assert!(q.keyword.is_none());
    assert_eq!(q.search_text, "editdoc");
}

#[test]
fn empty_query_on_empty_store_offers_only_add_bookmark() {
    let db = empty_db();
    let items = search_results(&db, "");
    assert_eq!(items.len(), 1);
    assert!(matches!(items[0], SearchItem::MenuAddBookmark));
}

#[test]
fn empty_query_menu_grows_with_the_store() {
    let mut db = empty_db();
    db.bookmarks.push(bookmark(0, "Docs", "https://docs.example.com"));
    let items = search_results(&db, "");
    assert_eq!(items.len(), 3);
    assert!(matches!(items[0], SearchItem::MenuAddBookmark));
    assert!(matches!(items[1], SearchItem::MenuAddGroup));
    assert!(matches!(items[2], SearchItem::MenuDeleteBookmark));
    db.groups.push(group(0, "Dev", vec![0]));
    let items = search_results(&db, "");
    assert_eq!(items.len(), 4);
    assert!(matches!(items[3], SearchItem::MenuDeleteGroup));
}

#[test]
fn plain_query_lists_matching_bookmarks_then_groups() {
    let mut db = empty_db();
    db.bookmarks.push(bookmark(0, "Docs", "https://docs.example.com"));
    let items = search_results(&db, "doc");
    assert_eq!(items.len(), 1);
    match &items[0] {
        SearchItem::OpenBookmark(b) => {
            assert_eq!(b.name, "Docs");
            assert_eq!(b.link, "https://docs.example.com");
        }
        _ => panic!("expected an open-link result"),
    }
    db.groups.push(group(0, "Doc tools", vec![0]));
    let items = search_results(&db, "doc");
    assert_eq!(items.len(), 2);
    assert!(matches!(&items[0], SearchItem::OpenBookmark(_)));
    match &items[1] {
        SearchItem::OpenGroup(g) => assert_eq!(g.name, "Doc tools"),
        _ => panic!("expected an open-group result"),
    }
}

#[test]
fn unmatched_query_yields_nothing() {
    let mut db = empty_db();
    db.bookmarks.push(bookmark(0, "Docs", "https://docs.example.com"));
    let items = search_results(&db, "qqqwwwxyz");
    assert_eq!(items.len(), 0);
}

#[test]
fn edit_query_prefills_current_fields() {
    let mut db = empty_db();
    db.bookmarks.push(bookmark(0, "Docs", "https://docs.example.com"));
    let items = search_results(&db, "edit doc");
    assert_eq!(items.len(), 1);
    match &items[0] {
        SearchItem::EditBookmark(b) => {
            assert_eq!(b.id, 0);
            assert_eq!(b.name, "Docs");
            assert_eq!(b.link, "https://docs.example.com");
        }
        _ => panic!("expected an edit result"),
    }
}

#[test]
fn edit_query_covers_groups_too() {
    let mut db = empty_db();
    db.bookmarks.push(bookmark(0, "Docs", "https://docs.example.com"));
    db.groups.push(group(0, "Docs and more", vec![0]));
    let items = search_results(&db, "e doc");
    assert_eq!(items.len(), 2);
    assert!(matches!(&items[0], SearchItem::EditBookmark(_)));
    match &items[1] {
        SearchItem::EditGroup(g) => {
            assert_eq!(g.id, 0);
            assert_eq!(g.bookmark_ids, vec![0]);
        }
        _ => panic!("expected an edit-group result"),
    }
}

#[test]
fn group_links_returns_referenced_bookmarks() {
    let mut db = empty_db();
    db.bookmarks.push(bookmark(0, "Docs", "https://docs.example.com"));
    db.bookmarks.push(bookmark(1, "Other", "https://other.example.com"));
    db.bookmarks.push(bookmark(2, "Third", "https://third.example.com"));
    db.groups.push(group(0, "Dev", vec![0, 2]));
    let links = group_links(&db, 0).unwrap();
    assert_eq!(links.len(), 2);
    assert_eq!(links[0].link, "https://docs.example.com");
    assert_eq!(links[1].link, "https://third.example.com");
}

#[test]
fn group_links_of_missing_group_is_none() {
    let db = empty_db();
    assert!(group_links(&db, 3).is_none());
}
