use bookmarks::bookmarks::{next_id, Bookmark, BookmarksDB, Group};
use bookmarks::forms::{is_valid_link, favicon_target, favicon_url, FaviconJob, MutationError, Operation};
use bookmarks::paths::{get_db_path, get_favicon_path, get_favicons_dir};

fn empty_db() -> BookmarksDB {
    BookmarksDB { bookmarks: Vec::new(), groups: Vec::new() }
}

fn bookmark(id: usize, name: &str, link: &str) -> Bookmark {
    Bookmark { id, name: name.to_string(), link: link.to_string() }
}

fn group(id: usize, name: &str, bookmark_ids: Vec<usize>) -> Group {
    Group { id, name: name.to_string(), bookmark_ids }
}

#[test]
fn next_id_of_empty_is_zero() {
    assert_eq!(next_id(&Vec::new()), 0);
}

#[test]
fn next_id_is_max_plus_one() {
    assert_eq!(next_id(&vec![0, 5, 2]), 6);
    assert_eq!(next_id(&vec![7]), 8);
}

#[test]
fn next_id_idempotent_until_insert() {
    let mut ids = vec![0, 2];
    let first = next_id(&ids);
    let second = next_id(&ids);
    assert_eq!(first, second);
    assert_eq!(first, 3);
    ids.push(first);
    assert_eq!(next_id(&ids), first + 1);
}

#[test]
fn bookmark_new_allocates_next_id() {
    let mut db = empty_db();
    db.bookmarks.push(bookmark(0, "a", "https://a.example.com"));
    db.bookmarks.push(bookmark(4, "b", "https://b.example.com"));
    let b = Bookmark::new(&db, "c", "https://c.example.com");
    assert_eq!(b.id, 5);
    assert_eq!(b.name, "c");
    assert_eq!(b.link, "https://c.example.com");
}

#[test]
fn group_new_allocates_next_id() {
    let mut db = empty_db();
    db.groups.push(group(1, "g", vec![0]));
    let g = Group::new(&db, "h", &vec![0, 4]);
    assert_eq!(g.id, 2);
    assert_eq!(g.name, "h");
    assert_eq!(g.bookmark_ids, vec![0, 4]);
}

#[test]
fn valid_links_pass_validation() {
    assert!(is_valid_link("https://docs.example.com"));
    assert!(is_valid_link("http://www.example.com/path?q=1"));
    assert!(!is_valid_link("not-a-url"));
    assert!(!is_valid_link(""));
}

#[test]
fn add_bookmark_appends_with_fresh_id() {
    let mut db = empty_db();
    let id = db.add_bookmark("Docs", "https://docs.example.com").unwrap();
    assert_eq!(id, 0);
    assert_eq!(db.bookmarks.len(), 1);
    assert_eq!(db.bookmarks[0].id, 0);
    assert_eq!(db.bookmarks[0].name, "Docs");
    assert_eq!(db.bookmarks[0].link, "https://docs.example.com");
    let id2 = db.add_bookmark("More", "https://more.example.com").unwrap();
    assert_eq!(id2, 1);
    assert_eq!(db.bookmarks.len(), 2);
}

#[test]
fn add_bookmark_rejects_bad_link_and_changes_nothing() {
    let mut db = empty_db();
    db.bookmarks.push(bookmark(0, "Docs", "https://docs.example.com"));
    let r = db.add_bookmark("Bad", "not-a-url");
    assert_eq!(r, Err(MutationError::InvalidLink));
    assert_eq!(db.bookmarks.len(), 1);
    assert_eq!(db.bookmarks[0].name, "Docs");
    assert_eq!(db.groups.len(), 0);
}

#[test]
fn edit_bookmark_replaces_fields_in_place() {
    let mut db = empty_db();
    db.bookmarks.push(bookmark(0, "Docs", "https://docs.example.com"));
    db.bookmarks.push(bookmark(1, "Other", "https://other.example.com"));
    db.edit_bookmark(0, "Handbook", "https://handbook.example.com").unwrap();
    assert_eq!(db.bookmarks[0].id, 0);
    assert_eq!(db.bookmarks[0].name, "Handbook");
    assert_eq!(db.bookmarks[0].link, "https://handbook.example.com");
    assert_eq!(db.bookmarks[1].name, "Other");
}

#[test]
fn edit_bookmark_rejects_bad_link() {
    let mut db = empty_db();
    db.bookmarks.push(bookmark(0, "Docs", "https://docs.example.com"));
    let r = db.edit_bookmark(0, "Docs", "nope");
    assert_eq!(r, Err(MutationError::InvalidLink));
    assert_eq!(db.bookmarks[0].link, "https://docs.example.com");
}

#[test]
fn edit_bookmark_of_missing_id_is_silent() {
    let mut db = empty_db();
    db.bookmarks.push(bookmark(0, "Docs", "https://docs.example.com"));
    db.edit_bookmark(9, "X", "https://x.example.com").unwrap();
    assert_eq!(db.bookmarks.len(), 1);
    assert_eq!(db.bookmarks[0].name, "Docs");
}

#[test]
fn delete_bookmark_cascades_into_groups() {
    let mut db = empty_db();
    db.bookmarks.push(bookmark(0, "Docs", "https://docs.example.com"));
    db.bookmarks.push(bookmark(1, "Other", "https://other.example.com"));
    db.groups.push(group(0, "Dev", vec![0, 1]));
    db.delete_bookmark(1);
    assert_eq!(db.bookmarks.len(), 1);
    assert_eq!(db.bookmarks[0].id, 0);
    assert_eq!(db.groups.len(), 1);
    assert_eq!(db.groups[0].id, 0);
    assert_eq!(db.groups[0].name, "Dev");
    assert_eq!(db.groups[0].bookmark_ids, vec![0]);
}

#[test]
fn delete_bookmark_of_missing_id_is_silent() {
    let mut db = empty_db();
    db.bookmarks.push(bookmark(0, "Docs", "https://docs.example.com"));
    db.delete_bookmark(5);
    assert_eq!(db.bookmarks.len(), 1);
}

#[test]
fn add_group_appends_with_fresh_id() {
    let mut db = empty_db();
    db.bookmarks.push(bookmark(0, "Docs", "https://docs.example.com"));
    let id = db.add_group("Dev", &vec![0, 17]);
    assert_eq!(id, 0);
    assert_eq!(db.groups.len(), 1);
    assert_eq!(db.groups[0].name, "Dev");
    assert_eq!(db.groups[0].bookmark_ids, vec![0, 17]);
}

#[test]
fn edit_group_replaces_name_and_membership() {
    let mut db = empty_db();
    db.groups.push(group(0, "Dev", vec![0, 1]));
    db.groups.push(group(1, "Fun", vec![2]));
    db.edit_group(0, "Work", &vec![1]);
    assert_eq!(db.groups[0].name, "Work");
    assert_eq!(db.groups[0].bookmark_ids, vec![1]);
    assert_eq!(db.groups[1].name, "Fun");
}

#[test]
fn delete_group_removes_only_that_group() {
    let mut db = empty_db();
    db.groups.push(group(0, "Dev", vec![0]));
    db.groups.push(group(1, "Fun", vec![1]));
    db.delete_group(0);
    assert_eq!(db.groups.len(), 1);
    assert_eq!(db.groups[0].id, 1);
}

#[test]
fn apply_dispatches_and_reports_favicon_jobs() {
    let mut db = empty_db();
    let job = db
        .apply(&Operation::AddBookmark {
            name: "Docs".to_string(),
            link: "https://docs.example.com".to_string(),
        })
        .unwrap();
    match job {
        FaviconJob::Fetch { id, link } => {
            assert_eq!(id, 0);
            assert_eq!(link, "https://docs.example.com");
        }
        _ => panic!("expected a fetch job"),
    }
    let job = db.apply(&Operation::DeleteBookmark { id: 0 }).unwrap();
    assert!(matches!(job, FaviconJob::Remove { id: 0 }));
    assert_eq!(db.bookmarks.len(), 0);
    let job = db.apply(&Operation::AddGroup { name: "Dev".to_string(), bookmark_ids: vec![] }).unwrap();
    assert!(matches!(job, FaviconJob::Keep));
    let r = db.apply(&Operation::AddBookmark { name: "Bad".to_string(), link: "nope".to_string() });
    assert!(matches!(r, Err(MutationError::InvalidLink)));
    assert_eq!(db.bookmarks.len(), 0);
    assert_eq!(db.groups.len(), 1);
}

#[test]
fn normalize_sorts_by_name_and_keeps_records() {
    let mut db = empty_db();
    db.bookmarks.push(bookmark(0, "zeta", "https://z.example.com"));
    db.bookmarks.push(bookmark(1, "alpha", "https://a.example.com"));
    db.groups.push(group(0, "late", vec![0]));
    db.groups.push(group(1, "early", vec![1]));
    db.normalize();
    assert_eq!(db.bookmarks[0].name, "alpha");
    assert_eq!(db.bookmarks[1].name, "zeta");
    assert_eq!(db.bookmarks[0].id, 1);
    assert_eq!(db.groups[0].name, "early");
    assert_eq!(db.groups[1].name, "late");
}

#[test]
fn normalize_leaves_sorted_collection_unchanged() {
    let mut db = empty_db();
    db.bookmarks.push(bookmark(3, "alpha", "https://a.example.com"));
    db.bookmarks.push(bookmark(0, "beta", "https://b.example.com"));
    db.groups.push(group(2, "dev", vec![3]));
    db.normalize();
    assert_eq!(db.bookmarks[0].id, 3);
    assert_eq!(db.bookmarks[1].id, 0);
    assert_eq!(db.groups[0].id, 2);
    db.normalize();
    assert_eq!(db.bookmarks[0].name, "alpha");
    assert_eq!(db.bookmarks[1].name, "beta");
}

#[test]
fn mutation_error_message_is_distinct() {
    assert_eq!(MutationError::InvalidLink.message(), "The provided link isn't a valid link");
}

#[test]
fn db_path_joins_config_dir() {
    assert_eq!(get_db_path("/home/u/.config/tigris-bookmarks"), "/home/u/.config/tigris-bookmarks/db.json");
}

#[test]
fn favicons_dir_joins_config_dir() {
    assert_eq!(get_favicons_dir("/cfg"), "/cfg/favicons");
}

#[test]
fn favicon_path_names_the_image() {
    assert_eq!(get_favicon_path("/cfg", "7"), "/cfg/favicons/7.png");
}

#[test]
fn favicon_target_strips_schemes() {
    assert_eq!(favicon_target("https://docs.example.com"), "docs.example.com");
    assert_eq!(favicon_target("http://a.example.com/x"), "a.example.com/x");
    assert_eq!(favicon_target("docs.example.com"), "docs.example.com");
}

#[test]
fn favicon_url_queries_the_service() {
    assert_eq!(
        favicon_url("https://docs.example.com"),
        "https://favicon.is/docs.example.com?larger=true"
    );
}
