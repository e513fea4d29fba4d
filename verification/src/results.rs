use vstd::prelude::*;
use vstd::string::StrSliceExecFns;
use vstd::string::StringExecFns;
use crate::bookmarks::{Bookmark, BookmarkView, BookmarksDB, BookmarksDBView, Group, GroupView};
use crate::matcher::fuzzy_match;

verus! {

// ---------------------------------------------------------------------------
// The query router
// ---------------------------------------------------------------------------

/// Raw input split into an optional recognized keyword and the residual
/// search text.
pub struct SearchQuery {
    pub keyword: Option<String>,
    pub search_text: String,
}

/// How raw input splits: a leading `edit ` or `e ` token is the edit keyword
/// and the remainder is the search text; any other input is search text
/// whole.
pub open spec fn spec_route(input: Seq<char>) -> (Option<Seq<char>>, Seq<char>) {
    if input.len() >= 5 && input.take(5) == "edit "@ {
        (Some("edit"@), input.skip(5))
    } else if input.len() >= 2 && input.take(2) == "e "@ {
        (Some("e"@), input.skip(2))
    } else {
        (None, input)
    }
}

fn str_starts_with(s: &str, prefix: &str) -> (r: bool)
    ensures
        r == (s@.len() >= prefix@.len() && s@.take(prefix@.len() as int) == prefix@),
{
    let slen = s.unicode_len();
    let plen = prefix.unicode_len();
    if slen < plen {
        return false;
    }
    let mut j: usize = 0;
    while j < plen
        invariant
            0 <= j <= plen,
            plen == prefix@.len(),
            slen == s@.len(),
            plen <= slen,
            forall|k: int| 0 <= k < j ==> s@[k] == prefix@[k],
        decreases plen - j,
    {
        if s.get_char(j) != prefix.get_char(j) {
            proof {
                if s@.take(prefix@.len() as int) == prefix@ {
                    assert(s@.take(prefix@.len() as int)[j as int] == prefix@[j as int]);
                    assert(s@.take(prefix@.len() as int)[j as int] == s@[j as int]);
                }
            }
            return false;
        }
        j += 1;
    }
    proof {
        assert(s@.take(prefix@.len() as int) =~= prefix@);
    }
    true
}

/// Splits raw input into the optional edit keyword and the residual search
/// text.
pub fn route(raw_input: &str) -> (r: SearchQuery)
    ensures
        r.search_text@ == spec_route(raw_input@).1,
        r.keyword matches Some(k) ==> spec_route(raw_input@).0 == Some(k@),
        r.keyword is None ==> spec_route(raw_input@).0 is None,
{
    proof {
        reveal_strlit("edit ");
        reveal_strlit("edit");
        reveal_strlit("e ");
        reveal_strlit("e");
    }
    let slen = s_len(raw_input);
    if str_starts_with(raw_input, "edit ") {
        let rest = raw_input.substring_char(5, slen);
        SearchQuery { keyword: Some(String::from_str("edit")), search_text: rest.to_owned() }
    } else if str_starts_with(raw_input, "e ") {
        let rest = raw_input.substring_char(2, slen);
        SearchQuery { keyword: Some(String::from_str("e")), search_text: rest.to_owned() }
    } else {
        SearchQuery { keyword: None, search_text: raw_input.to_owned() }
    }
}

fn s_len(s: &str) -> (r: usize)
    ensures
        r == s@.len(),
{
    s.unicode_len()
}

// ---------------------------------------------------------------------------
// The result set
// ---------------------------------------------------------------------------

/// One entry of the answer to a "get results" request, in the order the host
/// must show them.  The menu entries carry no record; the record entries
/// carry the record whose current field values pre-fill the form or feed the
/// action.
pub enum SearchItem {
    MenuAddBookmark,
    MenuAddGroup,
    MenuDeleteBookmark,
    MenuDeleteGroup,
    EditBookmark(Bookmark),
    EditGroup(Group),
    OpenBookmark(Bookmark),
    OpenGroup(Group),
}

/// The mathematical value of a [`SearchItem`].
pub ghost enum SearchItemView {
    MenuAddBookmark,
    MenuAddGroup,
    MenuDeleteBookmark,
    MenuDeleteGroup,
    EditBookmark(BookmarkView),
    EditGroup(GroupView),
    OpenBookmark(BookmarkView),
    OpenGroup(GroupView),
}

impl View for SearchItem {
    type V = SearchItemView;

    open spec fn view(&self) -> SearchItemView {
        match self {
            SearchItem::MenuAddBookmark => SearchItemView::MenuAddBookmark,
            SearchItem::MenuAddGroup => SearchItemView::MenuAddGroup,
            SearchItem::MenuDeleteBookmark => SearchItemView::MenuDeleteBookmark,
            SearchItem::MenuDeleteGroup => SearchItemView::MenuDeleteGroup,
            SearchItem::EditBookmark(b) => SearchItemView::EditBookmark(b@),
            SearchItem::EditGroup(g) => SearchItemView::EditGroup(g@),
            SearchItem::OpenBookmark(b) => SearchItemView::OpenBookmark(b@),
            SearchItem::OpenGroup(g) => SearchItemView::OpenGroup(g@),
        }
    }
}

pub open spec fn views_of_items(v: Seq<SearchItem>) -> Seq<SearchItemView> {
    v.map_values(|it: SearchItem| it@)
}

/// The fixed menu for empty search text: "Add Bookmark" always; "Add Group"
/// and "Delete a Bookmark" only when a bookmark exists; "Delete Group" only
/// when a group exists.
pub open spec fn menu_items(db: BookmarksDBView) -> Seq<SearchItemView> {
    seq![SearchItemView::MenuAddBookmark] + (if db.bookmarks.len() > 0 {
        seq![SearchItemView::MenuAddGroup, SearchItemView::MenuDeleteBookmark]
    } else {
        Seq::<SearchItemView>::empty()
    }) + (if db.groups.len() > 0 {
        seq![SearchItemView::MenuDeleteGroup]
    } else {
        Seq::<SearchItemView>::empty()
    })
}

/// The bookmarks whose name fuzzy-matches the search text, in collection
/// order.
pub open spec fn matching_bookmarks(bookmarks: Seq<BookmarkView>, text: Seq<char>) -> Seq<
    BookmarkView,
> {
    bookmarks.filter(|b: BookmarkView| fuzzy_match(b.name, text))
}

/// The groups whose name fuzzy-matches the search text, in collection order.
pub open spec fn matching_groups(groups: Seq<GroupView>, text: Seq<char>) -> Seq<GroupView> {
    groups.filter(|g: GroupView| fuzzy_match(g.name, text))
}

/// The edit-mode answer: an edit form for every matching bookmark, then one
/// for every matching group.
pub open spec fn edit_items(db: BookmarksDBView, text: Seq<char>) -> Seq<SearchItemView> {
    matching_bookmarks(db.bookmarks, text).map_values(
        |b: BookmarkView| SearchItemView::EditBookmark(b),
    ) + matching_groups(db.groups, text).map_values(
        |g: GroupView| SearchItemView::EditGroup(g),
    )
}

/// The plain-search answer: an open-link result for every matching bookmark,
/// then an open-group result for every matching group.
pub open spec fn open_items(db: BookmarksDBView, text: Seq<char>) -> Seq<SearchItemView> {
    matching_bookmarks(db.bookmarks, text).map_values(
        |b: BookmarkView| SearchItemView::OpenBookmark(b),
    ) + matching_groups(db.groups, text).map_values(
        |g: GroupView| SearchItemView::OpenGroup(g),
    )
}

/// The whole answer to a "get results" request: the menu on empty search
/// text, edit forms under the edit keyword, open results otherwise.
pub open spec fn spec_search(db: BookmarksDBView, input: Seq<char>) -> Seq<SearchItemView> {
    let kw = spec_route(input).0;
    let text = spec_route(input).1;
    if text.len() == 0 {
        menu_items(db)
    } else if kw is Some {
        edit_items(db, text)
    } else {
        open_items(db, text)
    }
}

proof fn lemma_matching_bookmarks_push(s: Seq<BookmarkView>, x: BookmarkView, text: Seq<char>)
    ensures
        fuzzy_match(x.name, text) ==> matching_bookmarks(s.push(x), text) == matching_bookmarks(
            s,
            text,
        ).push(x),
        !fuzzy_match(x.name, text) ==> matching_bookmarks(s.push(x), text) == matching_bookmarks(
            s,
            text,
        ),
{
    reveal(Seq::filter);
    assert(s.push(x).drop_last() =~= s);
    assert(s.push(x).last() == x);
}

proof fn lemma_matching_groups_push(s: Seq<GroupView>, x: GroupView, text: Seq<char>)
    ensures
        fuzzy_match(x.name, text) ==> matching_groups(s.push(x), text) == matching_groups(
            s,
            text,
        ).push(x),
        !fuzzy_match(x.name, text) ==> matching_groups(s.push(x), text) == matching_groups(
            s,
            text,
        ),
{
    reveal(Seq::filter);
    assert(s.push(x).drop_last() =~= s);
    assert(s.push(x).last() == x);
}

fn matching_bookmark_vec(bookmarks: &Vec<Bookmark>, text: &str) -> (r: Vec<Bookmark>)
    ensures
        crate::bookmarks::views_of_bookmarks(r@) == matching_bookmarks(
            crate::bookmarks::views_of_bookmarks(bookmarks@),
            text@,
        ),
{
    let mut r: Vec<Bookmark> = Vec::new();
    let mut i: usize = 0;
    proof {
        let bs = crate::bookmarks::views_of_bookmarks(bookmarks@);
        assert(bs.take(0) =~= Seq::<BookmarkView>::empty());
        assert(crate::bookmarks::views_of_bookmarks(r@) =~= Seq::<BookmarkView>::empty());
        reveal(Seq::filter);
    }
    while i < bookmarks.len()
        invariant
            0 <= i <= bookmarks@.len(),
            crate::bookmarks::views_of_bookmarks(r@) == matching_bookmarks(
                crate::bookmarks::views_of_bookmarks(bookmarks@).take(i as int),
                text@,
            ),
        decreases bookmarks@.len() - i,
    {
        proof {
            let bs = crate::bookmarks::views_of_bookmarks(bookmarks@);
            assert(bs.take(i as int + 1) =~= bs.take(i as int).push(bookmarks@[i as int]@));
            lemma_matching_bookmarks_push(bs.take(i as int), bookmarks@[i as int]@, text@);
        }
        if crate::matcher::matches(bookmarks[i].name.as_str(), text) {
            let b = bookmarks[i].duplicate();
            let ghost pre = r@;
            r.push(b);
            proof {
                assert(crate::bookmarks::views_of_bookmarks(pre.push(b))
                    =~= crate::bookmarks::views_of_bookmarks(pre).push(b@));
            }
        }
        i += 1;
    }
    proof {
        let bs = crate::bookmarks::views_of_bookmarks(bookmarks@);
        assert(bs.take(bookmarks@.len() as int) =~= bs);
    }
    r
}

fn matching_group_vec(groups: &Vec<Group>, text: &str) -> (r: Vec<Group>)
    ensures
        crate::bookmarks::views_of_groups(r@) == matching_groups(
            crate::bookmarks::views_of_groups(groups@),
            text@,
        ),
{
    let mut r: Vec<Group> = Vec::new();
    let mut i: usize = 0;
    proof {
        let gs = crate::bookmarks::views_of_groups(groups@);
        assert(gs.take(0) =~= Seq::<GroupView>::empty());
        assert(crate::bookmarks::views_of_groups(r@) =~= Seq::<GroupView>::empty());
        reveal(Seq::filter);
    }
    while i < groups.len()
        invariant
            0 <= i <= groups@.len(),
            crate::bookmarks::views_of_groups(r@) == matching_groups(
                crate::bookmarks::views_of_groups(groups@).take(i as int),
                text@,
            ),
        decreases groups@.len() - i,
    {
        proof {
            let gs = crate::bookmarks::views_of_groups(groups@);
            assert(gs.take(i as int + 1) =~= gs.take(i as int).push(groups@[i as int]@));
            lemma_matching_groups_push(gs.take(i as int), groups@[i as int]@, text@);
        }
        if crate::matcher::matches(groups[i].name.as_str(), text) {
            let g = groups[i].duplicate();
            let ghost pre = r@;
            r.push(g);
            proof {
                assert(crate::bookmarks::views_of_groups(pre.push(g))
                    =~= crate::bookmarks::views_of_groups(pre).push(g@));
            }
        }
        i += 1;
    }
    proof {
        let gs = crate::bookmarks::views_of_groups(groups@);
        assert(gs.take(groups@.len() as int) =~= gs);
    }
    r
}

/// Answers a "get results" request: the ordered result entries for the raw
/// input text over the current collection.
pub fn search_results(db: &BookmarksDB, raw_input: &str) -> (r: Vec<SearchItem>)
    ensures
        views_of_items(r@) == spec_search(db@, raw_input@),
{
    let query = route(raw_input);
    let mut r: Vec<SearchItem> = Vec::new();
    if query.search_text.as_str().unicode_len() == 0 {
        r.push(SearchItem::MenuAddBookmark);
        if db.bookmarks.len() > 0 {
            r.push(SearchItem::MenuAddGroup);
            r.push(SearchItem::MenuDeleteBookmark);
        }
        if db.groups.len() > 0 {
            r.push(SearchItem::MenuDeleteGroup);
        }
        proof {
            assert(views_of_items(r@) =~= menu_items(db@));
        }
        return r;
    }
    let text = query.search_text.as_str();
    let is_edit = query.keyword.is_some();
    let matched_bookmarks = matching_bookmark_vec(&db.bookmarks, text);
    let matched_groups = matching_group_vec(&db.groups, text);
    let mut i: usize = 0;
    while i < matched_bookmarks.len()
        invariant
            0 <= i <= matched_bookmarks@.len(),
            r@.len() == i,
            forall|j: int|
                0 <= j < i ==> r@[j]@ == (if is_edit {
                    SearchItemView::EditBookmark(matched_bookmarks@[j]@)
                } else {
                    SearchItemView::OpenBookmark(matched_bookmarks@[j]@)
                }),
        decreases matched_bookmarks@.len() - i,
    {
        let b = matched_bookmarks[i].duplicate();
        if is_edit {
            r.push(SearchItem::EditBookmark(b));
        } else {
            r.push(SearchItem::OpenBookmark(b));
        }
        i += 1;
    }
    let mut k: usize = 0;
    while k < matched_groups.len()
        invariant
            0 <= k <= matched_groups@.len(),
            r@.len() == matched_bookmarks@.len() + k,
            forall|j: int|
                0 <= j < matched_bookmarks@.len() ==> r@[j]@ == (if is_edit {
                    SearchItemView::EditBookmark(matched_bookmarks@[j]@)
                } else {
                    SearchItemView::OpenBookmark(matched_bookmarks@[j]@)
                }),
            forall|j: int|
                0 <= j < k ==> r@[matched_bookmarks@.len() + j]@ == (if is_edit {
                    SearchItemView::EditGroup(matched_groups@[j]@)
                } else {
                    SearchItemView::OpenGroup(matched_groups@[j]@)
                }),
        decreases matched_groups@.len() - k,
    {
        let g = matched_groups[k].duplicate();
        if is_edit {
            r.push(SearchItem::EditGroup(g));
        } else {
            r.push(SearchItem::OpenGroup(g));
        }
        k += 1;
    }
    proof {
        assert(views_of_items(r@) =~= spec_search(db@, raw_input@));
    }
    r
}

} // verus!
