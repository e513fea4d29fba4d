use vstd::prelude::*;
use vstd::string::StrSliceExecFns;
use vstd::string::StringExecFns;
use crate::bookmarks::{
    Bookmark, BookmarkView, BookmarksDB, Group, GroupView, bookmark_ids_of,
    distinct_bookmark_ids, distinct_group_ids, group_ids_of, lemma_next_id_fresh, spec_next_id,
    views_of_bookmarks, views_of_groups,
};

verus! {

// ---------------------------------------------------------------------------
// Link validation
// ---------------------------------------------------------------------------

/// What `regex::Regex::new` decides for a pattern: whether it compiles.  It
/// depends on the pattern alone.
pub uninterp spec fn regex_compiles(pattern: Seq<char>) -> bool;

/// What `regex::Regex::is_match` answers for a compiled pattern and a text.
/// It depends on the pattern and the text alone.
pub uninterp spec fn regex_match(pattern: Seq<char>, text: Seq<char>) -> bool;

/// The URL shape a bookmark link must have: scheme and host, with an optional
/// path and query.
pub open spec fn url_pattern() -> Seq<char> {
    r"https?:\/\/(www\.)?[-a-zA-Z0-9@:%._\+~#=]{1,256}\.[a-zA-Z0-9()]{1,6}\b([-a-zA-Z0-9()@:%_\+.~#?&//=]*)"@
}

/// A link is accepted exactly when the URL pattern matches it.
pub open spec fn link_ok(link: Seq<char>) -> bool {
    regex_compiles(url_pattern()) && regex_match(url_pattern(), link)
}

/// Relies on `regex::Regex::new` — whether a pattern compiles depends on the
/// pattern alone — and on `regex::Regex::is_match` — whether a compiled
/// pattern matches a text depends on the pattern and the text alone.
#[verifier::external_body]
fn regex_is_match(pattern: &str, text: &str) -> (r: Option<bool>)
    ensures
        r is Some <==> regex_compiles(pattern@),
        r matches Some(m) ==> m == regex_match(pattern@, text@),
{
    match regex::Regex::new(pattern) {
        Ok(re) => Some(re.is_match(text)),
        Err(_) => None,
    }
}

/// Whether `link` has the URL shape that the mutation pipeline accepts.
pub fn is_valid_link(link: &str) -> (r: bool)
    ensures
        r == link_ok(link@),
{
    let checked = regex_is_match(
        r"https?:\/\/(www\.)?[-a-zA-Z0-9@:%._\+~#=]{1,256}\.[a-zA-Z0-9()]{1,6}\b([-a-zA-Z0-9()@:%_\+.~#?&//=]*)",
        link,
    );
    match checked {
        Some(m) => m,
        None => false,
    }
}

/// The one validation failure: a link that does not have the URL shape.
#[derive(Clone, Copy, Debug, PartialEq, Eq, Structural)]
pub enum MutationError {
    InvalidLink,
}

impl MutationError {
    /// The user-visible description of the failure.
    pub fn message(&self) -> (r: &'static str)
        ensures
            r@ == "The provided link isn't a valid link"@,
    {
        "The provided link isn't a valid link"
    }
}

// ---------------------------------------------------------------------------
// Favicon side-job strings
// ---------------------------------------------------------------------------

/// Every non-overlapping occurrence of `pat` in `s`, found left to right,
/// removed.
pub open spec fn remove_all(s: Seq<char>, pat: Seq<char>) -> Seq<char>
    decreases s.len(),
{
    if pat.len() == 0 || s.len() < pat.len() {
        s
    } else if s.take(pat.len() as int) == pat {
        remove_all(s.skip(pat.len() as int), pat)
    } else {
        seq![s[0]] + remove_all(s.skip(1), pat)
    }
}

/// Relies on `String::push`: appends the given character to the end of the
/// string.
#[verifier::external_body]
fn push_char(s: &mut String, c: char)
    ensures
        final(s)@ == old(s)@.push(c),
{
    s.push(c);
}

fn str_eq_at(s: &str, i: usize, pat: &str) -> (r: bool)
    requires
        i as int + pat@.len() <= s@.len(),
        s@.len() <= usize::MAX as int,
    ensures
        r == (s@.skip(i as int).take(pat@.len() as int) == pat@),
{
    let plen = pat.unicode_len();
    let mut j: usize = 0;
    while j < plen
        invariant
            0 <= j <= plen,
            plen == pat@.len(),
            i as int + plen <= s@.len(),
            s@.len() <= usize::MAX as int,
            forall|k: int| 0 <= k < j ==> s@[i as int + k] == pat@[k],
        decreases plen - j,
    {
        if s.get_char(i + j) != pat.get_char(j) {
            proof {
                if s@.skip(i as int).take(pat@.len() as int) == pat@ {
                    assert(s@.skip(i as int).take(pat@.len() as int)[j as int] == pat@[j as int]);
                    assert(s@.skip(i as int).take(pat@.len() as int)[j as int] == s@[i as int
                        + j as int]);
                }
            }
            return false;
        }
        j += 1;
    }
    proof {
        assert(s@.skip(i as int).take(pat@.len() as int) =~= pat@);
    }
    true
}

fn remove_occurrences(s: &str, pat: &str) -> (r: String)
    ensures
        r@ == remove_all(s@, pat@),
{
    let slen = s.unicode_len();
    let plen = pat.unicode_len();
    if plen == 0 {
        return String::from_str(s);
    }
    let mut r = String::new();
    let mut i: usize = 0;
    proof {
        assert(s@.skip(0) =~= s@);
        assert(r@ + remove_all(s@, pat@) =~= remove_all(s@, pat@));
    }
    while i < slen
        invariant
            0 <= i <= slen,
            slen == s@.len(),
            plen == pat@.len(),
            plen > 0,
            remove_all(s@, pat@) == r@ + remove_all(s@.skip(i as int), pat@),
        decreases slen - i,
    {
        let matched = if slen - i >= plen {
            str_eq_at(s, i, pat)
        } else {
            false
        };
        if matched {
            proof {
                assert(s@.skip(i as int).skip(plen as int) =~= s@.skip(i as int + plen as int));
            }
            i += plen;
        } else {
            let c = s.get_char(i);
            proof {
                let rest = s@.skip(i as int);
                assert(rest[0] == s@[i as int]);
                assert(rest.skip(1) =~= s@.skip(i as int + 1));
                if rest.len() < plen {
                    assert(rest =~= seq![s@[i as int]] + s@.skip(i as int + 1));
                    assert(s@.skip(i as int + 1) =~= s@.skip(i as int + 1).take(
                        s@.skip(i as int + 1).len() as int,
                    ));
                    assert(remove_all(s@.skip(i as int + 1), pat@) == s@.skip(i as int + 1));
                }
                assert(r@.push(s@[i as int]) =~= r@ + seq![s@[i as int]]);
                assert((r@ + seq![s@[i as int]]) + remove_all(s@.skip(i as int + 1), pat@) =~= r@
                    + (seq![s@[i as int]] + remove_all(s@.skip(i as int + 1), pat@)));
            }
            push_char(&mut r, c);
            i += 1;
        }
    }
    proof {
        assert(s@.skip(slen as int) =~= Seq::<char>::empty());
        assert(r@ + Seq::<char>::empty() =~= r@);
    }
    r
}

/// The bookmark's link with its scheme stripped: first every `https://`, then
/// every `http://` occurrence is removed.  This is what the favicon service is
/// queried with.
pub open spec fn spec_favicon_target(link: Seq<char>) -> Seq<char> {
    remove_all(remove_all(link, "https://"@), "http://"@)
}

/// The bookmark's link stripped of its scheme.
pub fn favicon_target(link: &str) -> (r: String)
    ensures
        r@ == spec_favicon_target(link@),
{
    let first = remove_occurrences(link, "https://");
    remove_occurrences(first.as_str(), "http://")
}

/// The favicon-lookup service address for a link.
pub fn favicon_url(link: &str) -> (r: String)
    ensures
        r@ == "https://favicon.is/"@ + spec_favicon_target(link@) + "?larger=true"@,
{
    let mut r = String::from_str("https://favicon.is/");
    let target = favicon_target(link);
    r.append(target.as_str());
    r.append("?larger=true");
    r
}

// ---------------------------------------------------------------------------
// The mutations
// ---------------------------------------------------------------------------

/// The bookmarks with the one carrying `id` removed.
pub open spec fn without_bookmark(bookmarks: Seq<BookmarkView>, id: usize) -> Seq<BookmarkView> {
    bookmarks.filter(|b: BookmarkView| b.id != id)
}

/// The references with every occurrence of `id` removed.
pub open spec fn without_ref(ids: Seq<usize>, id: usize) -> Seq<usize> {
    ids.filter(|x: usize| x != id)
}

/// The group with every reference to bookmark `id` removed.
pub open spec fn cascade_group(g: GroupView, id: usize) -> GroupView {
    GroupView { id: g.id, name: g.name, bookmark_ids: without_ref(g.bookmark_ids, id) }
}

/// Every group with its references to bookmark `id` removed.
pub open spec fn cascade_groups(groups: Seq<GroupView>, id: usize) -> Seq<GroupView> {
    groups.map_values(|g: GroupView| cascade_group(g, id))
}

/// The groups with the one carrying `id` removed.
pub open spec fn without_group(groups: Seq<GroupView>, id: usize) -> Seq<GroupView> {
    groups.filter(|g: GroupView| g.id != id)
}

/// The bookmarks with the one carrying `id` renamed and relinked in place.
pub open spec fn with_bookmark_edited(
    bookmarks: Seq<BookmarkView>,
    id: usize,
    name: Seq<char>,
    link: Seq<char>,
) -> Seq<BookmarkView> {
    bookmarks.map_values(
        |b: BookmarkView|
            if b.id == id {
                BookmarkView { id: b.id, name: name, link: link }
            } else {
                b
            },
    )
}

/// The groups with the one carrying `id` given a new name and a wholly new
/// membership.
pub open spec fn with_group_edited(
    groups: Seq<GroupView>,
    id: usize,
    name: Seq<char>,
    bookmark_ids: Seq<usize>,
) -> Seq<GroupView> {
    groups.map_values(
        |g: GroupView|
            if g.id == id {
                GroupView { id: g.id, name: name, bookmark_ids: bookmark_ids }
            } else {
                g
            },
    )
}

proof fn lemma_without_bookmark_push(s: Seq<BookmarkView>, x: BookmarkView, id: usize)
    ensures
        x.id != id ==> without_bookmark(s.push(x), id) == without_bookmark(s, id).push(x),
        x.id == id ==> without_bookmark(s.push(x), id) == without_bookmark(s, id),
{
    reveal(Seq::filter);
    assert(s.push(x).drop_last() =~= s);
    assert(s.push(x).last() == x);
}

proof fn lemma_without_ref_push(s: Seq<usize>, x: usize, id: usize)
    ensures
        x != id ==> without_ref(s.push(x), id) == without_ref(s, id).push(x),
        x == id ==> without_ref(s.push(x), id) == without_ref(s, id),
{
    reveal(Seq::filter);
    assert(s.push(x).drop_last() =~= s);
    assert(s.push(x).last() == x);
}

proof fn lemma_without_group_push(s: Seq<GroupView>, x: GroupView, id: usize)
    ensures
        x.id != id ==> without_group(s.push(x), id) == without_group(s, id).push(x),
        x.id == id ==> without_group(s.push(x), id) == without_group(s, id),
{
    reveal(Seq::filter);
    assert(s.push(x).drop_last() =~= s);
    assert(s.push(x).last() == x);
}

proof fn lemma_without_bookmark_distinct(s: Seq<BookmarkView>, id: usize)
    requires
        distinct_bookmark_ids(s),
    ensures
        distinct_bookmark_ids(without_bookmark(s, id)),
    decreases s.len(),
{
    broadcast use vstd::prelude::Seq::lemma_filter_contains_rev;

    if s.len() > 0 {
        let pre = s.drop_last();
        assert(distinct_bookmark_ids(pre));
        lemma_without_bookmark_distinct(pre, id);
        lemma_without_bookmark_push(pre, s.last(), id);
        assert(pre.push(s.last()) =~= s);
        let f = without_bookmark(s, id);
        let fp = without_bookmark(pre, id);
        if s.last().id != id {
            assert(f == fp.push(s.last()));
            assert forall|i: int, j: int| 0 <= i < j < f.len() implies f[i].id != f[j].id by {
                if j == f.len() - 1 {
                    let y = f[i];
                    assert(fp.contains(y));
                    assert(pre.contains(y));
                    let k = choose|k: int| 0 <= k < pre.len() && pre[k] == y;
                    assert(s[k] == y);
                    assert(s[k].id != s[s.len() - 1].id);
                } else {
                    assert(f[i] == fp[i] && f[j] == fp[j]);
                }
            }
        }
    }
}

proof fn lemma_without_group_distinct(s: Seq<GroupView>, id: usize)
    requires
        distinct_group_ids(s),
    ensures
        distinct_group_ids(without_group(s, id)),
    decreases s.len(),
{
    broadcast use vstd::prelude::Seq::lemma_filter_contains_rev;

    if s.len() > 0 {
        let pre = s.drop_last();
        assert(distinct_group_ids(pre));
        lemma_without_group_distinct(pre, id);
        lemma_without_group_push(pre, s.last(), id);
        assert(pre.push(s.last()) =~= s);
        let f = without_group(s, id);
        let fp = without_group(pre, id);
        if s.last().id != id {
            assert(f == fp.push(s.last()));
            assert forall|i: int, j: int| 0 <= i < j < f.len() implies f[i].id != f[j].id by {
                if j == f.len() - 1 {
                    let y = f[i];
                    assert(fp.contains(y));
                    assert(pre.contains(y));
                    let k = choose|k: int| 0 <= k < pre.len() && pre[k] == y;
                    assert(s[k] == y);
                    assert(s[k].id != s[s.len() - 1].id);
                } else {
                    assert(f[i] == fp[i] && f[j] == fp[j]);
                }
            }
        }
    }
}

fn filter_bookmarks_without(v: &Vec<Bookmark>, id: usize) -> (r: Vec<Bookmark>)
    ensures
        views_of_bookmarks(r@) == without_bookmark(views_of_bookmarks(v@), id),
{
    let mut r: Vec<Bookmark> = Vec::new();
    let mut i: usize = 0;
    proof {
        assert(views_of_bookmarks(v@).take(0) =~= Seq::<BookmarkView>::empty());
        assert(views_of_bookmarks(r@) =~= Seq::<BookmarkView>::empty());
        reveal(Seq::filter);
    }
    while i < v.len()
        invariant
            0 <= i <= v@.len(),
            views_of_bookmarks(r@) == without_bookmark(
                views_of_bookmarks(v@).take(i as int),
                id,
            ),
        decreases v@.len() - i,
    {
        proof {
            let vs = views_of_bookmarks(v@);
            assert(vs.take(i as int + 1) =~= vs.take(i as int).push(v@[i as int]@));
            lemma_without_bookmark_push(vs.take(i as int), v@[i as int]@, id);
        }
        if v[i].id != id {
            let b = v[i].duplicate();
            let ghost pre = r@;
            r.push(b);
            proof {
                assert(views_of_bookmarks(pre.push(b)) =~= views_of_bookmarks(pre).push(b@));
            }
        }
        i += 1;
    }
    proof {
        assert(views_of_bookmarks(v@).take(v@.len() as int) =~= views_of_bookmarks(v@));
    }
    r
}

fn filter_ids_without(v: &Vec<usize>, id: usize) -> (r: Vec<usize>)
    ensures
        r@ == without_ref(v@, id),
{
    let mut r: Vec<usize> = Vec::new();
    let mut i: usize = 0;
    proof {
        assert(v@.take(0) =~= Seq::<usize>::empty());
        reveal(Seq::filter);
    }
    while i < v.len()
        invariant
            0 <= i <= v@.len(),
            r@ == without_ref(v@.take(i as int), id),
        decreases v@.len() - i,
    {
        proof {
            assert(v@.take(i as int + 1) =~= v@.take(i as int).push(v@[i as int]));
            lemma_without_ref_push(v@.take(i as int), v@[i as int], id);
        }
        if v[i] != id {
            r.push(v[i]);
        }
        i += 1;
    }
    proof {
        assert(v@.take(v@.len() as int) =~= v@);
    }
    r
}

fn filter_groups_without(v: &Vec<Group>, id: usize) -> (r: Vec<Group>)
    ensures
        views_of_groups(r@) == without_group(views_of_groups(v@), id),
{
    let mut r: Vec<Group> = Vec::new();
    let mut i: usize = 0;
    proof {
        assert(views_of_groups(v@).take(0) =~= Seq::<GroupView>::empty());
        assert(views_of_groups(r@) =~= Seq::<GroupView>::empty());
        reveal(Seq::filter);
    }
    while i < v.len()
        invariant
            0 <= i <= v@.len(),
            views_of_groups(r@) == without_group(views_of_groups(v@).take(i as int), id),
        decreases v@.len() - i,
    {
        proof {
            let vs = views_of_groups(v@);
            assert(vs.take(i as int + 1) =~= vs.take(i as int).push(v@[i as int]@));
            lemma_without_group_push(vs.take(i as int), v@[i as int]@, id);
        }
        if v[i].id != id {
            let g = v[i].duplicate();
            let ghost pre = r@;
            r.push(g);
            proof {
                assert(views_of_groups(pre.push(g)) =~= views_of_groups(pre).push(g@));
            }
        }
        i += 1;
    }
    proof {
        assert(views_of_groups(v@).take(v@.len() as int) =~= views_of_groups(v@));
    }
    r
}

fn cascade_groups_exec(v: &Vec<Group>, id: usize) -> (r: Vec<Group>)
    ensures
        views_of_groups(r@) == cascade_groups(views_of_groups(v@), id),
{
    let mut r: Vec<Group> = Vec::new();
    let mut i: usize = 0;
    while i < v.len()
        invariant
            0 <= i <= v@.len(),
            r@.len() == i,
            forall|j: int| 0 <= j < i ==> r@[j]@ == cascade_group(v@[j]@, id),
        decreases v@.len() - i,
    {
        let g = &v[i];
        let cleaned = Group {
            id: g.id,
            name: g.name.clone(),
            bookmark_ids: filter_ids_without(&g.bookmark_ids, id),
        };
        r.push(cleaned);
        i += 1;
    }
    proof {
        assert(views_of_groups(r@) =~= cascade_groups(views_of_groups(v@), id));
    }
    r
}

/// What the host must do about the cached favicon image after a mutation.
#[derive(Clone, Debug)]
pub enum FaviconJob {
    /// Fetch the favicon for `link` and cache it under the bookmark's `id`.
    /// Best effort: a failure leaves the bookmark added or edited all the
    /// same.
    Fetch { id: usize, link: String },
    /// Remove the cached favicon of the deleted bookmark, if one is cached.
    Remove { id: usize },
    /// No favicon work.
    Keep,
}

/// One named mutation, as the host's form submission describes it.
#[derive(Clone, Debug)]
pub enum Operation {
    AddBookmark { name: String, link: String },
    EditBookmark { id: usize, name: String, link: String },
    DeleteBookmark { id: usize },
    AddGroup { name: String, bookmark_ids: Vec<usize> },
    EditGroup { id: usize, name: String, bookmark_ids: Vec<usize> },
    DeleteGroup { id: usize },
}

impl BookmarksDB {
    /// Appends a bookmark named `name` pointing at `link`, under the next
    /// free identifier, which is returned.  A link without the URL shape is
    /// rejected before anything changes.
    pub fn add_bookmark(&mut self, name: &str, link: &str) -> (r: Result<usize, MutationError>)
        requires
            spec_next_id(bookmark_ids_of(old(self)@.bookmarks)) <= usize::MAX as int,
        ensures
            r is Ok <==> link_ok(link@),
            r matches Ok(id) ==> id as int == spec_next_id(bookmark_ids_of(old(self)@.bookmarks)),
            r matches Ok(id) ==> final(self)@.bookmarks == old(self)@.bookmarks.push(
                (BookmarkView { id: id, name: name@, link: link@ }),
            ),
            r is Ok ==> final(self)@.groups == old(self)@.groups,
            r is Err ==> final(self)@ == old(self)@ && r == Err::<usize, MutationError>(
                MutationError::InvalidLink,
            ),
            r is Ok && distinct_bookmark_ids(old(self)@.bookmarks) ==> distinct_bookmark_ids(
                final(self)@.bookmarks,
            ),
    {
        if !is_valid_link(link) {
            return Err(MutationError::InvalidLink);
        }
        let b = Bookmark::new(&*self, name, link);
        let id = b.id;
        let ghost pre = views_of_bookmarks(self.bookmarks@);
        self.bookmarks.push(b);
        proof {
            assert(views_of_bookmarks(self.bookmarks@) =~= pre.push(
                BookmarkView { id: id, name: name@, link: link@ },
            ));
            if distinct_bookmark_ids(pre) {
                lemma_next_id_fresh(bookmark_ids_of(pre), id);
                let post = pre.push(BookmarkView { id: id, name: name@, link: link@ });
                assert forall|p: int, q: int| 0 <= p < q < post.len() implies post[p].id
                    != post[q].id by {
                    if q == post.len() - 1 {
                        assert(bookmark_ids_of(pre)[p] == pre[p].id);
                    }
                }
            }
        }
        Ok(id)
    }

    /// Replaces the name and link of the bookmark carrying `id`, in place.
    /// A link without the URL shape is rejected before anything changes; a
    /// missing `id` changes nothing and still succeeds.
    pub fn edit_bookmark(&mut self, id: usize, name: &str, link: &str) -> (r: Result<
        (),
        MutationError,
    >)
        ensures
            r is Ok <==> link_ok(link@),
            r is Ok ==> final(self)@.bookmarks == with_bookmark_edited(
                old(self)@.bookmarks,
                id,
                name@,
                link@,
            ),
            r is Ok ==> final(self)@.groups == old(self)@.groups,
            r is Err ==> final(self)@ == old(self)@ && r == Err::<(), MutationError>(
                MutationError::InvalidLink,
            ),
            r is Ok && distinct_bookmark_ids(old(self)@.bookmarks) ==> distinct_bookmark_ids(
                final(self)@.bookmarks,
            ),
    {
        if !is_valid_link(link) {
            return Err(MutationError::InvalidLink);
        }
        let mut new_bookmarks: Vec<Bookmark> = Vec::new();
        let mut i: usize = 0;
        while i < self.bookmarks.len()
            invariant
                0 <= i <= self.bookmarks@.len(),
                new_bookmarks@.len() == i,
                forall|j: int|
                    0 <= j < i ==> new_bookmarks@[j]@ == (if self.bookmarks@[j]@.id == id {
                        BookmarkView { id: self.bookmarks@[j]@.id, name: name@, link: link@ }
                    } else {
                        self.bookmarks@[j]@
                    }),
            decreases self.bookmarks@.len() - i,
        {
            let b = &self.bookmarks[i];
            if b.id == id {
                new_bookmarks.push(
                    Bookmark { id: b.id, name: name.to_owned(), link: link.to_owned() },
                );
            } else {
                let copy = b.duplicate();
                new_bookmarks.push(copy);
            }
            i += 1;
        }
        proof {
            let bs = views_of_bookmarks(self.bookmarks@);
            let edited = with_bookmark_edited(bs, id, name@, link@);
            assert(views_of_bookmarks(new_bookmarks@) =~= edited);
            assert(forall|p: int| 0 <= p < bs.len() ==> edited[p].id == bs[p].id);
        }
        self.bookmarks = new_bookmarks;
        Ok(())
    }

    /// Removes the bookmark carrying `bookmark_id` — a missing identifier
    /// changes nothing — and removes every reference to it from every group,
    /// so that no group is left pointing at a bookmark that is gone.
    pub fn delete_bookmark(&mut self, bookmark_id: usize)
        ensures
            final(self)@.bookmarks == without_bookmark(old(self)@.bookmarks, bookmark_id),
            final(self)@.groups == cascade_groups(old(self)@.groups, bookmark_id),
            forall|i: int|
                0 <= i < final(self)@.bookmarks.len() ==> final(self)@.bookmarks[i].id
                    != bookmark_id,
            forall|i: int|
                0 <= i < final(self)@.groups.len() ==> !final(self)@.groups[i].bookmark_ids.contains(bookmark_id),
    {
        let new_bookmarks = filter_bookmarks_without(&self.bookmarks, bookmark_id);
        self.bookmarks = new_bookmarks;
        let new_groups = cascade_groups_exec(&self.groups, bookmark_id);
        self.groups = new_groups;
        proof {
            broadcast use vstd::seq_lib::group_filter_ensures;

            assert forall|i: int|
                0 <= i < self@.groups.len() implies !self@.groups[i].bookmark_ids.contains(
                bookmark_id,
            ) by {
                let cleaned = self@.groups[i].bookmark_ids;
                if cleaned.contains(bookmark_id) {
                    let j = choose|j: int|
                        0 <= j < cleaned.len() && cleaned[j] == bookmark_id;
                    assert(cleaned[j] != bookmark_id);
                }
            }
        }
    }

    /// Appends a group named `name` with exactly the given membership, under
    /// the next free group identifier, which is returned.  Membership is
    /// taken as given: it is not checked against the bookmarks that exist.
    pub fn add_group(&mut self, name: &str, bookmark_ids: &Vec<usize>) -> (r: usize)
        requires
            spec_next_id(group_ids_of(old(self)@.groups)) <= usize::MAX as int,
        ensures
            r as int == spec_next_id(group_ids_of(old(self)@.groups)),
            final(self)@.groups == old(self)@.groups.push(
                (GroupView { id: r, name: name@, bookmark_ids: bookmark_ids@ }),
            ),
            final(self)@.bookmarks == old(self)@.bookmarks,
            distinct_group_ids(old(self)@.groups) ==> distinct_group_ids(final(self)@.groups),
    {
        let g = Group::new(&*self, name, bookmark_ids);
        let id = g.id;
        let ghost pre = views_of_groups(self.groups@);
        self.groups.push(g);
        proof {
            assert(views_of_groups(self.groups@) =~= pre.push(
                GroupView { id: id, name: name@, bookmark_ids: bookmark_ids@ },
            ));
            if distinct_group_ids(pre) {
                lemma_next_id_fresh(group_ids_of(pre), id);
                let post = pre.push(GroupView { id: id, name: name@, bookmark_ids: bookmark_ids@ });
                assert forall|p: int, q: int| 0 <= p < q < post.len() implies post[p].id
                    != post[q].id by {
                    if q == post.len() - 1 {
                        assert(group_ids_of(pre)[p] == pre[p].id);
                    }
                }
            }
        }
        id
    }

    /// Replaces the name and the whole membership of the group carrying
    /// `id`, in place.  A missing `id` changes nothing and still succeeds.
    pub fn edit_group(&mut self, id: usize, name: &str, bookmark_ids: &Vec<usize>)
        ensures
            final(self)@.groups == with_group_edited(
                old(self)@.groups,
                id,
                name@,
                bookmark_ids@,
            ),
            final(self)@.bookmarks == old(self)@.bookmarks,
            distinct_group_ids(old(self)@.groups) ==> distinct_group_ids(final(self)@.groups),
    {
        let mut new_groups: Vec<Group> = Vec::new();
        let mut i: usize = 0;
        while i < self.groups.len()
            invariant
                0 <= i <= self.groups@.len(),
                new_groups@.len() == i,
                forall|j: int|
                    0 <= j < i ==> new_groups@[j]@ == (if self.groups@[j]@.id == id {
                        GroupView {
                            id: self.groups@[j]@.id,
                            name: name@,
                            bookmark_ids: bookmark_ids@,
                        }
                    } else {
                        self.groups@[j]@
                    }),
            decreases self.groups@.len() - i,
        {
            let g = &self.groups[i];
            if g.id == id {
                new_groups.push(
                    Group {
                        id: g.id,
                        name: name.to_owned(),
                        bookmark_ids: crate::bookmarks::clone_ids(bookmark_ids),
                    },
                );
            } else {
                let copy = g.duplicate();
                new_groups.push(copy);
            }
            i += 1;
        }
        proof {
            let gs = views_of_groups(self.groups@);
            let edited = with_group_edited(gs, id, name@, bookmark_ids@);
            assert(views_of_groups(new_groups@) =~= edited);
            assert(forall|p: int| 0 <= p < gs.len() ==> edited[p].id == gs[p].id);
        }
        self.groups = new_groups;
    }

    /// Removes the group carrying `group_id`.  A missing identifier changes
    /// nothing and still succeeds.
    pub fn delete_group(&mut self, group_id: usize)
        ensures
            final(self)@.groups == without_group(old(self)@.groups, group_id),
            final(self)@.bookmarks == old(self)@.bookmarks,
            forall|i: int|
                0 <= i < final(self)@.groups.len() ==> final(self)@.groups[i].id != group_id,
            distinct_group_ids(old(self)@.groups) ==> distinct_group_ids(final(self)@.groups),
    {
        proof {
            if distinct_group_ids(self@.groups) {
                lemma_without_group_distinct(self@.groups, group_id);
            }
        }
        let new_groups = filter_groups_without(&self.groups, group_id);
        self.groups = new_groups;
        proof {
            broadcast use vstd::seq_lib::group_filter_ensures;

        }
    }

    /// Applies one named operation atomically and reports the favicon job the
    /// host owes afterwards.  Exactly the add and edit of a bookmark can
    /// fail, and only on a link without the URL shape; a failure leaves the
    /// collection untouched.
    pub fn apply(&mut self, op: &Operation) -> (r: Result<FaviconJob, MutationError>)
        requires
            op matches Operation::AddBookmark { .. } ==> spec_next_id(
                bookmark_ids_of(old(self)@.bookmarks),
            ) <= usize::MAX as int,
            op matches Operation::AddGroup { .. } ==> spec_next_id(
                group_ids_of(old(self)@.groups),
            ) <= usize::MAX as int,
        ensures
            r is Err <==> (op matches Operation::AddBookmark { name, link } && !link_ok(link@))
                || (op matches Operation::EditBookmark { id, name, link } && !link_ok(link@)),
            r is Err ==> final(self)@ == old(self)@ && r == Err::<FaviconJob, MutationError>(
                MutationError::InvalidLink,
            ),
            op matches Operation::AddBookmark { name, link } ==> link_ok(link@) ==> final(self)@.bookmarks == old(self)@.bookmarks.push(
                (BookmarkView {
                    id: spec_next_id(bookmark_ids_of(old(self)@.bookmarks)) as usize,
                    name: name@,
                    link: link@,
                }),
            ) && final(self)@.groups == old(self)@.groups && (r matches Ok(j) && j matches
                FaviconJob::Fetch { id: jid, link: jlink } && jid as int == spec_next_id(
                bookmark_ids_of(old(self)@.bookmarks),
            ) && jlink@ == link@),
            op matches Operation::EditBookmark { id, name, link } ==> link_ok(link@) ==> final(self)@.bookmarks == with_bookmark_edited(old(self)@.bookmarks, *id, name@, link@) && final(self)@.groups == old(self)@.groups && (r matches Ok(j) && j matches FaviconJob::Fetch {
                id: jid,
                link: jlink,
            } && jid == *id && jlink@ == link@),
            op matches Operation::DeleteBookmark { id } ==> final(self)@.bookmarks
                == without_bookmark(old(self)@.bookmarks, *id) && final(self)@.groups
                == cascade_groups(old(self)@.groups, *id) && (r matches Ok(j) && j matches
                FaviconJob::Remove { id: jid } && jid == *id),
            op matches Operation::AddGroup { name, bookmark_ids } ==> final(self)@.groups == old(self)@.groups.push(
                (GroupView {
                    id: spec_next_id(group_ids_of(old(self)@.groups)) as usize,
                    name: name@,
                    bookmark_ids: bookmark_ids@,
                }),
            ) && final(self)@.bookmarks == old(self)@.bookmarks && (r matches Ok(j) && j matches
                FaviconJob::Keep),
            op matches Operation::EditGroup { id, name, bookmark_ids } ==> final(self)@.groups
                == with_group_edited(old(self)@.groups, *id, name@, bookmark_ids@) && final(self)@.bookmarks == old(self)@.bookmarks && (r matches Ok(j) && j matches FaviconJob::Keep),
            op matches Operation::DeleteGroup { id } ==> final(self)@.groups == without_group(
                old(self)@.groups,
                *id,
            ) && final(self)@.bookmarks == old(self)@.bookmarks && (r matches Ok(j) && j matches
                FaviconJob::Keep),
    {
        match op {
            Operation::AddBookmark { name, link } => {
                match self.add_bookmark(name.as_str(), link.as_str()) {
                    Ok(id) => Ok(FaviconJob::Fetch { id, link: link.clone() }),
                    Err(e) => Err(e),
                }
            },
            Operation::EditBookmark { id, name, link } => {
                match self.edit_bookmark(*id, name.as_str(), link.as_str()) {
                    Ok(_) => Ok(FaviconJob::Fetch { id: *id, link: link.clone() }),
                    Err(e) => Err(e),
                }
            },
            Operation::DeleteBookmark { id } => {
                self.delete_bookmark(*id);
                Ok(FaviconJob::Remove { id: *id })
            },
            Operation::AddGroup { name, bookmark_ids } => {
                self.add_group(name.as_str(), bookmark_ids);
                Ok(FaviconJob::Keep)
            },
            Operation::EditGroup { id, name, bookmark_ids } => {
                self.edit_group(*id, name.as_str(), bookmark_ids);
                Ok(FaviconJob::Keep)
            },
            Operation::DeleteGroup { id } => {
                self.delete_group(*id);
                Ok(FaviconJob::Keep)
            },
        }
    }
}

} // verus!
