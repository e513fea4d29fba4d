use vstd::prelude::*;

verus! {

/// A named link record.
#[derive(Clone, Debug)]
pub struct Bookmark {
    pub id: usize,
    pub name: String,
    pub link: String,
}

/// The mathematical value of a [`Bookmark`].
pub ghost struct BookmarkView {
    pub id: usize,
    pub name: Seq<char>,
    pub link: Seq<char>,
}

impl View for Bookmark {
    type V = BookmarkView;

    open spec fn view(&self) -> BookmarkView {
        BookmarkView { id: self.id, name: self.name@, link: self.link@ }
    }
}

/// A named set of references to bookmarks.  The references are identifiers,
/// not owned records, and the set may be empty.
#[derive(Clone, Debug)]
pub struct Group {
    pub id: usize,
    pub name: String,
    pub bookmark_ids: Vec<usize>,
}

/// The mathematical value of a [`Group`].
pub ghost struct GroupView {
    pub id: usize,
    pub name: Seq<char>,
    pub bookmark_ids: Seq<usize>,
}

impl View for Group {
    type V = GroupView;

    open spec fn view(&self) -> GroupView {
        GroupView { id: self.id, name: self.name@, bookmark_ids: self.bookmark_ids@ }
    }
}

/// The full persisted collection: every bookmark and every group.
#[derive(Clone, Debug)]
pub struct BookmarksDB {
    pub bookmarks: Vec<Bookmark>,
    pub groups: Vec<Group>,
}

/// The mathematical value of a [`BookmarksDB`].
pub ghost struct BookmarksDBView {
    pub bookmarks: Seq<BookmarkView>,
    pub groups: Seq<GroupView>,
}

pub open spec fn views_of_bookmarks(v: Seq<Bookmark>) -> Seq<BookmarkView> {
    v.map_values(|b: Bookmark| b@)
}

pub open spec fn views_of_groups(v: Seq<Group>) -> Seq<GroupView> {
    v.map_values(|g: Group| g@)
}

impl View for BookmarksDB {
    type V = BookmarksDBView;

    open spec fn view(&self) -> BookmarksDBView {
        BookmarksDBView {
            bookmarks: views_of_bookmarks(self.bookmarks@),
            groups: views_of_groups(self.groups@),
        }
    }
}

/// The identifiers of a sequence of bookmarks, in order.
pub open spec fn bookmark_ids_of(bookmarks: Seq<BookmarkView>) -> Seq<usize> {
    bookmarks.map_values(|b: BookmarkView| b.id)
}

/// The identifiers of a sequence of groups, in order.
pub open spec fn group_ids_of(groups: Seq<GroupView>) -> Seq<usize> {
    groups.map_values(|g: GroupView| g.id)
}

/// Bookmark identifiers are pairwise distinct across the collection.
pub open spec fn distinct_bookmark_ids(s: Seq<BookmarkView>) -> bool {
    forall|i: int, j: int| 0 <= i < j < s.len() ==> s[i].id != s[j].id
}

/// Group identifiers are pairwise distinct across the collection.
pub open spec fn distinct_group_ids(s: Seq<GroupView>) -> bool {
    forall|i: int, j: int| 0 <= i < j < s.len() ==> s[i].id != s[j].id
}

/// The largest identifier among `ids`, or `-1` when there is none.
pub open spec fn spec_max_id(ids: Seq<usize>) -> int
    decreases ids.len(),
{
    if ids.len() == 0 {
        -1
    } else if ids.last() as int > spec_max_id(ids.drop_last()) {
        ids.last() as int
    } else {
        spec_max_id(ids.drop_last())
    }
}

/// The identifier the store hands to the next record: one past the largest
/// existing identifier, or `0` when there is none.  Identifiers are never
/// reused after a deletion.
pub open spec fn spec_next_id(ids: Seq<usize>) -> int {
    spec_max_id(ids) + 1
}

proof fn lemma_max_id_ge(ids: Seq<usize>, i: int)
    requires
        0 <= i < ids.len(),
    ensures
        spec_max_id(ids) >= ids[i],
    decreases ids.len(),
{
    if i == ids.len() - 1 {
    } else {
        lemma_max_id_ge(ids.drop_last(), i);
    }
}

/// Allocation is monotone: the identifier handed out next never collides with
/// an existing one, and once a record with it is added, the following
/// allocation yields the identifier one past it.
pub proof fn lemma_next_id_fresh(ids: Seq<usize>, n: usize)
    requires
        n as int == spec_next_id(ids),
    ensures
        spec_next_id(ids.push(n)) == n + 1,
        forall|i: int| 0 <= i < ids.len() ==> ids[i] < n,
{
    assert(ids.push(n).drop_last() =~= ids);
    assert(ids.push(n).last() == n);
    assert forall|i: int| 0 <= i < ids.len() implies ids[i] < n by {
        lemma_max_id_ge(ids, i);
    }
}

/// Returns `max(existing_ids) + 1`, or `0` when `existing_ids` is empty.
/// Pure: reads nothing but its argument and changes nothing.
pub fn next_id(existing_ids: &Vec<usize>) -> (r: usize)
    requires
        spec_next_id(existing_ids@) <= usize::MAX as int,
    ensures
        r as int == spec_next_id(existing_ids@),
{
    if existing_ids.len() == 0 {
        return 0;
    }
    let mut max: usize = existing_ids[0];
    let mut i: usize = 1;
    proof {
        assert(existing_ids@.take(1).drop_last() =~= Seq::<usize>::empty());
        assert(spec_max_id(Seq::<usize>::empty()) == -1);
        assert(existing_ids@.take(1).last() == existing_ids@[0]);
        assert(spec_max_id(existing_ids@.take(1)) == existing_ids@[0] as int);
    }
    while i < existing_ids.len()
        invariant
            1 <= i <= existing_ids@.len(),
            max as int == spec_max_id(existing_ids@.take(i as int)),
        decreases existing_ids@.len() - i,
    {
        proof {
            assert(existing_ids@.take(i + 1).drop_last() =~= existing_ids@.take(i as int));
            assert(existing_ids@.take(i + 1).last() == existing_ids@[i as int]);
        }
        if existing_ids[i] > max {
            max = existing_ids[i];
        }
        i += 1;
    }
    proof {
        assert(existing_ids@.take(existing_ids@.len() as int) =~= existing_ids@);
    }
    max + 1
}

fn collect_bookmark_ids(bookmarks: &Vec<Bookmark>) -> (r: Vec<usize>)
    ensures
        r@ == bookmark_ids_of(views_of_bookmarks(bookmarks@)),
{
    let mut r: Vec<usize> = Vec::new();
    let mut i: usize = 0;
    while i < bookmarks.len()
        invariant
            0 <= i <= bookmarks@.len(),
            r@.len() == i,
            forall|j: int| 0 <= j < i ==> r@[j] == bookmarks@[j]@.id,
        decreases bookmarks@.len() - i,
    {
        r.push(bookmarks[i].id);
        i += 1;
    }
    proof {
        assert(r@ =~= bookmark_ids_of(views_of_bookmarks(bookmarks@)));
    }
    r
}

fn collect_group_ids(groups: &Vec<Group>) -> (r: Vec<usize>)
    ensures
        r@ == group_ids_of(views_of_groups(groups@)),
{
    let mut r: Vec<usize> = Vec::new();
    let mut i: usize = 0;
    while i < groups.len()
        invariant
            0 <= i <= groups@.len(),
            r@.len() == i,
            forall|j: int| 0 <= j < i ==> r@[j] == groups@[j]@.id,
        decreases groups@.len() - i,
    {
        r.push(groups[i].id);
        i += 1;
    }
    proof {
        assert(r@ =~= group_ids_of(views_of_groups(groups@)));
    }
    r
}

impl Bookmark {
    /// Creates a bookmark named `name` pointing at `link`, with the next free
    /// bookmark identifier of `db`.  The new record is not yet inserted.
    pub fn new(db: &BookmarksDB, name: &str, link: &str) -> (r: Bookmark)
        requires
            spec_next_id(bookmark_ids_of(db@.bookmarks)) <= usize::MAX as int,
        ensures
            r@.id as int == spec_next_id(bookmark_ids_of(db@.bookmarks)),
            r@.name == name@,
            r@.link == link@,
    {
        let ids = collect_bookmark_ids(&db.bookmarks);
        let id = next_id(&ids);
        Bookmark { id, name: name.to_owned(), link: link.to_owned() }
    }

    /// A copy whose mathematical value equals this record's.
    pub fn duplicate(&self) -> (r: Bookmark)
        ensures
            r@ == self@,
    {
        Bookmark { id: self.id, name: self.name.clone(), link: self.link.clone() }
    }
}

/// A copy of a membership list, value for value.
pub fn clone_ids(ids: &Vec<usize>) -> (r: Vec<usize>)
    ensures
        r@ == ids@,
{
    let mut r: Vec<usize> = Vec::new();
    let mut i: usize = 0;
    while i < ids.len()
        invariant
            0 <= i <= ids@.len(),
            r@ =~= ids@.take(i as int),
        decreases ids@.len() - i,
    {
        r.push(ids[i]);
        i += 1;
    }
    proof {
        assert(ids@.take(ids@.len() as int) =~= ids@);
    }
    r
}

impl Group {
    /// Creates a group named `name` holding `bookmark_ids`, with the next free
    /// group identifier of `db`.  Membership is taken as given: it is not
    /// checked against the bookmarks that exist.  The new record is not yet
    /// inserted.
    pub fn new(db: &BookmarksDB, name: &str, bookmark_ids: &Vec<usize>) -> (r: Group)
        requires
            spec_next_id(group_ids_of(db@.groups)) <= usize::MAX as int,
        ensures
            r@.id as int == spec_next_id(group_ids_of(db@.groups)),
            r@.name == name@,
            r@.bookmark_ids == bookmark_ids@,
    {
        let ids = collect_group_ids(&db.groups);
        let id = next_id(&ids);
        Group { id, name: name.to_owned(), bookmark_ids: clone_ids(bookmark_ids) }
    }

    /// A copy whose mathematical value equals this record's.
    pub fn duplicate(&self) -> (r: Group)
        ensures
            r@ == self@,
    {
        Group { id: self.id, name: self.name.clone(), bookmark_ids: clone_ids(&self.bookmark_ids) }
    }
}

// ---------------------------------------------------------------------------
// Presentation order
// ---------------------------------------------------------------------------

/// Case-sensitive natural string order: lexicographic by character code
/// point.
pub open spec fn lex_le(a: Seq<char>, b: Seq<char>) -> bool
    decreases a.len(),
{
    if a.len() == 0 {
        true
    } else if b.len() == 0 {
        false
    } else if (a[0] as u32) < (b[0] as u32) {
        true
    } else if (a[0] as u32) > (b[0] as u32) {
        false
    } else {
        lex_le(a.skip(1), b.skip(1))
    }
}

pub proof fn lemma_lex_total(a: Seq<char>, b: Seq<char>)
    ensures
        lex_le(a, b) || lex_le(b, a),
    decreases a.len(),
{
    if a.len() > 0 && b.len() > 0 && (a[0] as u32) == (b[0] as u32) {
        lemma_lex_total(a.skip(1), b.skip(1));
    }
}

pub proof fn lemma_lex_trans(a: Seq<char>, b: Seq<char>, c: Seq<char>)
    requires
        lex_le(a, b),
        lex_le(b, c),
    ensures
        lex_le(a, c),
    decreases a.len(),
{
    if a.len() > 0 {
        if b.len() > 0 && c.len() > 0 && (a[0] as u32) == (b[0] as u32) && (b[0] as u32) == (c[0]
            as u32) {
            lemma_lex_trans(a.skip(1), b.skip(1), c.skip(1));
        }
    }
}

/// The bookmarks stand in name order.
pub open spec fn bookmarks_sorted(s: Seq<BookmarkView>) -> bool {
    forall|i: int, j: int| 0 <= i < j < s.len() ==> lex_le(s[i].name, s[j].name)
}

/// The groups stand in name order.
pub open spec fn groups_sorted(s: Seq<GroupView>) -> bool {
    forall|i: int, j: int| 0 <= i < j < s.len() ==> lex_le(s[i].name, s[j].name)
}

fn name_le(a: &str, b: &str) -> (r: bool)
    ensures
        r == lex_le(a@, b@),
{
    let alen = a.unicode_len();
    let blen = b.unicode_len();
    let mut i: usize = 0;
    proof {
        assert(a@.skip(0) =~= a@);
        assert(b@.skip(0) =~= b@);
    }
    while i < alen && i < blen
        invariant
            0 <= i <= alen,
            0 <= i <= blen,
            alen == a@.len(),
            blen == b@.len(),
            lex_le(a@, b@) == lex_le(a@.skip(i as int), b@.skip(i as int)),
        decreases alen - i,
    {
        let ca = a.get_char(i);
        let cb = b.get_char(i);
        proof {
            assert(a@.skip(i as int)[0] == a@[i as int]);
            assert(b@.skip(i as int)[0] == b@[i as int]);
            assert(a@.skip(i as int).skip(1) =~= a@.skip(i as int + 1));
            assert(b@.skip(i as int).skip(1) =~= b@.skip(i as int + 1));
        }
        if (ca as u32) < (cb as u32) {
            return true;
        }
        if (ca as u32) > (cb as u32) {
            return false;
        }
        i += 1;
    }
    proof {
        if i == alen {
            assert(a@.skip(i as int) =~= Seq::<char>::empty());
        } else {
            assert(b@.skip(i as int) =~= Seq::<char>::empty());
            assert(a@.skip(i as int).len() > 0);
        }
    }
    i >= alen
}

proof fn lemma_seq_insert_to_multiset<A>(s: Seq<A>, j: int, x: A)
    requires
        0 <= j <= s.len(),
    ensures
        s.insert(j, x).to_multiset() == s.to_multiset().insert(x),
{
    broadcast use vstd::seq_lib::group_to_multiset_ensures;

    let t = s.insert(j, x);
    assert(t[j] == x);
    assert(t.remove(j) =~= s);
    assert(s.to_multiset() =~= t.to_multiset().remove(x));
    assert(t.contains(x));
    assert(t.to_multiset().count(x) > 0);
    assert(t.to_multiset() =~= s.to_multiset().insert(x));
}

fn insert_bookmark_sorted(out: &mut Vec<Bookmark>, b: Bookmark)
    requires
        bookmarks_sorted(views_of_bookmarks(old(out)@)),
    ensures
        bookmarks_sorted(views_of_bookmarks(final(out)@)),
        views_of_bookmarks(final(out)@).to_multiset() == views_of_bookmarks(
            old(out)@,
        ).to_multiset().insert(b@),
{
    let ghost pre = views_of_bookmarks(out@);
    let mut j: usize = 0;
    while j < out.len() && name_le(out[j].name.as_str(), b.name.as_str())
        invariant
            0 <= j <= out@.len(),
            out@ == old(out)@,
            pre == views_of_bookmarks(out@),
            forall|k: int| 0 <= k < j ==> lex_le(pre[k].name, b@.name),
        decreases out@.len() - j,
    {
        proof {
            assert(pre[j as int] == out@[j as int]@);
        }
        j += 1;
    }
    proof {
        if j < out@.len() {
            lemma_lex_total(pre[j as int].name, b@.name);
        }
        assert forall|k: int| j <= k < pre.len() implies lex_le(b@.name, pre[k].name) by {
            lemma_lex_total(pre[j as int].name, b@.name);
            if k > j {
                lemma_lex_trans(b@.name, pre[j as int].name, pre[k].name);
            }
        }
    }
    out.insert(j, b);
    proof {
        let post = views_of_bookmarks(out@);
        assert(post =~= pre.insert(j as int, b@));
        lemma_seq_insert_to_multiset(pre, j as int, b@);
        assert forall|p: int, q: int| 0 <= p < q < post.len() implies lex_le(
            post[p].name,
            post[q].name,
        ) by {
            if q < j {
                assert(post[p] == pre[p] && post[q] == pre[q]);
            } else if p > j {
                assert(post[p] == pre[p - 1] && post[q] == pre[q - 1]);
            } else if p < j && q == j {
                assert(post[p] == pre[p]);
            } else if p == j {
                assert(post[q] == pre[q - 1]);
            } else if p < j && q > j {
                assert(post[p] == pre[p] && post[q] == pre[q - 1]);
            }
        }
    }
}

fn insert_group_sorted(out: &mut Vec<Group>, g: Group)
    requires
        groups_sorted(views_of_groups(old(out)@)),
    ensures
        groups_sorted(views_of_groups(final(out)@)),
        views_of_groups(final(out)@).to_multiset() == views_of_groups(
            old(out)@,
        ).to_multiset().insert(g@),
{
    let ghost pre = views_of_groups(out@);
    let mut j: usize = 0;
    while j < out.len() && name_le(out[j].name.as_str(), g.name.as_str())
        invariant
            0 <= j <= out@.len(),
            out@ == old(out)@,
            pre == views_of_groups(out@),
            forall|k: int| 0 <= k < j ==> lex_le(pre[k].name, g@.name),
        decreases out@.len() - j,
    {
        proof {
            assert(pre[j as int] == out@[j as int]@);
        }
        j += 1;
    }
    proof {
        assert forall|k: int| j <= k < pre.len() implies lex_le(g@.name, pre[k].name) by {
            lemma_lex_total(pre[j as int].name, g@.name);
            if k > j {
                lemma_lex_trans(g@.name, pre[j as int].name, pre[k].name);
            }
        }
    }
    out.insert(j, g);
    proof {
        let post = views_of_groups(out@);
        assert(post =~= pre.insert(j as int, g@));
        lemma_seq_insert_to_multiset(pre, j as int, g@);
        assert forall|p: int, q: int| 0 <= p < q < post.len() implies lex_le(
            post[p].name,
            post[q].name,
        ) by {
            if q < j {
                assert(post[p] == pre[p] && post[q] == pre[q]);
            } else if p > j {
                assert(post[p] == pre[p - 1] && post[q] == pre[q - 1]);
            } else if p < j && q == j {
                assert(post[p] == pre[p]);
            } else if p == j {
                assert(post[q] == pre[q - 1]);
            } else if p < j && q > j {
                assert(post[p] == pre[p] && post[q] == pre[q - 1]);
            }
        }
    }
}

fn sort_bookmarks(v: &Vec<Bookmark>) -> (r: Vec<Bookmark>)
    ensures
        bookmarks_sorted(views_of_bookmarks(r@)),
        views_of_bookmarks(r@).to_multiset() == views_of_bookmarks(v@).to_multiset(),
{
    broadcast use vstd::seq_lib::group_to_multiset_ensures;

    let mut out: Vec<Bookmark> = Vec::new();
    let mut i: usize = 0;
    proof {
        let vs = views_of_bookmarks(v@);
        assert(vs.take(0) =~= Seq::<BookmarkView>::empty());
        assert(views_of_bookmarks(out@) =~= Seq::<BookmarkView>::empty());
    }
    while i < v.len()
        invariant
            0 <= i <= v@.len(),
            bookmarks_sorted(views_of_bookmarks(out@)),
            views_of_bookmarks(out@).to_multiset() == views_of_bookmarks(v@).take(
                i as int,
            ).to_multiset(),
        decreases v@.len() - i,
    {
        proof {
            broadcast use vstd::seq_lib::group_to_multiset_ensures;

            let vs = views_of_bookmarks(v@);
            assert(vs.take(i as int + 1) =~= vs.take(i as int).push(v@[i as int]@));
        }
        let b = v[i].duplicate();
        insert_bookmark_sorted(&mut out, b);
        i += 1;
    }
    proof {
        let vs = views_of_bookmarks(v@);
        assert(vs.take(v@.len() as int) =~= vs);
    }
    out
}

fn sort_groups(v: &Vec<Group>) -> (r: Vec<Group>)
    ensures
        groups_sorted(views_of_groups(r@)),
        views_of_groups(r@).to_multiset() == views_of_groups(v@).to_multiset(),
{
    broadcast use vstd::seq_lib::group_to_multiset_ensures;

    let mut out: Vec<Group> = Vec::new();
    let mut i: usize = 0;
    proof {
        let vs = views_of_groups(v@);
        assert(vs.take(0) =~= Seq::<GroupView>::empty());
        assert(views_of_groups(out@) =~= Seq::<GroupView>::empty());
    }
    while i < v.len()
        invariant
            0 <= i <= v@.len(),
            groups_sorted(views_of_groups(out@)),
            views_of_groups(out@).to_multiset() == views_of_groups(v@).take(
                i as int,
            ).to_multiset(),
        decreases v@.len() - i,
    {
        proof {
            broadcast use vstd::seq_lib::group_to_multiset_ensures;

            let vs = views_of_groups(v@);
            assert(vs.take(i as int + 1) =~= vs.take(i as int).push(v@[i as int]@));
        }
        let g = v[i].duplicate();
        insert_group_sorted(&mut out, g);
        i += 1;
    }
    proof {
        let vs = views_of_groups(v@);
        assert(vs.take(v@.len() as int) =~= vs);
    }
    out
}

fn bookmarks_are_sorted(v: &Vec<Bookmark>) -> (r: bool)
    ensures
        r == bookmarks_sorted(views_of_bookmarks(v@)),
{
    let mut i: usize = 1;
    while i < v.len()
        invariant
            1 <= i <= v@.len() || v@.len() == 0,
            forall|p: int, q: int|
                0 <= p < q < i ==> lex_le(
                    views_of_bookmarks(v@)[p].name,
                    views_of_bookmarks(v@)[q].name,
                ),
        decreases v@.len() - i,
    {
        if !name_le(v[i - 1].name.as_str(), v[i].name.as_str()) {
            proof {
                let vs = views_of_bookmarks(v@);
                assert(vs[i as int - 1] == v@[i as int - 1]@);
                assert(vs[i as int] == v@[i as int]@);
                assert(!lex_le(vs[i as int - 1].name, vs[i as int].name));
            }
            return false;
        }
        proof {
            let vs = views_of_bookmarks(v@);
            assert forall|p: int, q: int| 0 <= p < q < i + 1 implies lex_le(
                vs[p].name,
                vs[q].name,
            ) by {
                if q == i {
                    if p < i - 1 {
                        lemma_lex_trans(vs[p].name, vs[i - 1].name, vs[q].name);
                    }
                }
            }
        }
        i += 1;
    }
    true
}

fn groups_are_sorted(v: &Vec<Group>) -> (r: bool)
    ensures
        r == groups_sorted(views_of_groups(v@)),
{
    let mut i: usize = 1;
    while i < v.len()
        invariant
            1 <= i <= v@.len() || v@.len() == 0,
            forall|p: int, q: int|
                0 <= p < q < i ==> lex_le(
                    views_of_groups(v@)[p].name,
                    views_of_groups(v@)[q].name,
                ),
        decreases v@.len() - i,
    {
        if !name_le(v[i - 1].name.as_str(), v[i].name.as_str()) {
            proof {
                let vs = views_of_groups(v@);
                assert(vs[i as int - 1] == v@[i as int - 1]@);
                assert(vs[i as int] == v@[i as int]@);
                assert(!lex_le(vs[i as int - 1].name, vs[i as int].name));
            }
            return false;
        }
        proof {
            let vs = views_of_groups(v@);
            assert forall|p: int, q: int| 0 <= p < q < i + 1 implies lex_le(
                vs[p].name,
                vs[q].name,
            ) by {
                if q == i {
                    if p < i - 1 {
                        lemma_lex_trans(vs[p].name, vs[i - 1].name, vs[q].name);
                    }
                }
            }
        }
        i += 1;
    }
    true
}

impl BookmarksDB {
    /// Puts the collection into presentation order: bookmarks and groups each
    /// sorted by name.  No record is added, dropped or changed, and a
    /// collection already in order is left exactly as it is — so loading and
    /// saving a document changes nothing observable but the order.
    pub fn normalize(&mut self)
        ensures
            final(self)@.bookmarks.to_multiset() == old(self)@.bookmarks.to_multiset(),
            final(self)@.groups.to_multiset() == old(self)@.groups.to_multiset(),
            bookmarks_sorted(final(self)@.bookmarks),
            groups_sorted(final(self)@.groups),
            bookmarks_sorted(old(self)@.bookmarks) && groups_sorted(old(self)@.groups) ==> final(self)@ == old(self)@,
    {
        if !bookmarks_are_sorted(&self.bookmarks) {
            let sorted = sort_bookmarks(&self.bookmarks);
            self.bookmarks = sorted;
        }
        if !groups_are_sorted(&self.groups) {
            let sorted = sort_groups(&self.groups);
            self.groups = sorted;
        }
    }
}

} // verus!
