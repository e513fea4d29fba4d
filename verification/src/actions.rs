use vstd::prelude::*;
use crate::bookmarks::{Bookmark, BookmarkView, BookmarksDB, GroupView, views_of_bookmarks};

verus! {

/// The first group carrying `id`, if any.
pub open spec fn find_group(groups: Seq<GroupView>, id: usize) -> Option<GroupView>
    decreases groups.len(),
{
    if groups.len() == 0 {
        None
    } else if groups[0].id == id {
        Some(groups[0])
    } else {
        find_group(groups.skip(1), id)
    }
}

/// The bookmarks that `g` references, in collection order.
pub open spec fn members_of(bookmarks: Seq<BookmarkView>, g: GroupView) -> Seq<BookmarkView> {
    bookmarks.filter(|b: BookmarkView| g.bookmark_ids.contains(b.id))
}

proof fn lemma_members_push(s: Seq<BookmarkView>, x: BookmarkView, g: GroupView)
    ensures
        g.bookmark_ids.contains(x.id) ==> members_of(s.push(x), g) == members_of(s, g).push(x),
        !g.bookmark_ids.contains(x.id) ==> members_of(s.push(x), g) == members_of(s, g),
{
    reveal(Seq::filter);
    assert(s.push(x).drop_last() =~= s);
    assert(s.push(x).last() == x);
}

/// Whether `x` occurs among `ids`.
pub fn ids_contain(ids: &Vec<usize>, x: usize) -> (r: bool)
    ensures
        r == ids@.contains(x),
{
    let mut i: usize = 0;
    while i < ids.len()
        invariant
            0 <= i <= ids@.len(),
            forall|j: int| 0 <= j < i ==> ids@[j] != x,
        decreases ids@.len() - i,
    {
        if ids[i] == x {
            return true;
        }
        i += 1;
    }
    proof {
        if ids@.contains(x) {
            let j = choose|j: int| 0 <= j < ids@.len() && ids@[j] == x;
            assert(ids@[j] != x);
        }
    }
    false
}

/// The bookmarks the "open group" action must open: every bookmark that the
/// first group carrying `group_id` references, in collection order.  `None`
/// when no group carries that identifier.
pub fn group_links(db: &BookmarksDB, group_id: usize) -> (r: Option<Vec<Bookmark>>)
    ensures
        r is Some <==> find_group(db@.groups, group_id) is Some,
        r matches Some(v) ==> find_group(db@.groups, group_id) matches Some(g)
            && views_of_bookmarks(v@) == members_of(db@.bookmarks, g),
{
    let ghost gs = db@.groups;
    let mut i: usize = 0;
    let mut found: Option<usize> = None;
    proof {
        assert(gs.skip(0) =~= gs);
    }
    while i < db.groups.len()
        invariant
            0 <= i <= db.groups@.len(),
            gs == db@.groups,
            found is None ==> find_group(gs, group_id) == find_group(gs.skip(i as int), group_id),
            found matches Some(k) ==> k < db.groups@.len() && gs[k as int].id == group_id
                && find_group(gs, group_id) == Some(gs[k as int]),
        decreases db.groups@.len() - i,
    {
        proof {
            assert(gs.skip(i as int)[0] == gs[i as int]);
            assert(gs.skip(i as int).skip(1) =~= gs.skip(i as int + 1));
        }
        if found.is_none() && db.groups[i].id == group_id {
            proof {
                assert(gs[i as int] == db.groups@[i as int]@);
                assert(find_group(gs.skip(i as int), group_id) == Some(gs[i as int]));
            }
            found = Some(i);
        }
        i += 1;
    }
    proof {
        if found is None {
            assert(gs.skip(gs.len() as int) =~= Seq::<GroupView>::empty());
        }
    }
    let idx = match found {
        Some(k) => k,
        None => {
            return None;
        },
    };
    let g = &db.groups[idx];
    let ghost gv = g@;
    let mut members: Vec<Bookmark> = Vec::new();
    let mut j: usize = 0;
    proof {
        assert(views_of_bookmarks(members@) =~= Seq::<BookmarkView>::empty());
        assert(db@.bookmarks.take(0) =~= Seq::<BookmarkView>::empty());
        reveal(Seq::filter);
    }
    while j < db.bookmarks.len()
        invariant
            0 <= j <= db.bookmarks@.len(),
            gv == g@,
            g == db.groups@[idx as int],
            idx < db.groups@.len(),
            views_of_bookmarks(members@) == members_of(db@.bookmarks.take(j as int), gv),
        decreases db.bookmarks@.len() - j,
    {
        proof {
            let bs = db@.bookmarks;
            assert(bs.take(j as int + 1) =~= bs.take(j as int).push(db.bookmarks@[j as int]@));
            lemma_members_push(bs.take(j as int), db.bookmarks@[j as int]@, gv);
        }
        if ids_contain(&g.bookmark_ids, db.bookmarks[j].id) {
            let b = db.bookmarks[j].duplicate();
            let ghost pre = members@;
            members.push(b);
            proof {
                assert(views_of_bookmarks(pre.push(b)) =~= views_of_bookmarks(pre).push(b@));
            }
        }
        j += 1;
    }
    proof {
        assert(db@.bookmarks.take(db.bookmarks@.len() as int) =~= db@.bookmarks);
    }
    Some(members)
}

} // verus!
