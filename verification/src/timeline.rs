//! The order in which posts are shown, the newest first, and how a long
//! list of them is cut into pages.
use vstd::prelude::*;
use crate::post::{Post, PostView};

verus! {

/// What a list of posts holds.
pub open spec fn posts_view(posts: Seq<Post>) -> Seq<PostView> {
    posts.map_values(|p: Post| p@)
}

/// Whether `a` comes before `b` where the newest come first: the one made
/// later does, and of two made at the same time the one with the higher
/// number.
pub open spec fn newer(a: PostView, b: PostView) -> bool {
    a.created_at > b.created_at || (a.created_at == b.created_at && a.id > b.id)
}

/// Whether the posts stand with the newest first.
pub open spec fn newest_first(s: Seq<PostView>) -> bool {
    forall|i: int, j: int| 0 <= i < j < s.len() ==> newer(#[trigger] s[i], #[trigger] s[j])
}

/// Whether a post with the number `id` stands in `s`.
pub open spec fn holds(s: Seq<PostView>, id: u64) -> bool {
    exists|i: int| 0 <= i < s.len() && (#[trigger] s[i]).id == id
}

/// Whether every post of `s` is one of `posts`.
pub open spec fn drawn_from(s: Seq<PostView>, posts: Map<u64, PostView>) -> bool {
    forall|i: int|
        0 <= i < s.len() ==> posts.dom().contains((#[trigger] s[i]).id) && posts[s[i].id] == s[i]
}

/// Whether `s` is the posts of `posts`, each once, with the newest first.
pub open spec fn is_timeline(s: Seq<PostView>, posts: Map<u64, PostView>) -> bool {
    &&& newest_first(s)
    &&& drawn_from(s, posts)
    &&& forall|id: u64| posts.dom().contains(id) ==> holds(s, id)
}

/// The posts of `posts`, each once, with the newest first.
pub open spec fn timeline(posts: Map<u64, PostView>) -> Seq<PostView> {
    choose|s: Seq<PostView>| is_timeline(s, posts)
}

/// The posts whose author is one of `authors`.
pub open spec fn by_authors(posts: Map<u64, PostView>, authors: Seq<Seq<u8>>) -> Map<
    u64,
    PostView,
> {
    Map::new(
        |id: u64| posts.dom().contains(id) && authors.contains(posts[id].author),
        |id: u64| posts[id],
    )
}

/// The part of `s` that starts after `offset` entries and has `limit`
/// entries, or as many as are left.
pub open spec fn page<A>(s: Seq<A>, limit: nat, offset: nat) -> Seq<A> {
    if offset >= s.len() {
        Seq::empty()
    } else if offset + limit >= s.len() {
        s.skip(offset as int)
    } else {
        s.subrange(offset as int, (offset + limit) as int)
    }
}

/// The first `count` pages of `limit` entries each, one after the other.
pub open spec fn pages<A>(s: Seq<A>, limit: nat, count: nat) -> Seq<A>
    decreases count,
{
    if count == 0 {
        Seq::empty()
    } else {
        pages(s, limit, (count - 1) as nat) + page(s, limit, ((count - 1) * limit) as nat)
    }
}

/// Past the end there is nothing.
pub proof fn lemma_page_past_end<A>(s: Seq<A>, limit: nat, offset: nat)
    requires
        offset >= s.len(),
    ensures
        page(s, limit, offset) == Seq::<A>::empty(),
{
}

/// The pages leave nothing out and repeat nothing: the first `count` of them
/// are the first `count * limit` entries, and all of them once that is as
/// many as there are.
pub proof fn lemma_pages_complete<A>(s: Seq<A>, limit: nat, count: nat)
    ensures
        count * limit <= s.len() ==> pages(s, limit, count) == s.take((count * limit) as int),
        count * limit >= s.len() ==> pages(s, limit, count) == s,
    decreases count,
{
    if count == 0 {
        assert(0 * limit == 0) by (nonlinear_arith);
        assert(s.take(0) =~= Seq::<A>::empty());
        if s.len() == 0 {
            assert(s =~= Seq::<A>::empty());
        }
    } else {
        let before = (count - 1) as nat;
        lemma_pages_complete(s, limit, before);
        assert(count * limit == before * limit + limit) by (nonlinear_arith)
            requires
                before == count - 1,
        ;
        let start = before * limit;
        if start >= s.len() {
            assert(pages(s, limit, count) =~= s);
        } else {
            assert(pages(s, limit, before) == s.take(start as int));
            if start + limit >= s.len() {
                assert(s.take(start as int) + s.skip(start as int) =~= s);
                if count * limit <= s.len() {
                    assert(s.take((count * limit) as int) =~= s);
                }
            } else {
                assert(s.take(start as int) + s.subrange(start as int, (start + limit) as int)
                    =~= s.take((count * limit) as int));
            }
        }
    }
}

/// There is one way only to put the posts with the newest first.
pub proof fn lemma_timeline_unique(s: Seq<PostView>, t: Seq<PostView>, posts: Map<u64, PostView>)
    requires
        is_timeline(s, posts),
        is_timeline(t, posts),
    ensures
        s == t,
    decreases s.len(),
{
    if s.len() == 0 {
        if t.len() > 0 {
            assert(posts.dom().contains(t[0].id));
            assert(holds(s, t[0].id));
        }
        assert(s =~= t);
    } else {
        assert(posts.dom().contains(s[0].id));
        assert(holds(t, s[0].id));
        let k = choose|k: int| 0 <= k < t.len() && (#[trigger] t[k]).id == s[0].id;
        assert(t[k] == s[0]);
        assert(posts.dom().contains(t[0].id));
        assert(holds(s, t[0].id));
        let m = choose|m: int| 0 <= m < s.len() && (#[trigger] s[m]).id == t[0].id;
        assert(s[m] == t[0]);
        if k > 0 {
            assert(newer(t[0], t[k]));
            if m > 0 {
                assert(newer(s[0], s[m]));
            }
        }
        assert(t[0] == s[0]);
        let first = s[0].id;
        let rest = posts.remove(first);
        let s1 = s.drop_first();
        let t1 = t.drop_first();
        assert(is_timeline(s1, rest)) by {
            assert forall|i: int| 0 <= i < s1.len() implies rest.dom().contains(
                (#[trigger] s1[i]).id,
            ) && rest[s1[i].id] == s1[i] by {
                assert(s1[i] == s[i + 1]);
                assert(newer(s[0], s[i + 1]));
            }
            assert forall|id: u64| rest.dom().contains(id) implies holds(s1, id) by {
                assert(holds(s, id));
                let i = choose|i: int| 0 <= i < s.len() && (#[trigger] s[i]).id == id;
                assert(s1[i - 1].id == id);
            }
            assert forall|i: int, j: int| 0 <= i < j < s1.len() implies newer(
                #[trigger] s1[i],
                #[trigger] s1[j],
            ) by {
                assert(newer(s[i + 1], s[j + 1]));
            }
        }
        assert(is_timeline(t1, rest)) by {
            assert forall|i: int| 0 <= i < t1.len() implies rest.dom().contains(
                (#[trigger] t1[i]).id,
            ) && rest[t1[i].id] == t1[i] by {
                assert(t1[i] == t[i + 1]);
                assert(newer(t[0], t[i + 1]));
            }
            assert forall|id: u64| rest.dom().contains(id) implies holds(t1, id) by {
                assert(holds(t, id));
                let i = choose|i: int| 0 <= i < t.len() && (#[trigger] t[i]).id == id;
                assert(t1[i - 1].id == id);
            }
            assert forall|i: int, j: int| 0 <= i < j < t1.len() implies newer(
                #[trigger] t1[i],
                #[trigger] t1[j],
            ) by {
                assert(newer(t[i + 1], t[j + 1]));
            }
        }
        lemma_timeline_unique(s1, t1, rest);
        assert(s =~= seq![s[0]] + s1);
        assert(t =~= seq![t[0]] + t1);
    }
}

/// A post put into a list is there, and so is what was there.
pub proof fn lemma_insert_holds(s: Seq<PostView>, pos: int, x: PostView, id: u64)
    requires
        0 <= pos <= s.len(),
    ensures
        holds(s.insert(pos, x), id) <==> (holds(s, id) || x.id == id),
{
    let n = s.insert(pos, x);
    if holds(s, id) {
        let i = choose|i: int| 0 <= i < s.len() && (#[trigger] s[i]).id == id;
        if i < pos {
            assert(n[i].id == id);
        } else {
            assert(n[i + 1].id == id);
        }
    }
    if x.id == id {
        assert(n[pos].id == id);
    }
    if holds(n, id) {
        let i = choose|i: int| 0 <= i < n.len() && (#[trigger] n[i]).id == id;
        if i < pos {
            assert(s[i].id == id);
        } else if i > pos {
            assert(s[i - 1].id == id);
        }
    }
}

/// A post put in its place leaves the newest first.
pub proof fn lemma_insert_sorted(s: Seq<PostView>, pos: int, x: PostView)
    requires
        0 <= pos <= s.len(),
        newest_first(s),
        forall|i: int| 0 <= i < pos ==> newer(#[trigger] s[i], x),
        forall|i: int| pos <= i < s.len() ==> newer(x, #[trigger] s[i]),
    ensures
        newest_first(s.insert(pos, x)),
{
    let n = s.insert(pos, x);
    assert forall|i: int, j: int| 0 <= i < j < n.len() implies newer(
        #[trigger] n[i],
        #[trigger] n[j],
    ) by {
        if j < pos {
            assert(newer(s[i], s[j]));
        } else if j == pos {
            assert(newer(s[i], x));
        } else if i < pos {
            assert(newer(s[i], s[j - 1]));
        } else if i == pos {
            assert(newer(x, s[j - 1]));
        } else {
            assert(newer(s[i - 1], s[j - 1]));
        }
    }
}

/// Whether `a` comes before `b` where the newest come first.
pub fn is_newer(a: &Post, b: &Post) -> (r: bool)
    ensures
        r == newer(a@, b@),
{
    a.created_at > b.created_at || (a.created_at == b.created_at && a.id > b.id)
}

/// Puts a post into a list that has the newest first, at its place.
pub fn place(out: &mut Vec<Post>, p: Post) -> (pos: usize)
    requires
        newest_first(posts_view(old(out)@)),
        !holds(posts_view(old(out)@), p@.id),
    ensures
        pos <= old(out)@.len(),
        posts_view(final(out)@) == posts_view(old(out)@).insert(pos as int, p@),
        newest_first(posts_view(final(out)@)),
{
    let ghost before = posts_view(out@);
    let mut pos: usize = 0;
    while pos < out.len() && is_newer(&out[pos], &p)
        invariant
            pos <= out@.len(),
            before == posts_view(out@),
            forall|i: int| 0 <= i < pos ==> newer(#[trigger] before[i], p@),
        decreases out@.len() - pos,
    {
        pos += 1;
    }
    proof {
        assert forall|i: int| pos <= i < before.len() implies newer(p@, #[trigger] before[i]) by {
            assert(before[pos as int].id != p@.id);
            assert(before[i].id != p@.id);
            if i > pos {
                assert(newer(before[pos as int], before[i]));
            }
        }
        lemma_insert_sorted(before, pos as int, p@);
    }
    out.insert(pos, p);
    assert(posts_view(out@) =~= before.insert(pos as int, p@));
    pos
}

/// The page of a list that starts after `offset` entries and has `limit`
/// entries, or as many as are left.
pub fn page_of(sorted: &Vec<Post>, limit: u64, offset: u64) -> (r: Vec<Post>)
    ensures
        posts_view(r@) == page(posts_view(sorted@), limit as nat, offset as nat),
{
    let mut out: Vec<Post> = Vec::new();
    let ghost all = posts_view(sorted@);
    if offset >= sorted.len() as u64 {
        assert(posts_view(out@) =~= Seq::<PostView>::empty());
        return out;
    }
    let start = offset as usize;
    let left = sorted.len() - start;
    let count = if limit >= left as u64 {
        left
    } else {
        limit as usize
    };
    let mut i: usize = 0;
    while i < count
        invariant
            0 <= i <= count,
            start + count <= sorted.len(),
            all == posts_view(sorted@),
            out@.len() == i,
            forall|k: int| 0 <= k < i ==> (#[trigger] out@[k])@ == all[start + k],
        decreases count - i,
    {
        out.push(sorted[start + i].clone());
        i += 1;
    }
    assert(posts_view(out@) =~= all.subrange(start as int, start + count));
    assert(all.subrange(start as int, start + count) =~= page(all, limit as nat, offset as nat));
    out
}

} // verus!
