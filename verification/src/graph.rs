//! Who follows whom: the edges, and for each identity the list of those who
//! follow it and the list of those it follows. The three always agree.
use vstd::prelude::*;
use vstd::bytes::*;
use crate::codec::{
    field_sum, fields_view, frame, frame_fields, lemma_field_sum, lemma_frame_holds,
    lemma_frame_len, lemma_frame_injective, lemma_unframe_frame, unframe, writable,
};
use crate::error::SocialError;
use crate::identity::{anonymous_bytes, identities_view, listed, Identity};
use crate::lists::{
    common, common_identities, differs, drop_identity, identities_to_bytes, lemma_contains_push,
    lemma_filter_frame, lemma_filter_holds, lemma_filter_no_duplicates, lemma_push_no_duplicates,
    read_identities, stored_list, without, among,
};
use crate::table::{
    fits, short, table_entries, table_has, table_insert, table_remove, tables_open, ByteTable,
    TABLE_LIMIT,
};

verus! {

/// One edge of the graph: `follower` follows `following`, since `created_at`.
#[derive(Debug, PartialEq, Eq)]
pub struct Follow {
    pub follower: Identity,
    pub following: Identity,
    pub created_at: u64,
}

/// An edge as plain values.
pub struct FollowView {
    pub follower: Seq<u8>,
    pub following: Seq<u8>,
    pub created_at: u64,
}

impl View for Follow {
    type V = FollowView;

    open spec fn view(&self) -> FollowView {
        FollowView {
            follower: self.follower@,
            following: self.following@,
            created_at: self.created_at,
        }
    }
}

impl Clone for Follow {
    fn clone(&self) -> (r: Follow)
        ensures
            r@ == self@,
    {
        Follow {
            follower: self.follower.clone(),
            following: self.following.clone(),
            created_at: self.created_at,
        }
    }
}

/// How many follow an identity, and how many it follows.
#[derive(Clone, Copy, Debug, PartialEq, Eq, Structural)]
pub struct SocialStats {
    pub followers_count: u64,
    pub following_count: u64,
}

/// Whether the length of a byte string can be written down in eight bytes.
pub open spec fn plain(a: Seq<u8>) -> bool {
    a.len() <= u64::MAX
}

/// The key under which the edge from `a` to `b` is stored.
pub open spec fn edge_key(a: Seq<u8>, b: Seq<u8>) -> Seq<u8> {
    frame(seq![a, b])
}

/// The fields of an edge, in the order in which they are stored.
pub open spec fn follow_fields(f: FollowView) -> Seq<Seq<u8>> {
    seq![f.follower, f.following, spec_u64_to_le_bytes(f.created_at)]
}

/// An edge as it is stored.
pub open spec fn follow_bytes(f: FollowView) -> Seq<u8> {
    frame(follow_fields(f))
}

/// The edge that stored bytes spell, if they spell one.
pub open spec fn follow_parse(bytes: Seq<u8>) -> Option<FollowView> {
    match unframe(bytes) {
        Some(f) => if f.len() == 3 && f[2].len() == 8 {
            Some(
                FollowView {
                    follower: f[0],
                    following: f[1],
                    created_at: spec_u64_from_le_bytes(f[2]),
                },
            )
        } else {
            None
        },
        None => None,
    }
}

/// The edges that a table of edges holds.
pub open spec fn edges_view(edges: Map<Seq<u8>, Seq<u8>>) -> Map<(Seq<u8>, Seq<u8>), FollowView> {
    Map::new(
        |e: (Seq<u8>, Seq<u8>)|
            plain(e.0) && plain(e.1) && edges.dom().contains(edge_key(e.0, e.1)),
        |e: (Seq<u8>, Seq<u8>)| follow_parse(edges[edge_key(e.0, e.1)])->0,
    )
}

/// What it means for the three tables to agree.
pub open spec fn tables_agree(
    edges: Map<Seq<u8>, Seq<u8>>,
    fans: Map<Seq<u8>, Seq<u8>>,
    idols: Map<Seq<u8>, Seq<u8>>,
) -> bool {
    &&& forall|a: Seq<u8>, b: Seq<u8>|
        plain(a) && plain(b) && #[trigger] edges.dom().contains(edge_key(a, b)) ==> {
            &&& follow_parse(edges[edge_key(a, b)]) is Some
            &&& follow_parse(edges[edge_key(a, b)])->0.follower == a
            &&& follow_parse(edges[edge_key(a, b)])->0.following == b
            &&& a != b
            &&& a != anonymous_bytes()
            &&& stored_list(idols, a).contains(b)
            &&& stored_list(fans, b).contains(a)
        }
    &&& forall|id: Seq<u8>| #[trigger]
        fans.dom().contains(id) ==> {
            &&& short(id)
            &&& short(fans[id])
            &&& fans[id] == frame(stored_list(fans, id))
        }
    &&& forall|id: Seq<u8>| #[trigger]
        idols.dom().contains(id) ==> {
            &&& short(id)
            &&& short(idols[id])
            &&& idols[id] == frame(stored_list(idols, id))
        }
    &&& forall|id: Seq<u8>| (#[trigger] stored_list(fans, id)).no_duplicates()
    &&& forall|id: Seq<u8>| (#[trigger] stored_list(idols, id)).no_duplicates()
    &&& forall|id: Seq<u8>, x: Seq<u8>| #[trigger]
        stored_list(fans, id).contains(x) ==> plain(x) && plain(id) && edges.dom().contains(
            edge_key(x, id),
        )
    &&& forall|id: Seq<u8>, x: Seq<u8>| #[trigger]
        stored_list(idols, id).contains(x) ==> plain(x) && plain(id) && edges.dom().contains(
            edge_key(id, x),
        )
}

/// How long a stored edge is: 32 bytes, and its two ends.
pub proof fn lemma_follow_len(f: FollowView)
    ensures
        follow_bytes(f).len() == 32 + f.follower.len() + f.following.len(),
{
    lemma_auto_spec_u64_to_from_le_bytes();
    lemma_frame_len(follow_fields(f));
    lemma_field_sum(follow_fields(f), 3);
    reveal_with_fuel(field_sum, 4);
}

/// Different pairs have different keys.
pub proof fn lemma_edge_key_injective(a: Seq<u8>, b: Seq<u8>, c: Seq<u8>, d: Seq<u8>)
    requires
        plain(a),
        plain(b),
        plain(c),
        plain(d),
        edge_key(a, b) == edge_key(c, d),
    ensures
        a == c,
        b == d,
{
    let x = seq![a, b];
    let y = seq![c, d];
    lemma_frame_injective(x, y);
    assert(x[0] == y[0]);
    assert(x[1] == y[1]);
}

/// The candidates picked from `more`, after `sofar` were picked: each one
/// that is not `me`, not among `barred`, and not picked yet, in the order in
/// which they are first seen.
pub open spec fn picked(
    sofar: Seq<Seq<u8>>,
    more: Seq<Seq<u8>>,
    me: Seq<u8>,
    barred: Seq<Seq<u8>>,
) -> Seq<Seq<u8>>
    decreases more.len(),
{
    if more.len() == 0 {
        sofar
    } else {
        let before = picked(sofar, more.drop_last(), me, barred);
        let c = more.last();
        if c != me && !barred.contains(c) && !before.contains(c) {
            before.push(c)
        } else {
            before
        }
    }
}

/// Picking from one list and then from another is picking from the two in a
/// row.
pub proof fn lemma_picked_concat(
    sofar: Seq<Seq<u8>>,
    x: Seq<Seq<u8>>,
    y: Seq<Seq<u8>>,
    me: Seq<u8>,
    barred: Seq<Seq<u8>>,
)
    ensures
        picked(sofar, x + y, me, barred) == picked(picked(sofar, x, me, barred), y, me, barred),
    decreases y.len(),
{
    if y.len() == 0 {
        assert(x + y =~= x);
    } else {
        lemma_picked_concat(sofar, x, y.drop_last(), me, barred);
        assert((x + y).drop_last() =~= x + y.drop_last());
        assert((x + y).last() == y.last());
    }
}

/// What was picked from the start of a list stays, in its place, when the
/// rest of the list is gone through.
pub proof fn lemma_picked_grows(
    sofar: Seq<Seq<u8>>,
    more: Seq<Seq<u8>>,
    me: Seq<u8>,
    barred: Seq<Seq<u8>>,
)
    ensures
        sofar.len() <= picked(sofar, more, me, barred).len(),
        picked(sofar, more, me, barred).take(sofar.len() as int) == sofar,
    decreases more.len(),
{
    if more.len() == 0 {
        assert(sofar.take(sofar.len() as int) =~= sofar);
    } else {
        lemma_picked_grows(sofar, more.drop_last(), me, barred);
        let before = picked(sofar, more.drop_last(), me, barred);
        assert(before.push(more.last()).take(sofar.len() as int) =~= before.take(
            sofar.len() as int,
        ));
    }
}

/// A list cut down to at most `limit` entries.
pub open spec fn capped(list: Seq<Seq<u8>>, limit: u64) -> Seq<Seq<u8>> {
    if limit < list.len() {
        list.take(limit as int)
    } else {
        list
    }
}

/// The edges, and the two lists of each identity.
pub struct GraphStore {
    edges: ByteTable,
    followers: ByteTable,
    following: ByteTable,
}

impl GraphStore {
    /// The edges of the graph, by follower and followed.
    pub closed spec fn follows(&self) -> Map<(Seq<u8>, Seq<u8>), FollowView> {
        edges_view(table_entries(self.edges))
    }

    /// Those who follow `id`, in the order in which they began to.
    pub closed spec fn followers_of(&self, id: Seq<u8>) -> Seq<Seq<u8>> {
        stored_list(table_entries(self.followers), id)
    }

    /// Those whom `id` follows, in the order in which it began to.
    pub closed spec fn following_of(&self, id: Seq<u8>) -> Seq<Seq<u8>> {
        stored_list(table_entries(self.following), id)
    }

    /// The edges and the two lists agree.
    pub closed spec fn wf(&self) -> bool {
        tables_agree(
            table_entries(self.edges),
            table_entries(self.followers),
            table_entries(self.following),
        )
    }

    /// Whether `a` follows `b`.
    pub open spec fn linked(&self, a: Seq<u8>, b: Seq<u8>) -> bool {
        self.follows().dom().contains((a, b))
    }

    /// Whether the tables can hold the edge from `a` to `b` as well.
    pub open spec fn room_to_follow(&self, a: Seq<u8>, b: Seq<u8>, now: u64) -> bool {
        &&& follow_bytes(FollowView { follower: a, following: b, created_at: now }).len()
            <= TABLE_LIMIT
        &&& frame(self.followers_of(b).push(a)).len() <= TABLE_LIMIT
        &&& frame(self.following_of(a).push(b)).len() <= TABLE_LIMIT
    }

    /// What `follow_user` answers in a given store.
    pub open spec fn follow_verdict(&self, a: Seq<u8>, b: Seq<u8>, now: u64) -> Result<
        (),
        SocialError,
    > {
        if a == anonymous_bytes() {
            Err(SocialError::Unauthenticated)
        } else if a == b {
            Err(SocialError::SelfFollow)
        } else if self.linked(a, b) {
            Err(SocialError::AlreadyFollowing)
        } else if !self.room_to_follow(a, b, now) {
            Err(SocialError::CapacityExceeded)
        } else {
            Ok(())
        }
    }

    /// What `unfollow_user` answers in a given store.
    pub open spec fn unfollow_verdict(&self, a: Seq<u8>, b: Seq<u8>) -> Result<(), SocialError> {
        if a == anonymous_bytes() {
            Err(SocialError::Unauthenticated)
        } else if !self.linked(a, b) {
            Err(SocialError::NotFollowing)
        } else {
            Ok(())
        }
    }

    /// Those whom the identities in `firsts` follow, list after list.
    pub open spec fn second_hop(&self, firsts: Seq<Seq<u8>>) -> Seq<Seq<u8>>
        decreases firsts.len(),
    {
        if firsts.len() == 0 {
            Seq::empty()
        } else {
            self.second_hop(firsts.drop_last()) + self.following_of(firsts.last())
        }
    }

    /// Whom to suggest to `id`: those followed by someone `id` follows, but
    /// neither `id` itself nor anyone `id` follows already, each once, in the
    /// order in which they are first met, and no more than `limit` of them.
    pub open spec fn suggestions(&self, id: Seq<u8>, limit: u64) -> Seq<Seq<u8>> {
        capped(
            picked(
                Seq::empty(),
                self.second_hop(self.following_of(id)),
                id,
                self.following_of(id),
            ),
            limit,
        )
    }

    /// An edge is there exactly when the followed one is in the follower's
    /// list, and exactly when the follower is in the list of the followed one.
    pub proof fn lemma_edges_mirrored(&self, a: Seq<u8>, b: Seq<u8>)
        requires
            self.wf(),
        ensures
            self.linked(a, b) <==> self.following_of(a).contains(b),
            self.linked(a, b) <==> self.followers_of(b).contains(a),
    {
        let edges = table_entries(self.edges);
        if self.linked(a, b) {
            assert(edges.dom().contains(edge_key(a, b)));
        }
    }

    /// No list names anyone twice.
    pub proof fn lemma_lists_distinct(&self, id: Seq<u8>)
        requires
            self.wf(),
        ensures
            self.followers_of(id).no_duplicates(),
            self.following_of(id).no_duplicates(),
    {
    }

    /// Those who follow both of two identities are those in both lists, and
    /// none of them is named twice.
    pub proof fn lemma_mutual_sound(&self, a: Seq<u8>, b: Seq<u8>, x: Seq<u8>)
        requires
            self.wf(),
        ensures
            common(self.followers_of(a), self.followers_of(b)).no_duplicates(),
            common(self.followers_of(a), self.followers_of(b)).contains(x) <==> (
            self.followers_of(a).contains(x) && self.followers_of(b).contains(x)),
    {
        lemma_filter_no_duplicates(self.followers_of(a), among(self.followers_of(b)));
        lemma_filter_holds(self.followers_of(a), among(self.followers_of(b)), x);
    }

    /// An edge runs between two different identities, from one that is not
    /// anonymous, and is recorded with its two ends.
    pub proof fn lemma_edges_sound(&self, a: Seq<u8>, b: Seq<u8>)
        requires
            self.wf(),
            self.linked(a, b),
        ensures
            a != b,
            a != anonymous_bytes(),
            self.follows()[(a, b)].follower == a,
            self.follows()[(a, b)].following == b,
    {
        assert(table_entries(self.edges).dom().contains(edge_key(a, b)));
    }

    /// A graph without edges.
    pub fn new() -> (r: GraphStore)
        ensures
            r.wf(),
            r.follows() == Map::<(Seq<u8>, Seq<u8>), FollowView>::empty(),
            forall|id: Seq<u8>| #[trigger] r.followers_of(id) == Seq::<Seq<u8>>::empty(),
            forall|id: Seq<u8>| #[trigger] r.following_of(id) == Seq::<Seq<u8>>::empty(),
    {
        let tables = tables_open();
        let r = GraphStore {
            edges: tables.first,
            followers: tables.second,
            following: tables.third,
        };
        assert(r.follows() =~= Map::<(Seq<u8>, Seq<u8>), FollowView>::empty());
        r
    }

    /// Whether `follower` follows `followee`.
    pub fn is_following(&self, follower: &Identity, followee: &Identity) -> (r: bool)
        ensures
            r == self.linked(follower@, followee@),
    {
        let key = edge_key_bytes(follower, followee);
        table_has(&self.edges, &key)
    }

    /// Those who follow `identity`, in the order in which they began to.
    pub fn get_followers(&self, identity: &Identity) -> (r: Vec<Identity>)
        ensures
            identities_view(r@) == self.followers_of(identity@),
    {
        read_identities(&self.followers, &identity.bytes)
    }

    /// Those whom `identity` follows, in the order in which it began to.
    pub fn get_following(&self, identity: &Identity) -> (r: Vec<Identity>)
        ensures
            identities_view(r@) == self.following_of(identity@),
    {
        read_identities(&self.following, &identity.bytes)
    }

    /// The lengths of the two lists of `identity`.
    pub fn get_social_stats(&self, identity: &Identity) -> (r: SocialStats)
        ensures
            r.followers_count == self.followers_of(identity@).len(),
            r.following_count == self.following_of(identity@).len(),
    {
        let fans = self.get_followers(identity);
        let idols = self.get_following(identity);
        SocialStats { followers_count: fans.len() as u64, following_count: idols.len() as u64 }
    }

    /// Those who follow both `a` and `b`, in the order of the followers of `a`.
    pub fn get_mutual_followers(&self, a: &Identity, b: &Identity) -> (r: Vec<Identity>)
        ensures
            identities_view(r@) == common(self.followers_of(a@), self.followers_of(b@)),
    {
        let first = self.get_followers(a);
        let second = self.get_followers(b);
        common_identities(&first, &second)
    }

    /// Makes `follower` follow `followee`.
    pub fn follow_user(&mut self, follower: &Identity, followee: &Identity, now: u64) -> (r: Result<
        (),
        SocialError,
    >)
        requires
            old(self).wf(),
        ensures
            final(self).wf(),
            match r {
                Ok(_) => {
                    &&& old(self).follow_verdict(follower@, followee@, now) is Ok
                    &&& final(self).follows() == old(self).follows().insert(
                        (follower@, followee@),
                        FollowView { follower: follower@, following: followee@, created_at: now },
                    )
                    &&& final(self).followers_of(followee@) == old(self).followers_of(
                        followee@,
                    ).push(follower@)
                    &&& final(self).following_of(follower@) == old(self).following_of(
                        follower@,
                    ).push(followee@)
                    &&& forall|x: Seq<u8>|
                        x != followee@ ==> #[trigger] final(self).followers_of(x) == old(
                            self,
                        ).followers_of(x)
                    &&& forall|x: Seq<u8>|
                        x != follower@ ==> #[trigger] final(self).following_of(x) == old(
                            self,
                        ).following_of(x)
                },
                Err(e) => old(self).follow_verdict(follower@, followee@, now) === Err(e)
                    && *final(self) == *old(self),
            },
    {
        if follower.is_anonymous() {
            return Err(SocialError::Unauthenticated);
        }
        if follower.same_as(followee) {
            return Err(SocialError::SelfFollow);
        }
        let key = edge_key_bytes(follower, followee);
        if table_has(&self.edges, &key) {
            return Err(SocialError::AlreadyFollowing);
        }
        let record = Follow {
            follower: follower.clone(),
            following: followee.clone(),
            created_at: now,
        };
        let value = follow_to_bytes(&record);
        let mut fans = read_identities(&self.followers, &followee.bytes);
        let ghost fans0 = identities_view(fans@);
        fans.push(follower.clone());
        assert(identities_view(fans@) =~= fans0.push(follower@));
        let fans_bytes = identities_to_bytes(&fans);
        let mut idols = read_identities(&self.following, &follower.bytes);
        let ghost idols0 = identities_view(idols@);
        idols.push(followee.clone());
        assert(identities_view(idols@) =~= idols0.push(followee@));
        let idols_bytes = identities_to_bytes(&idols);
        if !fits(&value) || !fits(&fans_bytes) || !fits(&idols_bytes) {
            return Err(SocialError::CapacityExceeded);
        }
        proof {
            assert(follow_fields(record@).drop_last() =~= seq![follower@, followee@]);
            lemma_frame_holds(follow_fields(record@), 0);
            lemma_frame_holds(follow_fields(record@), 1);
        }
        table_insert(&mut self.edges, key, value);
        table_insert(&mut self.followers, followee.to_bytes(), fans_bytes);
        table_insert(&mut self.following, follower.to_bytes(), idols_bytes);
        proof {
            lemma_follow_agrees(
                table_entries(old(self).edges),
                table_entries(old(self).followers),
                table_entries(old(self).following),
                follower@,
                followee@,
                value@,
            );
            assert(self.follows() =~= old(self).follows().insert(
                (follower@, followee@),
                FollowView { follower: follower@, following: followee@, created_at: now },
            )) by {
                assert forall|e: (Seq<u8>, Seq<u8>)|
                    plain(e.0) && plain(e.1) && edge_key(e.0, e.1) == edge_key(
                        follower@,
                        followee@,
                    ) implies e == (follower@, followee@) by {
                    lemma_edge_key_injective(e.0, e.1, follower@, followee@);
                }
            }
        }
        Ok(())
    }

    /// Makes `follower` follow `followee` no longer.
    pub fn unfollow_user(&mut self, follower: &Identity, followee: &Identity) -> (r: Result<
        (),
        SocialError,
    >)
        requires
            old(self).wf(),
        ensures
            final(self).wf(),
            match r {
                Ok(_) => {
                    &&& old(self).unfollow_verdict(follower@, followee@) is Ok
                    &&& final(self).follows() == old(self).follows().remove(
                        (follower@, followee@),
                    )
                    &&& final(self).followers_of(followee@) == without(
                        old(self).followers_of(followee@),
                        follower@,
                    )
                    &&& final(self).following_of(follower@) == without(
                        old(self).following_of(follower@),
                        followee@,
                    )
                    &&& forall|x: Seq<u8>|
                        x != followee@ ==> #[trigger] final(self).followers_of(x) == old(
                            self,
                        ).followers_of(x)
                    &&& forall|x: Seq<u8>|
                        x != follower@ ==> #[trigger] final(self).following_of(x) == old(
                            self,
                        ).following_of(x)
                },
                Err(e) => old(self).unfollow_verdict(follower@, followee@) === Err(e)
                    && *final(self) == *old(self),
            },
    {
        if follower.is_anonymous() {
            return Err(SocialError::Unauthenticated);
        }
        let key = edge_key_bytes(follower, followee);
        if !table_has(&self.edges, &key) {
            return Err(SocialError::NotFollowing);
        }
        let fans = read_identities(&self.followers, &followee.bytes);
        let kept_fans = drop_identity(&fans, follower);
        let fans_bytes = identities_to_bytes(&kept_fans);
        let idols = read_identities(&self.following, &follower.bytes);
        let kept_idols = drop_identity(&idols, followee);
        let idols_bytes = identities_to_bytes(&kept_idols);
        proof {
            let edges = table_entries(self.edges);
            let f = table_entries(self.followers);
            let g = table_entries(self.following);
            assert(edges.dom().contains(edge_key(follower@, followee@)));
            assert(stored_list(f, followee@).contains(follower@));
            assert(stored_list(g, follower@).contains(followee@));
            assert(f.dom().contains(followee@));
            assert(g.dom().contains(follower@));
            lemma_filter_frame(stored_list(f, followee@), differs(follower@));
            lemma_filter_frame(stored_list(g, follower@), differs(followee@));
        }
        table_remove(&mut self.edges, &key);
        table_insert(&mut self.followers, followee.to_bytes(), fans_bytes);
        table_insert(&mut self.following, follower.to_bytes(), idols_bytes);
        proof {
            lemma_unfollow_agrees(
                table_entries(old(self).edges),
                table_entries(old(self).followers),
                table_entries(old(self).following),
                follower@,
                followee@,
            );
            assert(self.follows() =~= old(self).follows().remove((follower@, followee@))) by {
                assert forall|e: (Seq<u8>, Seq<u8>)|
                    plain(e.0) && plain(e.1) && edge_key(e.0, e.1) == edge_key(
                        follower@,
                        followee@,
                    ) implies e == (follower@, followee@) by {
                    lemma_edge_key_injective(e.0, e.1, follower@, followee@);
                }
            }
        }
        Ok(())
    }

    /// Whom to suggest to `identity`, no more than `limit` of them.
    pub fn get_follow_suggestions(&self, identity: &Identity, limit: u64) -> (r: Vec<Identity>)
        ensures
            identities_view(r@) == self.suggestions(identity@, limit),
    {
        let mine = self.get_following(identity);
        let mut out: Vec<Identity> = Vec::new();
        let ghost me = identity@;
        let ghost barred = identities_view(mine@);
        let ghost empty = Seq::<Seq<u8>>::empty();
        proof {
            assert(identities_view(out@) =~= empty);
            assert(barred.take(0) =~= empty);
            lemma_picked_grows(empty, self.second_hop(barred), me, barred);
        }
        if limit == 0 {
            assert(picked(empty, self.second_hop(barred), me, barred).take(0) =~= empty);
            return out;
        }
        let mut i: usize = 0;
        while i < mine.len()
            invariant
                0 <= i <= mine.len(),
                me == identity@,
                barred == identities_view(mine@),
                barred == self.following_of(me),
                empty == Seq::<Seq<u8>>::empty(),
                identities_view(out@) == picked(
                    empty,
                    self.second_hop(barred.take(i as int)),
                    me,
                    barred,
                ),
                out@.len() < limit,
            decreases mine.len() - i,
        {
            let theirs = self.get_following(&mine[i]);
            let ghost base = self.second_hop(barred.take(i as int));
            let ghost list = identities_view(theirs@);
            let ghost rest = barred.skip(i as int + 1);
            proof {
                assert(barred.take(i as int + 1).drop_last() =~= barred.take(i as int));
                assert(barred.take(i as int + 1).last() == mine@[i as int]@);
                assert(self.second_hop(barred.take(i as int + 1)) == base + list);
                assert(list.take(0) =~= empty);
                assert(base + list.take(0) =~= base);
                assert(barred.take(i as int + 1) + rest =~= barred);
                self.lemma_second_hop_concat(barred.take(i as int + 1), rest);
            }
            let mut j: usize = 0;
            while j < theirs.len()
                invariant
                    0 <= j <= theirs.len(),
                    0 <= i < mine.len(),
                    me == identity@,
                    barred == identities_view(mine@),
                    barred == self.following_of(me),
                    list == identities_view(theirs@),
                    empty == Seq::<Seq<u8>>::empty(),
                    self.second_hop(barred) == base + list + self.second_hop(rest),
                    identities_view(out@) == picked(empty, base + list.take(j as int), me, barred),
                    out@.len() < limit,
                decreases theirs.len() - j,
            {
                let candidate = &theirs[j];
                proof {
                    assert((base + list.take(j as int + 1)).drop_last() =~= base + list.take(
                        j as int,
                    ));
                    assert((base + list.take(j as int + 1)).last() == candidate@);
                }
                if !candidate.same_as(identity) && !listed(&mine, candidate) && !listed(
                    &out,
                    candidate,
                ) {
                    let ghost before = identities_view(out@);
                    out.push(candidate.clone());
                    assert(identities_view(out@) =~= before.push(candidate@));
                    if out.len() as u64 >= limit {
                        proof {
                            let seen = base + list.take(j as int + 1);
                            let unseen = list.skip(j as int + 1) + self.second_hop(rest);
                            assert(seen + unseen =~= self.second_hop(barred)) by {
                                assert(list.take(j as int + 1) + list.skip(j as int + 1)
                                    =~= list);
                            }
                            assert(identities_view(out@) == picked(empty, seen, me, barred));
                            lemma_picked_concat(empty, seen, unseen, me, barred);
                            lemma_picked_grows(identities_view(out@), unseen, me, barred);
                            let all = picked(empty, self.second_hop(barred), me, barred);
                            assert(all == picked(identities_view(out@), unseen, me, barred));
                            assert(identities_view(out@).len() == limit);
                            assert(all.take(limit as int) == identities_view(out@));
                            if limit >= all.len() {
                                assert(all.take(all.len() as int) =~= all);
                            }
                            assert(capped(all, limit) == identities_view(out@));
                        }
                        return out;
                    }
                }
                j += 1;
            }
            proof {
                assert(list.take(theirs@.len() as int) =~= list);
            }
            i += 1;
        }
        proof {
            assert(barred.take(mine@.len() as int) =~= barred);
        }
        out
    }

    /// The second hop from two lists in a row is the second hop from the
    /// first, then from the second.
    pub proof fn lemma_second_hop_concat(&self, x: Seq<Seq<u8>>, y: Seq<Seq<u8>>)
        ensures
            self.second_hop(x + y) == self.second_hop(x) + self.second_hop(y),
        decreases y.len(),
    {
        if y.len() == 0 {
            assert(x + y =~= x);
            assert(self.second_hop(x) + self.second_hop(y) =~= self.second_hop(x));
        } else {
            self.lemma_second_hop_concat(x, y.drop_last());
            assert((x + y).drop_last() =~= x + y.drop_last());
            assert((x + y).last() == y.last());
            assert(self.second_hop(x + y) =~= self.second_hop(x) + self.second_hop(y));
        }
    }
}

/// The key of the edge from `a` to `b`.
pub fn edge_key_bytes(a: &Identity, b: &Identity) -> (r: Vec<u8>)
    ensures
        r@ == edge_key(a@, b@),
        plain(a@),
        plain(b@),
{
    let mut fields: Vec<Vec<u8>> = Vec::new();
    fields.push(a.to_bytes());
    fields.push(b.to_bytes());
    assert(fields_view(fields@) =~= seq![a@, b@]);
    assert(fields@[0].len() == fields@[0]@.len());
    assert(fields@[1].len() == fields@[1]@.len());
    frame_fields(&fields)
}

/// The bytes under which an edge is stored.
pub fn follow_to_bytes(f: &Follow) -> (r: Vec<u8>)
    ensures
        r@ == follow_bytes(f@),
        follow_parse(r@) == Some(f@),
{
    let mut fields: Vec<Vec<u8>> = Vec::new();
    fields.push(f.follower.to_bytes());
    fields.push(f.following.to_bytes());
    fields.push(u64_to_le_bytes(f.created_at));
    proof {
        assert(fields_view(fields@) =~= follow_fields(f@));
        assert forall|i: int| 0 <= i < 3 implies (#[trigger] follow_fields(f@)[i]).len()
            <= u64::MAX by {
            assert(fields_view(fields@)[i] == fields@[i]@);
            assert(fields@[i].len() == fields@[i]@.len());
        }
        lemma_unframe_frame(follow_fields(f@));
        lemma_auto_spec_u64_to_from_le_bytes();
    }
    frame_fields(&fields)
}

/// The tables still agree once an edge that was not there is put in, with
/// its two list entries.
proof fn lemma_follow_agrees(
    edges: Map<Seq<u8>, Seq<u8>>,
    fans: Map<Seq<u8>, Seq<u8>>,
    idols: Map<Seq<u8>, Seq<u8>>,
    a: Seq<u8>,
    b: Seq<u8>,
    value: Seq<u8>,
)
    requires
        tables_agree(edges, fans, idols),
        plain(a),
        plain(b),
        short(a),
        short(b),
        a != b,
        a != anonymous_bytes(),
        !edges.dom().contains(edge_key(a, b)),
        follow_parse(value) is Some,
        follow_parse(value)->0.follower == a,
        follow_parse(value)->0.following == b,
        short(frame(stored_list(fans, b).push(a))),
        short(frame(stored_list(idols, a).push(b))),
        writable(stored_list(fans, b).push(a)),
        writable(stored_list(idols, a).push(b)),
    ensures
        tables_agree(
            edges.insert(edge_key(a, b), value),
            fans.insert(b, frame(stored_list(fans, b).push(a))),
            idols.insert(a, frame(stored_list(idols, a).push(b))),
        ),
        stored_list(fans.insert(b, frame(stored_list(fans, b).push(a))), b) == stored_list(
            fans,
            b,
        ).push(a),
        stored_list(idols.insert(a, frame(stored_list(idols, a).push(b))), a) == stored_list(
            idols,
            a,
        ).push(b),
{
    let edges1 = edges.insert(edge_key(a, b), value);
    let fans1 = fans.insert(b, frame(stored_list(fans, b).push(a)));
    let idols1 = idols.insert(a, frame(stored_list(idols, a).push(b)));
    lemma_unframe_frame(stored_list(fans, b).push(a));
    lemma_unframe_frame(stored_list(idols, a).push(b));
    assert forall|id: Seq<u8>| id != b implies stored_list(fans1, id) == stored_list(fans, id) by {}
    assert forall|id: Seq<u8>| id != a implies stored_list(idols1, id) == stored_list(
        idols,
        id,
    ) by {}
    assert forall|id: Seq<u8>, x: Seq<u8>| #[trigger]
        stored_list(fans1, id).contains(x) implies plain(x) && plain(id) && edges1.dom().contains(
        edge_key(x, id),
    ) by {
        if id == b {
            lemma_contains_push(stored_list(fans, b), a, x);
            if x != a {
                assert(stored_list(fans, id).contains(x));
            }
        } else {
            assert(stored_list(fans, id).contains(x));
        }
    }
    assert forall|id: Seq<u8>, x: Seq<u8>| #[trigger]
        stored_list(idols1, id).contains(x) implies plain(x) && plain(id) && edges1.dom().contains(
        edge_key(id, x),
    ) by {
        if id == a {
            lemma_contains_push(stored_list(idols, a), b, x);
            if x != b {
                assert(stored_list(idols, id).contains(x));
            }
        } else {
            assert(stored_list(idols, id).contains(x));
        }
    }
    assert forall|id: Seq<u8>| (#[trigger] stored_list(fans1, id)).no_duplicates() by {
        if id == b {
            if stored_list(fans, b).contains(a) {
                assert(edges.dom().contains(edge_key(a, b)));
            }
            assert(stored_list(fans, b).no_duplicates());
            lemma_push_no_duplicates(stored_list(fans, b), a);
        } else {
            assert(stored_list(fans, id).no_duplicates());
        }
    }
    assert forall|id: Seq<u8>| (#[trigger] stored_list(idols1, id)).no_duplicates() by {
        if id == a {
            if stored_list(idols, a).contains(b) {
                assert(edges.dom().contains(edge_key(a, b)));
            }
            assert(stored_list(idols, a).no_duplicates());
            lemma_push_no_duplicates(stored_list(idols, a), b);
        } else {
            assert(stored_list(idols, id).no_duplicates());
        }
    }
    assert forall|c: Seq<u8>, d: Seq<u8>|
        plain(c) && plain(d) && #[trigger] edges1.dom().contains(edge_key(c, d)) implies {
        &&& follow_parse(edges1[edge_key(c, d)]) is Some
        &&& follow_parse(edges1[edge_key(c, d)])->0.follower == c
        &&& follow_parse(edges1[edge_key(c, d)])->0.following == d
        &&& c != d
        &&& c != anonymous_bytes()
        &&& stored_list(idols1, c).contains(d)
        &&& stored_list(fans1, d).contains(c)
    } by {
        if edge_key(c, d) == edge_key(a, b) {
            lemma_edge_key_injective(c, d, a, b);
            lemma_contains_push(stored_list(idols, a), b, b);
            lemma_contains_push(stored_list(fans, b), a, a);
        } else {
            assert(edges.dom().contains(edge_key(c, d)));
            lemma_contains_push(stored_list(idols, a), b, d);
            lemma_contains_push(stored_list(fans, b), a, c);
        }
    }
    assert forall|id: Seq<u8>| #[trigger] fans1.dom().contains(id) implies {
        &&& short(id)
        &&& short(fans1[id])
        &&& fans1[id] == frame(stored_list(fans1, id))
    } by {
        if id != b {
            assert(fans.dom().contains(id));
        }
    }
    assert forall|id: Seq<u8>| #[trigger] idols1.dom().contains(id) implies {
        &&& short(id)
        &&& short(idols1[id])
        &&& idols1[id] == frame(stored_list(idols1, id))
    } by {
        if id != a {
            assert(idols.dom().contains(id));
        }
    }
}

/// The tables still agree once an edge is taken out, with its two list
/// entries.
proof fn lemma_unfollow_agrees(
    edges: Map<Seq<u8>, Seq<u8>>,
    fans: Map<Seq<u8>, Seq<u8>>,
    idols: Map<Seq<u8>, Seq<u8>>,
    a: Seq<u8>,
    b: Seq<u8>,
)
    requires
        tables_agree(edges, fans, idols),
        plain(a),
        plain(b),
        edges.dom().contains(edge_key(a, b)),
        writable(without(stored_list(fans, b), a)),
        writable(without(stored_list(idols, a), b)),
    ensures
        tables_agree(
            edges.remove(edge_key(a, b)),
            fans.insert(b, frame(without(stored_list(fans, b), a))),
            idols.insert(a, frame(without(stored_list(idols, a), b))),
        ),
        stored_list(fans.insert(b, frame(without(stored_list(fans, b), a))), b) == without(
            stored_list(fans, b),
            a,
        ),
        stored_list(idols.insert(a, frame(without(stored_list(idols, a), b))), a) == without(
            stored_list(idols, a),
            b,
        ),
{
    let edges1 = edges.remove(edge_key(a, b));
    let fans1 = fans.insert(b, frame(without(stored_list(fans, b), a)));
    let idols1 = idols.insert(a, frame(without(stored_list(idols, a), b)));
    lemma_unframe_frame(without(stored_list(fans, b), a));
    lemma_unframe_frame(without(stored_list(idols, a), b));
    assert(stored_list(fans, b).contains(a));
    assert(stored_list(idols, a).contains(b));
    assert(fans.dom().contains(b));
    assert(idols.dom().contains(a));
    lemma_filter_frame(stored_list(fans, b), differs(a));
    lemma_filter_frame(stored_list(idols, a), differs(b));
    assert forall|id: Seq<u8>| id != b implies stored_list(fans1, id) == stored_list(fans, id) by {}
    assert forall|id: Seq<u8>| id != a implies stored_list(idols1, id) == stored_list(
        idols,
        id,
    ) by {}
    assert forall|id: Seq<u8>, x: Seq<u8>| #[trigger]
        stored_list(fans1, id).contains(x) implies plain(x) && plain(id) && edges1.dom().contains(
        edge_key(x, id),
    ) by {
        if id == b {
            lemma_filter_holds(stored_list(fans, b), differs(a), x);
            assert(stored_list(fans, id).contains(x));
            if edge_key(x, id) == edge_key(a, b) {
                lemma_edge_key_injective(x, id, a, b);
            }
        } else {
            assert(stored_list(fans, id).contains(x));
            if edge_key(x, id) == edge_key(a, b) {
                lemma_edge_key_injective(x, id, a, b);
            }
        }
    }
    assert forall|id: Seq<u8>, x: Seq<u8>| #[trigger]
        stored_list(idols1, id).contains(x) implies plain(x) && plain(id) && edges1.dom().contains(
        edge_key(id, x),
    ) by {
        if id == a {
            lemma_filter_holds(stored_list(idols, a), differs(b), x);
            assert(stored_list(idols, id).contains(x));
            if edge_key(id, x) == edge_key(a, b) {
                lemma_edge_key_injective(id, x, a, b);
            }
        } else {
            assert(stored_list(idols, id).contains(x));
            if edge_key(id, x) == edge_key(a, b) {
                lemma_edge_key_injective(id, x, a, b);
            }
        }
    }
    assert forall|id: Seq<u8>| (#[trigger] stored_list(fans1, id)).no_duplicates() by {
        assert(stored_list(fans, id).no_duplicates());
        if id == b {
            lemma_filter_no_duplicates(stored_list(fans, b), differs(a));
        }
    }
    assert forall|id: Seq<u8>| (#[trigger] stored_list(idols1, id)).no_duplicates() by {
        assert(stored_list(idols, id).no_duplicates());
        if id == a {
            lemma_filter_no_duplicates(stored_list(idols, a), differs(b));
        }
    }
    assert forall|c: Seq<u8>, d: Seq<u8>|
        plain(c) && plain(d) && #[trigger] edges1.dom().contains(edge_key(c, d)) implies {
        &&& follow_parse(edges1[edge_key(c, d)]) is Some
        &&& follow_parse(edges1[edge_key(c, d)])->0.follower == c
        &&& follow_parse(edges1[edge_key(c, d)])->0.following == d
        &&& c != d
        &&& c != anonymous_bytes()
        &&& stored_list(idols1, c).contains(d)
        &&& stored_list(fans1, d).contains(c)
    } by {
        assert(edges.dom().contains(edge_key(c, d)));
        lemma_filter_holds(stored_list(idols, a), differs(b), d);
        lemma_filter_holds(stored_list(fans, b), differs(a), c);
    }
    assert forall|id: Seq<u8>| #[trigger] fans1.dom().contains(id) implies {
        &&& short(id)
        &&& short(fans1[id])
        &&& fans1[id] == frame(stored_list(fans1, id))
    } by {
        assert(fans.dom().contains(id));
    }
    assert forall|id: Seq<u8>| #[trigger] idols1.dom().contains(id) implies {
        &&& short(id)
        &&& short(idols1[id])
        &&& idols1[id] == frame(stored_list(idols1, id))
    } by {
        assert(idols.dom().contains(id));
    }
}

} // verus!
