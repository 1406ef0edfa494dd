//! Posts, numbered in the order in which they are made, with those who like
//! them, and for each author the list of their posts.
use vstd::prelude::*;
use vstd::bytes::*;
use vstd::utf8::*;
use crate::codec::{
    field_sum, fields_view, frame, frame_fields, framed_len, lemma_field_sum, lemma_frame_holds,
    lemma_frame_len, lemma_unframe_frame, unframe, unframe_fields, writable,
};
use crate::error::SocialError;
use crate::identity::{anonymous_bytes, copy_identities, identities_view, listed, Identity};
use crate::lists::{
    differs, drop_id, drop_identity, fields_texts, identities_from_fields, identities_to_fields,
    ids_fields, ids_to_bytes, lemma_contains_push, lemma_filter_frame, lemma_filter_holds,
    lemma_filter_no_duplicates, lemma_ids_filter_frame, lemma_ids_round_trip,
    lemma_push_no_duplicates, lemma_texts_round_trip, other_than, read_ids, stored_ids,
    texts_fields, texts_from_fields, texts_to_fields, without,
};
use crate::table::{
    fits, short, table_entries, table_get, table_insert, table_remove, table_scan, tables_open,
    ByteTable,
};
use crate::text::{blank, copy_texts, is_blank, text_bytes, text_from_utf8, texts_view};
use crate::timeline::{
    by_authors, drawn_from, holds, is_timeline, lemma_insert_holds, lemma_timeline_unique,
    newest_first, page, page_of, place, posts_view, timeline,
};

verus! {

/// A post.
#[derive(Debug, PartialEq, Eq)]
pub struct Post {
    pub id: u64,
    pub author: Identity,
    pub content: String,
    pub media_urls: Vec<String>,
    pub created_at: u64,
    pub updated_at: u64,
    pub likes: Vec<Identity>,
    pub like_count: u64,
}

/// A post as plain values.
pub struct PostView {
    pub id: u64,
    pub author: Seq<u8>,
    pub content: Seq<char>,
    pub media_urls: Seq<Seq<char>>,
    pub created_at: u64,
    pub updated_at: u64,
    pub likes: Seq<Seq<u8>>,
    pub like_count: u64,
}

impl View for Post {
    type V = PostView;

    open spec fn view(&self) -> PostView {
        PostView {
            id: self.id,
            author: self.author@,
            content: self.content@,
            media_urls: texts_view(self.media_urls@),
            created_at: self.created_at,
            updated_at: self.updated_at,
            likes: identities_view(self.likes@),
            like_count: self.like_count,
        }
    }
}

impl Clone for Post {
    fn clone(&self) -> (r: Post)
        ensures
            r@ == self@,
    {
        Post {
            id: self.id,
            author: self.author.clone(),
            content: self.content.clone(),
            media_urls: copy_texts(&self.media_urls),
            created_at: self.created_at,
            updated_at: self.updated_at,
            likes: copy_identities(&self.likes),
            like_count: self.like_count,
        }
    }
}

/// What a new post is to hold.
#[derive(Debug, PartialEq, Eq)]
pub struct CreatePostRequest {
    pub content: String,
    pub media_urls: Vec<String>,
}

/// What is to change in a post: a field that is `None` stays as it is.
#[derive(Debug, PartialEq, Eq)]
pub struct UpdatePostRequest {
    pub content: Option<String>,
    pub media_urls: Option<Vec<String>>,
}

/// A post together with what its readers are shown of its author.
#[derive(Debug, PartialEq, Eq)]
pub struct PostWithAuthor {
    pub post: Post,
    pub author_username: String,
    pub author_display_name: String,
    pub author_avatar_url: String,
}

/// Whether nobody likes the post twice, and its count is the number of those
/// who like it.
pub open spec fn sound(p: PostView) -> bool {
    p.likes.no_duplicates() && p.like_count == p.likes.len()
}

/// The fields of a post, in the order in which they are stored. The count of
/// likes is not stored: it is the length of the list.
pub open spec fn post_fields(p: PostView) -> Seq<Seq<u8>> {
    seq![
        spec_u64_to_le_bytes(p.id),
        p.author,
        encode_utf8(p.content),
        frame(texts_fields(p.media_urls)),
        spec_u64_to_le_bytes(p.created_at),
        spec_u64_to_le_bytes(p.updated_at),
        frame(p.likes),
    ]
}

/// A post as it is stored.
pub open spec fn post_bytes(p: PostView) -> Seq<u8> {
    frame(post_fields(p))
}

/// The post that a list of fields spells, if it spells one.
pub open spec fn post_of_fields(f: Seq<Seq<u8>>) -> Option<PostView> {
    if f.len() == 7 && f[0].len() == 8 && valid_utf8(f[2]) && unframe(f[3]) is Some
        && fields_texts(unframe(f[3])->0) is Some && f[4].len() == 8 && f[5].len() == 8 && unframe(
        f[6],
    ) is Some && unframe(f[6])->0.len() <= u64::MAX {
        Some(
            PostView {
                id: spec_u64_from_le_bytes(f[0]),
                author: f[1],
                content: decode_utf8(f[2]),
                media_urls: fields_texts(unframe(f[3])->0)->0,
                created_at: spec_u64_from_le_bytes(f[4]),
                updated_at: spec_u64_from_le_bytes(f[5]),
                likes: unframe(f[6])->0,
                like_count: unframe(f[6])->0.len() as u64,
            },
        )
    } else {
        None
    }
}

/// The post that stored bytes spell, if they spell one.
pub open spec fn post_parse(bytes: Seq<u8>) -> Option<PostView> {
    match unframe(bytes) {
        Some(f) => post_of_fields(f),
        None => None,
    }
}

/// Reading a stored post gives back the post, as long as its count is right
/// and its fields are of a length that can be written down.
pub proof fn lemma_post_round_trip(p: PostView)
    requires
        writable(post_fields(p)),
        writable(texts_fields(p.media_urls)),
        writable(p.likes),
        p.like_count == p.likes.len(),
    ensures
        post_parse(post_bytes(p)) == Some(p),
{
    lemma_unframe_frame(post_fields(p));
    lemma_unframe_frame(texts_fields(p.media_urls));
    lemma_unframe_frame(p.likes);
    lemma_texts_round_trip(p.media_urls);
    lemma_auto_spec_u64_to_from_le_bytes();
    encode_utf8_valid_utf8(p.content);
    encode_utf8_decode_utf8(p.content);
}

/// How long a stored post is: 80 bytes, and the author, the content, the
/// list of media and the list of likes.
pub proof fn lemma_post_len(p: PostView)
    ensures
        post_bytes(p).len() == 80 + p.author.len() + encode_utf8(p.content).len() + framed_len(
            texts_fields(p.media_urls),
        ) + framed_len(p.likes),
{
    lemma_auto_spec_u64_to_from_le_bytes();
    let f = post_fields(p);
    lemma_frame_len(f);
    lemma_frame_len(texts_fields(p.media_urls));
    lemma_frame_len(p.likes);
    lemma_field_sum(f, 7);
    reveal_with_fuel(field_sum, 8);
}

/// The bytes under which a post is stored.
pub fn post_to_bytes(p: &Post) -> (r: Vec<u8>)
    ensures
        r@ == post_bytes(p@),
        p@.like_count == p@.likes.len() ==> post_parse(r@) == Some(p@),
{
    let mut fields: Vec<Vec<u8>> = Vec::new();
    fields.push(u64_to_le_bytes(p.id));
    fields.push(p.author.to_bytes());
    fields.push(text_bytes(&p.content));
    let media = texts_to_fields(&p.media_urls);
    fields.push(frame_fields(&media));
    fields.push(u64_to_le_bytes(p.created_at));
    fields.push(u64_to_le_bytes(p.updated_at));
    let likes = identities_to_fields(&p.likes);
    fields.push(frame_fields(&likes));
    proof {
        assert(fields_view(fields@) =~= post_fields(p@));
        assert(writable(post_fields(p@))) by {
            assert forall|i: int| 0 <= i < fields@.len() implies (#[trigger] fields_view(
                fields@,
            )[i]).len() <= u64::MAX by {
                assert(fields_view(fields@)[i] == fields@[i]@);
                assert(fields@[i].len() == fields@[i]@.len());
            }
        }
        if p@.like_count == p@.likes.len() {
            lemma_post_round_trip(p@);
        }
    }
    frame_fields(&fields)
}

/// The post that stored bytes spell; `None` where they spell none.
pub fn post_from_bytes(bytes: &Vec<u8>) -> (r: Option<Post>)
    ensures
        r is Some <==> post_parse(bytes@) is Some,
        r is Some ==> r->0@ == post_parse(bytes@)->0,
{
    let fields = match unframe_fields(bytes) {
        Some(f) => f,
        None => { return None; },
    };
    if fields.len() != 7 {
        return None;
    }
    proof {
        assert forall|i: int| 0 <= i < 7 implies fields_view(fields@)[i] == (
        #[trigger] fields@[i])@ by {}
    }
    if fields[0].len() != 8 || fields[4].len() != 8 || fields[5].len() != 8 {
        return None;
    }
    let content = match text_from_utf8(fields[2].clone()) {
        Some(t) => t,
        None => { return None; },
    };
    let media_fields = match unframe_fields(&fields[3]) {
        Some(f) => f,
        None => { return None; },
    };
    let media_urls = match texts_from_fields(&media_fields) {
        Some(t) => t,
        None => { return None; },
    };
    let like_fields = match unframe_fields(&fields[6]) {
        Some(f) => f,
        None => { return None; },
    };
    let likes = identities_from_fields(&like_fields);
    let like_count = likes.len() as u64;
    assert(identities_view(likes@).len() == likes@.len());
    Some(
        Post {
            id: u64_from_le_bytes(fields[0].as_slice()),
            author: Identity::from_bytes(fields[1].clone()),
            content,
            media_urls,
            created_at: u64_from_le_bytes(fields[4].as_slice()),
            updated_at: u64_from_le_bytes(fields[5].as_slice()),
            likes,
            like_count,
        },
    )
}

/// The key under which the post with number `id` is stored.
pub open spec fn post_key(id: u64) -> Seq<u8> {
    spec_u64_to_le_bytes(id)
}

/// The posts that a table of posts holds, by number.
pub open spec fn library(posts: Map<Seq<u8>, Seq<u8>>) -> Map<u64, PostView> {
    Map::new(
        |id: u64| posts.dom().contains(post_key(id)),
        |id: u64| post_parse(posts[post_key(id)])->0,
    )
}

/// What it means for the table of posts, the lists of the authors and the
/// counter to agree.
pub open spec fn shelves_agree(
    posts: Map<Seq<u8>, Seq<u8>>,
    index: Map<Seq<u8>, Seq<u8>>,
    counter: u64,
) -> bool {
    &&& forall|k: Seq<u8>| #[trigger] posts.dom().contains(k) ==> k.len() == 8
    &&& forall|id: u64| #[trigger]
        posts.dom().contains(post_key(id)) ==> {
            &&& post_parse(posts[post_key(id)]) is Some
            &&& post_parse(posts[post_key(id)])->0.id == id
            &&& sound(post_parse(posts[post_key(id)])->0)
            &&& 1 <= id <= counter
            &&& post_parse(posts[post_key(id)])->0.author != anonymous_bytes()
            &&& short(posts[post_key(id)])
            &&& posts[post_key(id)] == post_bytes(post_parse(posts[post_key(id)])->0)
            &&& stored_ids(index, post_parse(posts[post_key(id)])->0.author).contains(id)
        }
    &&& forall|a: Seq<u8>| #[trigger]
        index.dom().contains(a) ==> {
            &&& short(a)
            &&& short(index[a])
            &&& index[a] == frame(ids_fields(stored_ids(index, a)))
        }
    &&& forall|a: Seq<u8>| (#[trigger] stored_ids(index, a)).no_duplicates()
    &&& forall|a: Seq<u8>, id: u64| #[trigger]
        stored_ids(index, a).contains(id) ==> posts.dom().contains(post_key(id)) && post_parse(
            posts[post_key(id)],
        )->0.author == a
}

/// The post that `author` gets when `request` is granted at time `now`.
pub open spec fn fresh_post(
    id: u64,
    author: Seq<u8>,
    request: CreatePostRequest,
    now: u64,
) -> PostView {
    PostView {
        id,
        author,
        content: request.content@,
        media_urls: texts_view(request.media_urls@),
        created_at: now,
        updated_at: now,
        likes: Seq::empty(),
        like_count: 0,
    }
}

/// A post after `request` was applied to it at time `now`.
pub open spec fn revised_post(p: PostView, request: UpdatePostRequest, now: u64) -> PostView {
    PostView {
        content: match request.content {
            Some(t) => t@,
            None => p.content,
        },
        media_urls: match request.media_urls {
            Some(m) => texts_view(m@),
            None => p.media_urls,
        },
        updated_at: now,
        ..p
    }
}

/// A post once `x` likes it: as it was, where `x` did so already.
pub open spec fn liked(p: PostView, x: Seq<u8>) -> PostView {
    if p.likes.contains(x) {
        p
    } else {
        PostView { likes: p.likes.push(x), like_count: (p.likes.len() + 1) as u64, ..p }
    }
}

/// A post once `x` likes it no longer: as it was, where `x` never did.
pub open spec fn unliked(p: PostView, x: Seq<u8>) -> PostView {
    if p.likes.contains(x) {
        PostView { likes: without(p.likes, x), like_count: without(p.likes, x).len() as u64, ..p }
    } else {
        p
    }
}

/// Liking a post twice is liking it once.
pub proof fn lemma_like_twice(p: PostView, x: Seq<u8>)
    ensures
        liked(liked(p, x), x) == liked(p, x),
        liked(p, x).likes.contains(x),
{
    lemma_contains_push(p.likes, x, x);
}

/// A like keeps a post sound, and adds one to the count where it is new.
pub proof fn lemma_like_sound(p: PostView, x: Seq<u8>)
    requires
        sound(p),
        p.likes.len() < u64::MAX,
    ensures
        sound(liked(p, x)),
        !p.likes.contains(x) ==> liked(p, x).like_count == p.like_count + 1,
        p.likes.contains(x) ==> liked(p, x).like_count == p.like_count,
{
    if !p.likes.contains(x) {
        lemma_push_no_duplicates(p.likes, x);
    }
}

/// Taking a like back keeps a post sound; where there was none to take
/// back, the post is as it was.
pub proof fn lemma_unlike_sound(p: PostView, x: Seq<u8>)
    requires
        sound(p),
    ensures
        sound(unliked(p, x)),
        !p.likes.contains(x) ==> unliked(p, x) == p,
        !unliked(p, x).likes.contains(x),
{
    lemma_filter_no_duplicates(p.likes, differs(x));
    lemma_filter_holds(p.likes, differs(x), x);
    p.likes.lemma_filter_len(differs(x));
}

/// Whether the post whose key is the entry `k` of a scan, for some `k`
/// below `upto`, has the number `id`.
pub open spec fn seen(entries: Seq<(Vec<u8>, Vec<u8>)>, upto: int, id: u64) -> bool {
    exists|k: int| 0 <= k < upto && (#[trigger] entries[k]).0@ == post_key(id)
}

/// The tables still agree once the bytes of a post are replaced by those of
/// a sound post with the same number and the same author.
proof fn lemma_replace_agrees(
    posts: Map<Seq<u8>, Seq<u8>>,
    index: Map<Seq<u8>, Seq<u8>>,
    counter: u64,
    id: u64,
    q: PostView,
    bytes: Seq<u8>,
)
    requires
        shelves_agree(posts, index, counter),
        posts.dom().contains(post_key(id)),
        post_parse(bytes) == Some(q),
        bytes == post_bytes(q),
        short(bytes),
        q.id == id,
        sound(q),
        q.author == post_parse(posts[post_key(id)])->0.author,
    ensures
        shelves_agree(posts.insert(post_key(id), bytes), index, counter),
        library(posts.insert(post_key(id), bytes)) == library(posts).insert(id, q),
{
    lemma_auto_spec_u64_to_from_le_bytes();
    let posts1 = posts.insert(post_key(id), bytes);
    assert forall|k: Seq<u8>| #[trigger] posts1.dom().contains(k) implies k.len() == 8 by {
        if k != post_key(id) {
            assert(posts.dom().contains(k));
        }
    }
    assert forall|other: u64| #[trigger] posts1.dom().contains(post_key(other)) implies {
        &&& post_parse(posts1[post_key(other)]) is Some
        &&& post_parse(posts1[post_key(other)])->0.id == other
        &&& sound(post_parse(posts1[post_key(other)])->0)
        &&& 1 <= other <= counter
        &&& post_parse(posts1[post_key(other)])->0.author != anonymous_bytes()
        &&& short(posts1[post_key(other)])
        &&& posts1[post_key(other)] == post_bytes(post_parse(posts1[post_key(other)])->0)
        &&& stored_ids(index, post_parse(posts1[post_key(other)])->0.author).contains(other)
    } by {
        assert(posts.dom().contains(post_key(other)));
    }
    assert forall|a: Seq<u8>, other: u64| #[trigger]
        stored_ids(index, a).contains(other) implies posts1.dom().contains(post_key(other))
        && post_parse(posts1[post_key(other)])->0.author == a by {
        assert(posts.dom().contains(post_key(other)));
    }
    assert(library(posts1) =~= library(posts).insert(id, q));
}

/// The tables still agree once a new post is put in under the next number,
/// and its number at the end of its author's list.
proof fn lemma_create_agrees(
    posts: Map<Seq<u8>, Seq<u8>>,
    index: Map<Seq<u8>, Seq<u8>>,
    counter: u64,
    q: PostView,
    bytes: Seq<u8>,
)
    requires
        shelves_agree(posts, index, counter),
        counter < u64::MAX,
        q.id == counter + 1,
        post_parse(bytes) == Some(q),
        bytes == post_bytes(q),
        short(bytes),
        sound(q),
        q.author != anonymous_bytes(),
        short(q.author),
        short(frame(ids_fields(stored_ids(index, q.author).push(q.id)))),
    ensures
        shelves_agree(
            posts.insert(post_key(q.id), bytes),
            index.insert(q.author, frame(ids_fields(stored_ids(index, q.author).push(q.id)))),
            q.id,
        ),
        library(posts.insert(post_key(q.id), bytes)) == library(posts).insert(q.id, q),
        stored_ids(
            index.insert(q.author, frame(ids_fields(stored_ids(index, q.author).push(q.id)))),
            q.author,
        ) == stored_ids(index, q.author).push(q.id),
        forall|a: Seq<u8>|
            a != q.author ==> #[trigger] stored_ids(
                index.insert(q.author, frame(ids_fields(stored_ids(index, q.author).push(q.id)))),
                a,
            ) == stored_ids(index, a),
{
    lemma_auto_spec_u64_to_from_le_bytes();
    let list = stored_ids(index, q.author);
    let posts1 = posts.insert(post_key(q.id), bytes);
    let index1 = index.insert(q.author, frame(ids_fields(list.push(q.id))));
    lemma_ids_round_trip(list.push(q.id));
    lemma_unframe_frame(ids_fields(list.push(q.id)));
    assert(stored_ids(index1, q.author) == list.push(q.id));
    assert forall|a: Seq<u8>| a != q.author implies stored_ids(index1, a) == stored_ids(
        index,
        a,
    ) by {}
    if posts.dom().contains(post_key(q.id)) {
        assert(q.id <= counter);
    }
    if list.contains(q.id) {
        assert(posts.dom().contains(post_key(q.id)));
    }
    assert forall|k: Seq<u8>| #[trigger] posts1.dom().contains(k) implies k.len() == 8 by {
        if k != post_key(q.id) {
            assert(posts.dom().contains(k));
        }
    }
    assert forall|other: u64| #[trigger] posts1.dom().contains(post_key(other)) implies {
        &&& post_parse(posts1[post_key(other)]) is Some
        &&& post_parse(posts1[post_key(other)])->0.id == other
        &&& sound(post_parse(posts1[post_key(other)])->0)
        &&& 1 <= other <= q.id
        &&& post_parse(posts1[post_key(other)])->0.author != anonymous_bytes()
        &&& short(posts1[post_key(other)])
        &&& posts1[post_key(other)] == post_bytes(post_parse(posts1[post_key(other)])->0)
        &&& stored_ids(index1, post_parse(posts1[post_key(other)])->0.author).contains(other)
    } by {
        if other == q.id {
            lemma_contains_push(list, q.id, q.id);
        } else {
            assert(posts.dom().contains(post_key(other)));
            let a = post_parse(posts[post_key(other)])->0.author;
            assert(stored_ids(index, a).contains(other));
            if a == q.author {
                lemma_contains_push(list, q.id, other);
            }
        }
    }
    assert forall|a: Seq<u8>| #[trigger] index1.dom().contains(a) implies {
        &&& short(a)
        &&& short(index1[a])
        &&& index1[a] == frame(ids_fields(stored_ids(index1, a)))
    } by {
        if a != q.author {
            assert(index.dom().contains(a));
        }
    }
    assert forall|a: Seq<u8>| (#[trigger] stored_ids(index1, a)).no_duplicates() by {
        assert(stored_ids(index, a).no_duplicates());
        if a == q.author {
            lemma_push_no_duplicates(list, q.id);
        }
    }
    assert forall|a: Seq<u8>, other: u64| #[trigger]
        stored_ids(index1, a).contains(other) implies posts1.dom().contains(post_key(other))
        && post_parse(posts1[post_key(other)])->0.author == a by {
        if a == q.author {
            lemma_contains_push(list, q.id, other);
            if other != q.id {
                assert(stored_ids(index, a).contains(other));
            }
        } else {
            assert(stored_ids(index, a).contains(other));
        }
    }
    assert(library(posts1) =~= library(posts).insert(q.id, q));
}

/// The tables still agree once a post is taken out, and its number out of
/// its author's list.
proof fn lemma_delete_agrees(
    posts: Map<Seq<u8>, Seq<u8>>,
    index: Map<Seq<u8>, Seq<u8>>,
    counter: u64,
    id: u64,
)
    requires
        shelves_agree(posts, index, counter),
        posts.dom().contains(post_key(id)),
    ensures
        ({
            let a = post_parse(posts[post_key(id)])->0.author;
            let kept = stored_ids(index, a).filter(other_than(id));
            let index1 = index.insert(a, frame(ids_fields(kept)));
            &&& short(a)
            &&& short(frame(ids_fields(kept)))
            &&& shelves_agree(posts.remove(post_key(id)), index1, counter)
            &&& library(posts.remove(post_key(id))) == library(posts).remove(id)
            &&& stored_ids(index1, a) == kept
            &&& forall|b: Seq<u8>|
                b != a ==> #[trigger] stored_ids(index1, b) == stored_ids(index, b)
        }),
{
    lemma_auto_spec_u64_to_from_le_bytes();
    let a = post_parse(posts[post_key(id)])->0.author;
    let list = stored_ids(index, a);
    let kept = list.filter(other_than(id));
    let posts1 = posts.remove(post_key(id));
    let index1 = index.insert(a, frame(ids_fields(kept)));
    assert(list.contains(id));
    assert(index.dom().contains(a));
    lemma_ids_filter_frame(list, other_than(id));
    lemma_ids_round_trip(kept);
    lemma_unframe_frame(ids_fields(kept));
    assert(stored_ids(index1, a) == kept);
    assert forall|b: Seq<u8>| b != a implies stored_ids(index1, b) == stored_ids(index, b) by {}
    assert forall|k: Seq<u8>| #[trigger] posts1.dom().contains(k) implies k.len() == 8 by {
        assert(posts.dom().contains(k));
    }
    assert forall|other: u64| #[trigger] posts1.dom().contains(post_key(other)) implies {
        &&& post_parse(posts1[post_key(other)]) is Some
        &&& post_parse(posts1[post_key(other)])->0.id == other
        &&& sound(post_parse(posts1[post_key(other)])->0)
        &&& 1 <= other <= counter
        &&& post_parse(posts1[post_key(other)])->0.author != anonymous_bytes()
        &&& short(posts1[post_key(other)])
        &&& posts1[post_key(other)] == post_bytes(post_parse(posts1[post_key(other)])->0)
        &&& stored_ids(index1, post_parse(posts1[post_key(other)])->0.author).contains(other)
    } by {
        assert(posts.dom().contains(post_key(other)));
        let b = post_parse(posts[post_key(other)])->0.author;
        assert(stored_ids(index, b).contains(other));
        if b == a {
            lemma_filter_holds(list, other_than(id), other);
        }
    }
    assert forall|b: Seq<u8>| #[trigger] index1.dom().contains(b) implies {
        &&& short(b)
        &&& short(index1[b])
        &&& index1[b] == frame(ids_fields(stored_ids(index1, b)))
    } by {
        assert(index.dom().contains(b));
    }
    assert forall|b: Seq<u8>| (#[trigger] stored_ids(index1, b)).no_duplicates() by {
        assert(stored_ids(index, b).no_duplicates());
        if b == a {
            lemma_filter_no_duplicates(list, other_than(id));
        }
    }
    assert forall|b: Seq<u8>, other: u64| #[trigger]
        stored_ids(index1, b).contains(other) implies posts1.dom().contains(post_key(other))
        && post_parse(posts1[post_key(other)])->0.author == b by {
        if b == a {
            lemma_filter_holds(list, other_than(id), other);
        }
        assert(stored_ids(index, b).contains(other));
    }
    assert(library(posts1) =~= library(posts).remove(id));
}

/// The posts, the list of each author's posts, and the number last given
/// out.
pub struct PostStore {
    posts: ByteTable,
    index: ByteTable,
    counter: u64,
}

impl PostStore {
    /// The posts, by number.
    pub closed spec fn posts(&self) -> Map<u64, PostView> {
        library(table_entries(self.posts))
    }

    /// The numbers of the posts of `author`, in the order in which they were
    /// made.
    pub closed spec fn authored(&self, author: Seq<u8>) -> Seq<u64> {
        stored_ids(table_entries(self.index), author)
    }

    /// The number of the post made last; 0 before the first.
    pub closed spec fn issued(&self) -> u64 {
        self.counter
    }

    /// The posts, the lists and the counter agree.
    pub closed spec fn wf(&self) -> bool {
        shelves_agree(table_entries(self.posts), table_entries(self.index), self.counter)
    }

    /// The posts with the numbers `ids`, in that order.
    pub open spec fn shelf(&self, ids: Seq<u64>) -> Seq<PostView> {
        ids.map_values(|id: u64| self.posts()[id])
    }

    /// All posts, or those of `authors` only.
    pub open spec fn chosen(&self, everyone: bool, authors: Seq<Seq<u8>>) -> Map<u64, PostView> {
        if everyone {
            self.posts()
        } else {
            by_authors(self.posts(), authors)
        }
    }

    /// Whether the tables can hold the post `p` as well.
    pub open spec fn room_for_post(&self, p: PostView) -> bool {
        short(post_bytes(p)) && short(frame(ids_fields(self.authored(p.author).push(p.id))))
    }

    /// What `publish` answers in a given store, where `blank` says whether
    /// the content is empty once trimmed.
    pub open spec fn publish_verdict(
        &self,
        identity: Seq<u8>,
        request: CreatePostRequest,
        now: u64,
        blank: bool,
    ) -> Result<PostView, SocialError> {
        if identity == anonymous_bytes() {
            Err(SocialError::Unauthenticated)
        } else if blank {
            Err(SocialError::InvalidContent)
        } else if self.issued() == u64::MAX {
            Err(SocialError::CapacityExceeded)
        } else if !self.room_for_post(
            fresh_post((self.issued() + 1) as u64, identity, request, now),
        ) {
            Err(SocialError::CapacityExceeded)
        } else {
            Ok(fresh_post((self.issued() + 1) as u64, identity, request, now))
        }
    }

    /// What `create_post` answers in a given store.
    pub open spec fn create_post_verdict(
        &self,
        identity: Seq<u8>,
        request: CreatePostRequest,
        now: u64,
    ) -> Result<PostView, SocialError> {
        self.publish_verdict(identity, request, now, blank(request.content@))
    }

    /// What `revise` answers in a given store, where `blank` says whether
    /// new content is given and is empty once trimmed.
    pub open spec fn revise_verdict(
        &self,
        identity: Seq<u8>,
        id: u64,
        request: UpdatePostRequest,
        now: u64,
        blank: bool,
    ) -> Result<PostView, SocialError> {
        if !self.posts().dom().contains(id) {
            Err(SocialError::NotFound)
        } else if self.posts()[id].author != identity {
            Err(SocialError::Forbidden)
        } else if blank {
            Err(SocialError::InvalidContent)
        } else if !short(post_bytes(revised_post(self.posts()[id], request, now))) {
            Err(SocialError::CapacityExceeded)
        } else {
            Ok(revised_post(self.posts()[id], request, now))
        }
    }

    /// What `update_post` answers in a given store.
    pub open spec fn update_post_verdict(
        &self,
        identity: Seq<u8>,
        id: u64,
        request: UpdatePostRequest,
        now: u64,
    ) -> Result<PostView, SocialError> {
        self.revise_verdict(
            identity,
            id,
            request,
            now,
            request.content is Some && blank(request.content->0@),
        )
    }

    /// What `delete_post` answers in a given store.
    pub open spec fn delete_post_verdict(&self, identity: Seq<u8>, id: u64) -> Result<
        (),
        SocialError,
    > {
        if !self.posts().dom().contains(id) {
            Err(SocialError::NotFound)
        } else if self.posts()[id].author != identity {
            Err(SocialError::Forbidden)
        } else {
            Ok(())
        }
    }

    /// What `like_post` answers in a given store.
    pub open spec fn like_post_verdict(&self, identity: Seq<u8>, id: u64) -> Result<
        PostView,
        SocialError,
    > {
        if identity == anonymous_bytes() {
            Err(SocialError::Unauthenticated)
        } else if !self.posts().dom().contains(id) {
            Err(SocialError::NotFound)
        } else if self.posts()[id].likes.contains(identity) {
            Ok(self.posts()[id])
        } else if !short(post_bytes(liked(self.posts()[id], identity))) {
            Err(SocialError::CapacityExceeded)
        } else {
            Ok(liked(self.posts()[id], identity))
        }
    }

    /// What `unlike_post` answers in a given store.
    pub open spec fn unlike_post_verdict(&self, identity: Seq<u8>, id: u64) -> Result<
        PostView,
        SocialError,
    > {
        if identity == anonymous_bytes() {
            Err(SocialError::Unauthenticated)
        } else if !self.posts().dom().contains(id) {
            Err(SocialError::NotFound)
        } else {
            Ok(unliked(self.posts()[id], identity))
        }
    }

    /// Every post has a number that was given out, is sound, stands under
    /// its own number, and belongs to an author who is not anonymous.
    pub proof fn lemma_posts_sound(&self, id: u64)
        requires
            self.wf(),
            self.posts().dom().contains(id),
        ensures
            1 <= id <= self.issued(),
            self.posts()[id].id == id,
            sound(self.posts()[id]),
            self.posts()[id].author != anonymous_bytes(),
    {
        assert(table_entries(self.posts).dom().contains(post_key(id)));
    }

    /// A number that was not given out yet belongs to no post.
    pub proof fn lemma_numbers_fresh(&self, id: u64)
        requires
            self.wf(),
            id > self.issued(),
        ensures
            !self.posts().dom().contains(id),
            forall|a: Seq<u8>| !(#[trigger] self.authored(a)).contains(id),
    {
        if self.posts().dom().contains(id) {
            self.lemma_posts_sound(id);
        }
        assert forall|a: Seq<u8>| !(#[trigger] self.authored(a)).contains(id) by {
            self.lemma_index_mirrors(a, id);
        }
    }

    /// The list of an author holds the numbers of that author's posts, each
    /// once, and no others.
    pub proof fn lemma_index_mirrors(&self, author: Seq<u8>, id: u64)
        requires
            self.wf(),
        ensures
            self.authored(author).contains(id) <==> (self.posts().dom().contains(id)
                && self.posts()[id].author == author),
            self.authored(author).no_duplicates(),
    {
        if self.posts().dom().contains(id) {
            assert(table_entries(self.posts).dom().contains(post_key(id)));
        }
    }

    /// A store without posts.
    pub fn new() -> (r: PostStore)
        ensures
            r.wf(),
            r.issued() == 0,
            r.posts() == Map::<u64, PostView>::empty(),
            forall|a: Seq<u8>| #[trigger] r.authored(a) == Seq::<u64>::empty(),
    {
        let tables = tables_open();
        let r = PostStore { posts: tables.first, index: tables.second, counter: 0 };
        assert(r.posts() =~= Map::<u64, PostView>::empty());
        r
    }

    /// Makes a post of `identity`, under the next number, unless `blank` says
    /// that its content is empty once trimmed.
    pub fn publish(
        &mut self,
        identity: &Identity,
        request: CreatePostRequest,
        now: u64,
        blank: bool,
    ) -> (r: Result<Post, SocialError>)
        requires
            old(self).wf(),
        ensures
            final(self).wf(),
            match r {
                Ok(p) => {
                    &&& old(self).publish_verdict(identity@, request, now, blank) === Ok(p@)
                    &&& p@.id == old(self).issued() + 1
                    &&& final(self).issued() == p@.id
                    &&& final(self).posts() == old(self).posts().insert(p@.id, p@)
                    &&& final(self).authored(identity@) == old(self).authored(identity@).push(
                        p@.id,
                    )
                    &&& forall|a: Seq<u8>|
                        a != identity@ ==> #[trigger] final(self).authored(a) == old(
                            self,
                        ).authored(a)
                },
                Err(e) => old(self).publish_verdict(identity@, request, now, blank) === Err(e)
                    && *final(self) == *old(self),
            },
    {
        if identity.is_anonymous() {
            return Err(SocialError::Unauthenticated);
        }
        if blank {
            return Err(SocialError::InvalidContent);
        }
        if self.counter == u64::MAX {
            return Err(SocialError::CapacityExceeded);
        }
        let id: u64 = self.counter + 1;
        let ghost wanted = fresh_post(id, identity@, request, now);
        let likes: Vec<Identity> = Vec::new();
        assert(identities_view(likes@) =~= Seq::<Seq<u8>>::empty());
        let post = Post {
            id,
            author: identity.clone(),
            content: request.content,
            media_urls: request.media_urls,
            created_at: now,
            updated_at: now,
            likes,
            like_count: 0,
        };
        assert(post@ == wanted);
        let bytes = post_to_bytes(&post);
        let mut mine = read_ids(&self.index, &identity.bytes);
        mine.push(id);
        let index_bytes = ids_to_bytes(&mine);
        if !fits(&bytes) || !fits(&index_bytes) {
            return Err(SocialError::CapacityExceeded);
        }
        proof {
            lemma_frame_holds(post_fields(post@), 1);
            lemma_auto_spec_u64_to_from_le_bytes();
            lemma_create_agrees(
                table_entries(self.posts),
                table_entries(self.index),
                self.counter,
                post@,
                bytes@,
            );
        }
        table_insert(&mut self.posts, u64_to_le_bytes(id), bytes);
        table_insert(&mut self.index, identity.to_bytes(), index_bytes);
        self.counter = id;
        Ok(post)
    }

    /// Makes a post of `identity`, under the next number.
    pub fn create_post(&mut self, identity: &Identity, request: CreatePostRequest, now: u64) -> (r:
        Result<Post, SocialError>)
        requires
            old(self).wf(),
        ensures
            final(self).wf(),
            match r {
                Ok(p) => {
                    &&& old(self).create_post_verdict(identity@, request, now) === Ok(p@)
                    &&& p@.id == old(self).issued() + 1
                    &&& final(self).issued() == p@.id
                    &&& final(self).posts() == old(self).posts().insert(p@.id, p@)
                    &&& final(self).authored(identity@) == old(self).authored(identity@).push(
                        p@.id,
                    )
                    &&& forall|a: Seq<u8>|
                        a != identity@ ==> #[trigger] final(self).authored(a) == old(
                            self,
                        ).authored(a)
                },
                Err(e) => old(self).create_post_verdict(identity@, request, now) === Err(e)
                    && *final(self) == *old(self),
            },
    {
        let empty = is_blank(&request.content);
        self.publish(identity, request, now, empty)
    }

    /// Changes the fields of a post that `request` names, for its author,
    /// unless `blank` says that the new content is empty once trimmed.
    pub fn revise(
        &mut self,
        identity: &Identity,
        post_id: u64,
        request: UpdatePostRequest,
        now: u64,
        blank: bool,
    ) -> (r: Result<Post, SocialError>)
        requires
            old(self).wf(),
        ensures
            final(self).wf(),
            final(self).issued() == old(self).issued(),
            forall|a: Seq<u8>| #[trigger] final(self).authored(a) == old(self).authored(a),
            match r {
                Ok(p) => old(self).revise_verdict(identity@, post_id, request, now, blank) === Ok(
                    p@,
                ) && final(self).posts() == old(self).posts().insert(post_id, p@),
                Err(e) => old(self).revise_verdict(identity@, post_id, request, now, blank)
                    === Err(e) && *final(self) == *old(self),
            },
    {
        let key = u64_to_le_bytes(post_id);
        let stored = match table_get(&self.posts, &key) {
            Some(bytes) => bytes,
            None => { return Err(SocialError::NotFound); },
        };
        let mut post = match post_from_bytes(&stored) {
            Some(p) => p,
            None => { return Err(SocialError::NotFound); },
        };
        if !post.author.same_as(identity) {
            return Err(SocialError::Forbidden);
        }
        let ghost before = post@;
        let ghost wanted = revised_post(before, request, now);
        if blank {
            return Err(SocialError::InvalidContent);
        }
        if let Some(content) = request.content {
            post.content = content;
        }
        if let Some(media_urls) = request.media_urls {
            post.media_urls = media_urls;
        }
        post.updated_at = now;
        assert(post@ == wanted);
        let bytes = post_to_bytes(&post);
        if !fits(&bytes) {
            return Err(SocialError::CapacityExceeded);
        }
        proof {
            lemma_auto_spec_u64_to_from_le_bytes();
            lemma_replace_agrees(
                table_entries(self.posts),
                table_entries(self.index),
                self.counter,
                post_id,
                post@,
                bytes@,
            );
        }
        table_insert(&mut self.posts, key, bytes);
        Ok(post)
    }

    /// Changes the fields of a post that `request` names, for its author.
    pub fn update_post(
        &mut self,
        identity: &Identity,
        post_id: u64,
        request: UpdatePostRequest,
        now: u64,
    ) -> (r: Result<Post, SocialError>)
        requires
            old(self).wf(),
        ensures
            final(self).wf(),
            final(self).issued() == old(self).issued(),
            forall|a: Seq<u8>| #[trigger] final(self).authored(a) == old(self).authored(a),
            match r {
                Ok(p) => old(self).update_post_verdict(identity@, post_id, request, now) === Ok(
                    p@,
                ) && final(self).posts() == old(self).posts().insert(post_id, p@),
                Err(e) => old(self).update_post_verdict(identity@, post_id, request, now)
                    === Err(e) && *final(self) == *old(self),
            },
    {
        let empty = match &request.content {
            Some(content) => is_blank(content),
            None => false,
        };
        self.revise(identity, post_id, request, now, empty)
    }

    /// Takes a post out, for its author.
    pub fn delete_post(&mut self, identity: &Identity, post_id: u64) -> (r: Result<
        (),
        SocialError,
    >)
        requires
            old(self).wf(),
        ensures
            final(self).wf(),
            final(self).issued() == old(self).issued(),
            match r {
                Ok(_) => {
                    &&& old(self).delete_post_verdict(identity@, post_id) is Ok
                    &&& final(self).posts() == old(self).posts().remove(post_id)
                    &&& final(self).authored(identity@) == old(self).authored(identity@).filter(
                        other_than(post_id),
                    )
                    &&& forall|a: Seq<u8>|
                        a != identity@ ==> #[trigger] final(self).authored(a) == old(
                            self,
                        ).authored(a)
                },
                Err(e) => old(self).delete_post_verdict(identity@, post_id) === Err(e)
                    && *final(self) == *old(self),
            },
    {
        let key = u64_to_le_bytes(post_id);
        let stored = match table_get(&self.posts, &key) {
            Some(bytes) => bytes,
            None => { return Err(SocialError::NotFound); },
        };
        let post = match post_from_bytes(&stored) {
            Some(p) => p,
            None => { return Err(SocialError::NotFound); },
        };
        if !post.author.same_as(identity) {
            return Err(SocialError::Forbidden);
        }
        let mine = read_ids(&self.index, &identity.bytes);
        let kept = drop_id(&mine, post_id);
        let index_bytes = ids_to_bytes(&kept);
        proof {
            lemma_delete_agrees(
                table_entries(self.posts),
                table_entries(self.index),
                self.counter,
                post_id,
            );
        }
        table_remove(&mut self.posts, &key);
        table_insert(&mut self.index, identity.to_bytes(), index_bytes);
        Ok(())
    }

    /// Records that `identity` likes a post. Nothing changes where it did so
    /// already.
    pub fn like_post(&mut self, identity: &Identity, post_id: u64) -> (r: Result<Post, SocialError>)
        requires
            old(self).wf(),
        ensures
            final(self).wf(),
            final(self).issued() == old(self).issued(),
            forall|a: Seq<u8>| #[trigger] final(self).authored(a) == old(self).authored(a),
            match r {
                Ok(p) => old(self).like_post_verdict(identity@, post_id) === Ok(p@)
                    && final(self).posts() == old(self).posts().insert(post_id, p@) && (old(
                    self,
                ).posts()[post_id].likes.contains(identity@) ==> *final(self) == *old(self)),
                Err(e) => old(self).like_post_verdict(identity@, post_id) === Err(e)
                    && *final(self) == *old(self),
            },
    {
        if identity.is_anonymous() {
            return Err(SocialError::Unauthenticated);
        }
        let key = u64_to_le_bytes(post_id);
        let stored = match table_get(&self.posts, &key) {
            Some(bytes) => bytes,
            None => { return Err(SocialError::NotFound); },
        };
        let mut post = match post_from_bytes(&stored) {
            Some(p) => p,
            None => { return Err(SocialError::NotFound); },
        };
        let ghost before = post@;
        if listed(&post.likes, identity) {
            assert(self.posts() =~= self.posts().insert(post_id, post@));
            return Ok(post);
        }
        post.likes.push(identity.clone());
        post.like_count = post.likes.len() as u64;
        proof {
            assert(identities_view(post.likes@) =~= before.likes.push(identity@));
            assert(post@ == liked(before, identity@));
            lemma_push_no_duplicates(before.likes, identity@);
        }
        let bytes = post_to_bytes(&post);
        if !fits(&bytes) {
            return Err(SocialError::CapacityExceeded);
        }
        proof {
            lemma_auto_spec_u64_to_from_le_bytes();
            lemma_replace_agrees(
                table_entries(self.posts),
                table_entries(self.index),
                self.counter,
                post_id,
                post@,
                bytes@,
            );
        }
        table_insert(&mut self.posts, key, bytes);
        Ok(post)
    }

    /// Records that `identity` likes a post no longer. Nothing changes where
    /// it never did.
    pub fn unlike_post(&mut self, identity: &Identity, post_id: u64) -> (r: Result<
        Post,
        SocialError,
    >)
        requires
            old(self).wf(),
        ensures
            final(self).wf(),
            final(self).issued() == old(self).issued(),
            forall|a: Seq<u8>| #[trigger] final(self).authored(a) == old(self).authored(a),
            match r {
                Ok(p) => old(self).unlike_post_verdict(identity@, post_id) === Ok(p@)
                    && final(self).posts() == old(self).posts().insert(post_id, p@) && (!old(
                    self,
                ).posts()[post_id].likes.contains(identity@) ==> *final(self) == *old(self)),
                Err(e) => old(self).unlike_post_verdict(identity@, post_id) === Err(e)
                    && *final(self) == *old(self),
            },
    {
        if identity.is_anonymous() {
            return Err(SocialError::Unauthenticated);
        }
        let key = u64_to_le_bytes(post_id);
        let stored = match table_get(&self.posts, &key) {
            Some(bytes) => bytes,
            None => { return Err(SocialError::NotFound); },
        };
        let post = match post_from_bytes(&stored) {
            Some(p) => p,
            None => { return Err(SocialError::NotFound); },
        };
        if !listed(&post.likes, identity) {
            assert(self.posts() =~= self.posts().insert(post_id, post@));
            return Ok(post);
        }
        let kept = drop_identity(&post.likes, identity);
        let count = kept.len() as u64;
        let ghost before = post@;
        let after = Post {
            id: post.id,
            author: post.author,
            content: post.content,
            media_urls: post.media_urls,
            created_at: post.created_at,
            updated_at: post.updated_at,
            likes: kept,
            like_count: count,
        };
        let bytes = post_to_bytes(&after);
        proof {
            assert(after@ == unliked(before, identity@));
            lemma_unlike_sound(before, identity@);
            lemma_filter_frame(before.likes, differs(identity@));
            assert(post_fields(after@).drop_last() =~= post_fields(before).drop_last());
            assert(table_entries(self.posts).dom().contains(post_key(post_id)));
            lemma_auto_spec_u64_to_from_le_bytes();
            lemma_replace_agrees(
                table_entries(self.posts),
                table_entries(self.index),
                self.counter,
                post_id,
                after@,
                bytes@,
            );
        }
        table_insert(&mut self.posts, key, bytes);
        Ok(after)
    }

    /// The post with the number `post_id`.
    pub fn get_post(&self, post_id: u64) -> (r: Result<Post, SocialError>)
        requires
            self.wf(),
        ensures
            match r {
                Ok(p) => self.posts().dom().contains(post_id) && p@ == self.posts()[post_id],
                Err(e) => e == SocialError::NotFound && !self.posts().dom().contains(post_id),
            },
    {
        let key = u64_to_le_bytes(post_id);
        match table_get(&self.posts, &key) {
            Some(bytes) => match post_from_bytes(&bytes) {
                Some(p) => Ok(p),
                None => Err(SocialError::NotFound),
            },
            None => Err(SocialError::NotFound),
        }
    }

    /// The posts of `identity`, in the order in which they were made.
    pub fn list_posts_by_user(&self, identity: &Identity) -> (r: Vec<Post>)
        requires
            self.wf(),
        ensures
            posts_view(r@) == self.shelf(self.authored(identity@)),
    {
        let ids = read_ids(&self.index, &identity.bytes);
        let mut out: Vec<Post> = Vec::new();
        let mut i: usize = 0;
        while i < ids.len()
            invariant
                0 <= i <= ids.len(),
                self.wf(),
                ids@ == self.authored(identity@),
                out@.len() == i,
                forall|k: int| 0 <= k < i ==> (#[trigger] out@[k])@ == self.posts()[ids@[k]],
            decreases ids.len() - i,
        {
            let key = u64_to_le_bytes(ids[i]);
            proof {
                assert(stored_ids(table_entries(self.index), identity@).contains(ids@[i as int]));
            }
            match table_get(&self.posts, &key) {
                Some(bytes) => match post_from_bytes(&bytes) {
                    Some(p) => {
                        out.push(p);
                    },
                    None => {
                        assert(false);
                    },
                },
                None => {
                    assert(false);
                },
            }
            i += 1;
        }
        assert(posts_view(out@) =~= self.shelf(self.authored(identity@)));
        out
    }

    /// All posts, or those of `authors` only, with the newest first.
    fn gather(&self, everyone: bool, authors: &Vec<Identity>) -> (r: Vec<Post>)
        requires
            self.wf(),
        ensures
            is_timeline(posts_view(r@), self.chosen(everyone, identities_view(authors@))),
    {
        let entries = table_scan(&self.posts);
        let ghost wanted = self.chosen(everyone, identities_view(authors@));
        let mut out: Vec<Post> = Vec::new();
        let mut i: usize = 0;
        proof {
            lemma_auto_spec_u64_to_from_le_bytes();
        }
        while i < entries.len()
            invariant
                0 <= i <= entries.len(),
                self.wf(),
                wanted == self.chosen(everyone, identities_view(authors@)),
                forall|k: int|
                    0 <= k < entries@.len() ==> table_entries(self.posts).dom().contains(
                        #[trigger] entries@[k].0@,
                    ) && table_entries(self.posts)[entries@[k].0@] == entries@[k].1@,
                forall|k: int, m: int|
                    0 <= k < m < entries@.len() ==> #[trigger] entries@[k].0@
                        != #[trigger] entries@[m].0@,
                newest_first(posts_view(out@)),
                drawn_from(posts_view(out@), wanted),
                forall|n: int|
                    0 <= n < out@.len() ==> seen(entries@, i as int, (#[trigger] posts_view(
                        out@,
                    )[n]).id),
                forall|id: u64|
                    seen(entries@, i as int, id) && wanted.dom().contains(id) ==> holds(
                        posts_view(out@),
                        id,
                    ),
            decreases entries.len() - i,
        {
            let ghost key = entries@[i as int].0@;
            let ghost id = spec_u64_from_le_bytes(key);
            let ghost before = posts_view(out@);
            proof {
                lemma_auto_spec_u64_to_from_le_bytes();
                assert(table_entries(self.posts).dom().contains(key));
                assert(key == post_key(id));
                assert(self.posts().dom().contains(id));
            }
            match post_from_bytes(&entries[i].1) {
                Some(p) => {
                    assert(p@ == self.posts()[id]);
                    if everyone || listed(authors, &p.author) {
                        proof {
                            assert(wanted.dom().contains(id) && wanted[id] == p@);
                            if holds(before, id) {
                                let n = choose|n: int|
                                    0 <= n < before.len() && (#[trigger] before[n]).id == id;
                                assert(seen(entries@, i as int, before[n].id));
                                let k = choose|k: int|
                                    0 <= k < i && (#[trigger] entries@[k]).0@ == post_key(id);
                                assert(entries@[k].0@ != entries@[i as int].0@);
                            }
                        }
                        let pos = place(&mut out, p);
                        proof {
                            let after = posts_view(out@);
                            assert forall|n: int|
                                0 <= n < after.len() implies wanted.dom().contains(
                                (#[trigger] after[n]).id,
                            ) && wanted[after[n].id] == after[n] && seen(
                                entries@,
                                i as int + 1,
                                after[n].id,
                            ) by {
                                if n < pos {
                                    assert(after[n] == before[n]);
                                    assert(seen(entries@, i as int, before[n].id));
                                    let k = choose|k: int|
                                        0 <= k < i && (#[trigger] entries@[k]).0@ == post_key(
                                            before[n].id,
                                        );
                                    assert(entries@[k].0@ == post_key(after[n].id));
                                } else if n == pos {
                                    assert(entries@[i as int].0@ == post_key(after[n].id));
                                } else {
                                    assert(after[n] == before[n - 1]);
                                    assert(seen(entries@, i as int, before[n - 1].id));
                                    let k = choose|k: int|
                                        0 <= k < i && (#[trigger] entries@[k]).0@ == post_key(
                                            before[n - 1].id,
                                        );
                                    assert(entries@[k].0@ == post_key(after[n].id));
                                }
                            }
                            assert forall|other: u64|
                                seen(entries@, i as int + 1, other) && wanted.dom().contains(
                                    other,
                                ) implies holds(after, other) by {
                                lemma_insert_holds(before, pos as int, self.posts()[id], other);
                                let k = choose|k: int|
                                    0 <= k < i + 1 && (#[trigger] entries@[k]).0@ == post_key(
                                        other,
                                    );
                                if k < i {
                                    assert(seen(entries@, i as int, other));
                                }
                            }
                        }
                    } else {
                        proof {
                            assert forall|n: int| 0 <= n < before.len() implies seen(
                                entries@,
                                i as int + 1,
                                (#[trigger] before[n]).id,
                            ) by {
                                assert(seen(entries@, i as int, before[n].id));
                                let k = choose|k: int|
                                    0 <= k < i && (#[trigger] entries@[k]).0@ == post_key(
                                        before[n].id,
                                    );
                                assert(entries@[k].0@ == post_key(before[n].id));
                            }
                            assert forall|other: u64|
                                seen(entries@, i as int + 1, other) && wanted.dom().contains(
                                    other,
                                ) implies holds(before, other) by {
                                let k = choose|k: int|
                                    0 <= k < i + 1 && (#[trigger] entries@[k]).0@ == post_key(
                                        other,
                                    );
                                if k < i {
                                    assert(seen(entries@, i as int, other));
                                }
                            }
                        }
                    }
                },
                None => {
                    assert(false);
                },
            }
            i += 1;
        }
        proof {
            assert forall|id: u64| wanted.dom().contains(id) implies holds(
                posts_view(out@),
                id,
            ) by {
                assert(self.posts().dom().contains(id));
                assert(table_entries(self.posts).dom().contains(post_key(id)));
            }
        }
        out
    }

    /// A page of all posts, the newest first.
    pub fn list_recent_posts(&self, limit: u64, offset: u64) -> (r: Vec<Post>)
        requires
            self.wf(),
        ensures
            is_timeline(timeline(self.posts()), self.posts()),
            posts_view(r@) == page(timeline(self.posts()), limit as nat, offset as nat),
    {
        let nobody: Vec<Identity> = Vec::new();
        let sorted = self.gather(true, &nobody);
        proof {
            lemma_timeline_unique(posts_view(sorted@), timeline(self.posts()), self.posts());
        }
        page_of(&sorted, limit, offset)
    }

    /// A page of the posts of `identities`, the newest first.
    pub fn list_posts_by_users(&self, identities: &Vec<Identity>, limit: u64, offset: u64) -> (r:
        Vec<Post>)
        requires
            self.wf(),
        ensures
            is_timeline(
                timeline(by_authors(self.posts(), identities_view(identities@))),
                by_authors(self.posts(), identities_view(identities@)),
            ),
            posts_view(r@) == page(
                timeline(by_authors(self.posts(), identities_view(identities@))),
                limit as nat,
                offset as nat,
            ),
    {
        let sorted = self.gather(false, identities);
        proof {
            let wanted = by_authors(self.posts(), identities_view(identities@));
            lemma_timeline_unique(posts_view(sorted@), timeline(wanted), wanted);
        }
        page_of(&sorted, limit, offset)
    }
}

} // verus!
