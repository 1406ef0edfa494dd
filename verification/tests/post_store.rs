use social_app::error::SocialError;
use social_app::identity::Identity;
use social_app::lists::{drop_id, ids_to_bytes};
use social_app::post::{CreatePostRequest, Post, PostStore, PostWithAuthor, UpdatePostRequest};
use social_app::timeline::{is_newer, page_of, place};

fn alice() -> Identity {
    Identity::from_bytes(vec![1, 1, 1])
}

fn bob() -> Identity {
    Identity::from_bytes(vec![2, 2])
}

fn carol() -> Identity {
    Identity::from_bytes(vec![3])
}

fn text(content: &str) -> CreatePostRequest {
    CreatePostRequest { content: String::from(content), media_urls: Vec::new() }
}

fn ids(posts: &[Post]) -> Vec<u64> {
    posts.iter().map(|p| p.id).collect()
}

fn bare(id: u64, created_at: u64) -> Post {
    Post {
        id,
        author: alice(),
        content: String::from("x"),
        media_urls: Vec::new(),
        created_at,
        updated_at: created_at,
        likes: Vec::new(),
        like_count: 0,
    }
}

#[test]
fn new_post_store_is_empty() {
    let store = PostStore::new();
    assert_eq!(store.get_post(1), Err(SocialError::NotFound));
    assert_eq!(store.get_post(0), Err(SocialError::NotFound));
    assert_eq!(store.list_recent_posts(10, 0), Vec::<Post>::new());
    assert_eq!(store.list_posts_by_user(&alice()), Vec::<Post>::new());
    assert_eq!(store.list_posts_by_users(&vec![alice()], 10, 0), Vec::<Post>::new());
}

#[test]
fn scenario_post_like_twice_delete_twice() {
    let mut store = PostStore::new();
    let p = store.create_post(&alice(), text("hello"), 10).unwrap();
    assert_eq!(p.id, 1);
    assert_eq!(p.like_count, 0);
    assert_eq!(store.like_post(&bob(), 1).unwrap().like_count, 1);
    let again = store.like_post(&bob(), 1).unwrap();
    assert_eq!(again.like_count, 1);
    assert_eq!(again.likes, vec![bob()]);
    assert_eq!(store.delete_post(&alice(), 1), Ok(()));
    assert_eq!(store.delete_post(&bob(), 1), Err(SocialError::NotFound));
    assert_eq!(store.get_post(1), Err(SocialError::NotFound));
}

#[test]
fn create_post_returns_the_post() {
    let mut store = PostStore::new();
    let req = CreatePostRequest {
        content: String::from("  hello  "),
        media_urls: vec![String::from("a.png"), String::from("b.png")],
    };
    let p = store.create_post(&alice(), req, 77).unwrap();
    assert_eq!(
        p,
        Post {
            id: 1,
            author: alice(),
            content: String::from("  hello  "),
            media_urls: vec![String::from("a.png"), String::from("b.png")],
            created_at: 77,
            updated_at: 77,
            likes: Vec::new(),
            like_count: 0,
        }
    );
    assert_eq!(store.get_post(1), Ok(p.clone()));
    assert_eq!(store.list_posts_by_user(&alice()), vec![p]);
}

#[test]
fn create_post_refuses_anonymous_and_blank() {
    let mut store = PostStore::new();
    assert_eq!(
        store.create_post(&Identity::anonymous(), text("hello"), 1),
        Err(SocialError::Unauthenticated)
    );
    assert_eq!(
        store.create_post(&Identity::anonymous(), text(""), 1),
        Err(SocialError::Unauthenticated)
    );
    assert_eq!(store.create_post(&alice(), text(""), 1), Err(SocialError::InvalidContent));
    assert_eq!(store.create_post(&alice(), text("   "), 1), Err(SocialError::InvalidContent));
    assert_eq!(store.create_post(&alice(), text("\n\t \r"), 1), Err(SocialError::InvalidContent));
    assert_eq!(store.list_recent_posts(10, 0).len(), 0);
    assert_eq!(store.create_post(&alice(), text("x"), 1).unwrap().id, 1);
}

#[test]
fn post_ids_rise_and_are_never_given_twice() {
    let mut store = PostStore::new();
    assert_eq!(store.create_post(&alice(), text("a"), 1).unwrap().id, 1);
    assert_eq!(store.create_post(&bob(), text("b"), 1).unwrap().id, 2);
    assert_eq!(store.create_post(&alice(), text(" "), 1), Err(SocialError::InvalidContent));
    assert_eq!(store.create_post(&alice(), text("c"), 1).unwrap().id, 3);
    store.delete_post(&alice(), 3).unwrap();
    store.delete_post(&bob(), 2).unwrap();
    assert_eq!(store.create_post(&bob(), text("d"), 1).unwrap().id, 4);
    store.delete_post(&alice(), 1).unwrap();
    store.delete_post(&bob(), 4).unwrap();
    assert_eq!(store.create_post(&carol(), text("e"), 1).unwrap().id, 5);
}

#[test]
fn update_post_changes_only_what_is_named() {
    let mut store = PostStore::new();
    let req = CreatePostRequest {
        content: String::from("first"),
        media_urls: vec![String::from("a.png")],
    };
    store.create_post(&alice(), req, 10).unwrap();
    store.like_post(&bob(), 1).unwrap();
    let p = store
        .update_post(
            &alice(),
            1,
            UpdatePostRequest { content: Some(String::from("second")), media_urls: None },
            20,
        )
        .unwrap();
    assert_eq!(p.content, "second");
    assert_eq!(p.media_urls, vec![String::from("a.png")]);
    assert_eq!(p.created_at, 10);
    assert_eq!(p.updated_at, 20);
    assert_eq!(p.likes, vec![bob()]);
    assert_eq!(p.like_count, 1);
    let q = store
        .update_post(
            &alice(),
            1,
            UpdatePostRequest { content: None, media_urls: Some(Vec::new()) },
            30,
        )
        .unwrap();
    assert_eq!(q.content, "second");
    assert_eq!(q.media_urls, Vec::<String>::new());
    assert_eq!(q.updated_at, 30);
    assert_eq!(store.get_post(1), Ok(q));
}

#[test]
fn update_post_refusals_come_in_order() {
    let mut store = PostStore::new();
    store.create_post(&alice(), text("first"), 10).unwrap();
    let blank = || UpdatePostRequest { content: Some(String::from("  ")), media_urls: None };
    assert_eq!(store.update_post(&alice(), 2, blank(), 1), Err(SocialError::NotFound));
    assert_eq!(store.update_post(&bob(), 2, blank(), 1), Err(SocialError::NotFound));
    assert_eq!(store.update_post(&bob(), 1, blank(), 1), Err(SocialError::Forbidden));
    assert_eq!(
        store.update_post(&Identity::anonymous(), 1, blank(), 1),
        Err(SocialError::Forbidden)
    );
    assert_eq!(store.update_post(&alice(), 1, blank(), 1), Err(SocialError::InvalidContent));
    let p = store.get_post(1).unwrap();
    assert_eq!(p.content, "first");
    assert_eq!(p.updated_at, 10);
}

#[test]
fn delete_post_is_for_the_author() {
    let mut store = PostStore::new();
    store.create_post(&alice(), text("a"), 1).unwrap();
    store.create_post(&alice(), text("b"), 2).unwrap();
    assert_eq!(store.delete_post(&bob(), 1), Err(SocialError::Forbidden));
    assert_eq!(store.delete_post(&Identity::anonymous(), 1), Err(SocialError::Forbidden));
    assert_eq!(store.delete_post(&alice(), 9), Err(SocialError::NotFound));
    assert_eq!(ids(&store.list_posts_by_user(&alice())), vec![1, 2]);
    assert_eq!(store.delete_post(&alice(), 1), Ok(()));
    assert_eq!(ids(&store.list_posts_by_user(&alice())), vec![2]);
    assert_eq!(ids(&store.list_recent_posts(10, 0)), vec![2]);
}

#[test]
fn like_and_unlike_keep_the_count_right() {
    let mut store = PostStore::new();
    store.create_post(&alice(), text("a"), 1).unwrap();
    assert_eq!(store.like_post(&bob(), 1).unwrap().like_count, 1);
    assert_eq!(store.like_post(&carol(), 1).unwrap().like_count, 2);
    assert_eq!(store.like_post(&alice(), 1).unwrap().like_count, 3);
    assert_eq!(store.like_post(&carol(), 1).unwrap().like_count, 3);
    let p = store.unlike_post(&bob(), 1).unwrap();
    assert_eq!(p.like_count, 2);
    assert_eq!(p.likes, vec![carol(), alice()]);
    assert_eq!(store.get_post(1), Ok(p));
    assert_eq!(store.unlike_post(&bob(), 1).unwrap().like_count, 2);
    assert_eq!(store.unlike_post(&carol(), 1).unwrap().likes, vec![alice()]);
    assert_eq!(store.unlike_post(&alice(), 1).unwrap().like_count, 0);
}

#[test]
fn unlike_of_a_post_never_liked_changes_nothing() {
    let mut store = PostStore::new();
    let made = store.create_post(&alice(), text("a"), 1).unwrap();
    assert_eq!(store.unlike_post(&bob(), 1), Ok(made.clone()));
    assert_eq!(store.get_post(1), Ok(made));
}

#[test]
fn like_refuses_anonymous_and_unknown_posts() {
    let mut store = PostStore::new();
    store.create_post(&alice(), text("a"), 1).unwrap();
    assert_eq!(store.like_post(&Identity::anonymous(), 1), Err(SocialError::Unauthenticated));
    assert_eq!(store.like_post(&Identity::anonymous(), 7), Err(SocialError::Unauthenticated));
    assert_eq!(store.like_post(&bob(), 7), Err(SocialError::NotFound));
    assert_eq!(store.unlike_post(&Identity::anonymous(), 1), Err(SocialError::Unauthenticated));
    assert_eq!(store.unlike_post(&bob(), 7), Err(SocialError::NotFound));
    assert_eq!(store.get_post(1).unwrap().like_count, 0);
}

#[test]
fn recent_posts_come_newest_first() {
    let mut store = PostStore::new();
    store.create_post(&alice(), text("a"), 30).unwrap();
    store.create_post(&bob(), text("b"), 10).unwrap();
    store.create_post(&alice(), text("c"), 20).unwrap();
    store.create_post(&carol(), text("d"), 40).unwrap();
    assert_eq!(ids(&store.list_recent_posts(10, 0)), vec![4, 1, 3, 2]);
}

#[test]
fn posts_of_one_moment_come_highest_number_first() {
    let mut store = PostStore::new();
    store.create_post(&alice(), text("a"), 5).unwrap();
    store.create_post(&bob(), text("b"), 5).unwrap();
    store.create_post(&alice(), text("c"), 5).unwrap();
    store.create_post(&alice(), text("d"), 4).unwrap();
    store.create_post(&alice(), text("e"), 6).unwrap();
    assert_eq!(ids(&store.list_recent_posts(10, 0)), vec![5, 3, 2, 1, 4]);
}

#[test]
fn pages_cover_every_post_once() {
    let mut store = PostStore::new();
    for n in 0..7u64 {
        store.create_post(&alice(), text("p"), 100 - (n % 3)).unwrap();
    }
    let all = store.list_recent_posts(100, 0);
    assert_eq!(ids(&all), vec![7, 4, 1, 5, 2, 6, 3]);
    for limit in 1..9u64 {
        let mut joined: Vec<Post> = Vec::new();
        let mut offset = 0u64;
        while offset < 7 {
            let page = store.list_recent_posts(limit, offset);
            assert!(page.len() as u64 <= limit);
            joined.extend(page);
            offset += limit;
        }
        assert_eq!(joined, all);
        assert_eq!(store.list_recent_posts(limit, offset), Vec::<Post>::new());
    }
}

#[test]
fn pages_past_the_end_are_empty() {
    let mut store = PostStore::new();
    store.create_post(&alice(), text("a"), 1).unwrap();
    store.create_post(&alice(), text("b"), 2).unwrap();
    assert_eq!(store.list_recent_posts(10, 2), Vec::<Post>::new());
    assert_eq!(store.list_recent_posts(10, 3), Vec::<Post>::new());
    assert_eq!(store.list_recent_posts(u64::MAX, u64::MAX), Vec::<Post>::new());
    assert_eq!(store.list_recent_posts(0, 0), Vec::<Post>::new());
    assert_eq!(ids(&store.list_recent_posts(u64::MAX, 1)), vec![1]);
    assert_eq!(ids(&store.list_recent_posts(1, 1)), vec![1]);
    assert_eq!(ids(&store.list_recent_posts(1, 0)), vec![2]);
}

#[test]
fn posts_by_users_counts_each_post_once() {
    let mut store = PostStore::new();
    store.create_post(&alice(), text("a"), 1).unwrap();
    store.create_post(&bob(), text("b"), 2).unwrap();
    store.create_post(&carol(), text("c"), 3).unwrap();
    store.create_post(&alice(), text("d"), 4).unwrap();
    assert_eq!(ids(&store.list_posts_by_users(&vec![alice(), carol()], 10, 0)), vec![4, 3, 1]);
    assert_eq!(
        ids(&store.list_posts_by_users(&vec![alice(), alice(), alice()], 10, 0)),
        vec![4, 1]
    );
    assert_eq!(ids(&store.list_posts_by_users(&vec![carol(), alice()], 2, 1)), vec![3, 1]);
    assert_eq!(ids(&store.list_posts_by_users(&vec![bob()], 1, 0)), vec![2]);
    assert_eq!(store.list_posts_by_users(&vec![bob()], 1, 1), Vec::<Post>::new());
    assert_eq!(store.list_posts_by_users(&Vec::new(), 10, 0), Vec::<Post>::new());
}

#[test]
fn posts_of_a_user_come_in_the_order_made() {
    let mut store = PostStore::new();
    store.create_post(&alice(), text("a"), 50).unwrap();
    store.create_post(&bob(), text("b"), 40).unwrap();
    store.create_post(&alice(), text("c"), 30).unwrap();
    store.create_post(&alice(), text("d"), 60).unwrap();
    assert_eq!(ids(&store.list_posts_by_user(&alice())), vec![1, 3, 4]);
    assert_eq!(ids(&store.list_posts_by_user(&bob())), vec![2]);
    assert_eq!(store.list_posts_by_user(&carol()), Vec::<Post>::new());
    store.delete_post(&alice(), 3).unwrap();
    assert_eq!(ids(&store.list_posts_by_user(&alice())), vec![1, 4]);
}

#[test]
fn newer_goes_by_time_then_number() {
    assert!(is_newer(&bare(1, 10), &bare(2, 9)));
    assert!(!is_newer(&bare(2, 9), &bare(1, 10)));
    assert!(is_newer(&bare(2, 5), &bare(1, 5)));
    assert!(!is_newer(&bare(1, 5), &bare(2, 5)));
    assert!(!is_newer(&bare(1, 5), &bare(1, 5)));
}

#[test]
fn place_puts_a_post_where_it_belongs() {
    let mut list = vec![bare(1, 30), bare(2, 20), bare(3, 10)];
    assert_eq!(place(&mut list, bare(4, 20)), 1);
    assert_eq!(ids(&list), vec![1, 4, 2, 3]);
    assert_eq!(place(&mut list, bare(5, 5)), 4);
    assert_eq!(place(&mut list, bare(6, 99)), 0);
    assert_eq!(ids(&list), vec![6, 1, 4, 2, 3, 5]);
    let mut empty: Vec<Post> = Vec::new();
    assert_eq!(place(&mut empty, bare(1, 1)), 0);
}

#[test]
fn page_of_cuts_where_it_is_told() {
    let list = vec![bare(1, 5), bare(2, 4), bare(3, 3), bare(4, 2), bare(5, 1)];
    assert_eq!(ids(&page_of(&list, 2, 0)), vec![1, 2]);
    assert_eq!(ids(&page_of(&list, 2, 2)), vec![3, 4]);
    assert_eq!(ids(&page_of(&list, 2, 4)), vec![5]);
    assert_eq!(ids(&page_of(&list, 2, 5)), Vec::<u64>::new());
    assert_eq!(ids(&page_of(&list, 0, 1)), Vec::<u64>::new());
    assert_eq!(ids(&page_of(&list, u64::MAX, 3)), vec![4, 5]);
}

#[test]
fn number_lists_drop_and_store() {
    assert_eq!(drop_id(&vec![1, 2, 3, 2], 2), vec![1, 3]);
    assert_eq!(drop_id(&vec![1, 2, 3], 9), vec![1, 2, 3]);
    assert_eq!(
        ids_to_bytes(&vec![1, 256]),
        vec![
            8, 0, 0, 0, 0, 0, 0, 0, 1, 0, 0, 0, 0, 0, 0, 0, 8, 0, 0, 0, 0, 0, 0, 0, 0, 1, 0, 0, 0,
            0, 0, 0
        ]
    );
}

#[test]
fn post_with_author_holds_what_readers_see() {
    let shown = PostWithAuthor {
        post: bare(1, 1),
        author_username: String::from("alice"),
        author_display_name: String::from("Alice"),
        author_avatar_url: String::new(),
    };
    assert_eq!(shown.post.clone(), bare(1, 1));
    assert_eq!(shown.author_username, "alice");
}

#[test]
fn publish_goes_by_what_it_is_told_of_the_content() {
    let mut store = PostStore::new();
    assert_eq!(store.publish(&alice(), text("hello"), 1, true), Err(SocialError::InvalidContent));
    assert_eq!(
        store.publish(&Identity::anonymous(), text("hello"), 1, true),
        Err(SocialError::Unauthenticated)
    );
    assert_eq!(store.list_recent_posts(10, 0).len(), 0);
    let p = store.publish(&alice(), text("   "), 7, false).unwrap();
    assert_eq!(p.id, 1);
    assert_eq!(p.content, "   ");
    assert_eq!(p.created_at, 7);
    assert_eq!(store.get_post(1), Ok(p));
}

#[test]
fn revise_goes_by_what_it_is_told_of_the_content() {
    let mut store = PostStore::new();
    store.create_post(&alice(), text("first"), 1).unwrap();
    let to = |content: &str| UpdatePostRequest {
        content: Some(String::from(content)),
        media_urls: None,
    };
    assert_eq!(store.revise(&alice(), 1, to("second"), 2, true), Err(SocialError::InvalidContent));
    assert_eq!(store.revise(&bob(), 1, to("second"), 2, true), Err(SocialError::Forbidden));
    assert_eq!(store.revise(&alice(), 2, to("second"), 2, true), Err(SocialError::NotFound));
    assert_eq!(store.get_post(1).unwrap().content, "first");
    let p = store.revise(&alice(), 1, to(" "), 3, false).unwrap();
    assert_eq!(p.content, " ");
    assert_eq!(p.updated_at, 3);
    assert_eq!(p.created_at, 1);
}

#[test]
fn update_post_without_new_content_is_not_blank() {
    let mut store = PostStore::new();
    store.create_post(&alice(), text("first"), 1).unwrap();
    let p = store
        .update_post(&alice(), 1, UpdatePostRequest { content: None, media_urls: None }, 9)
        .unwrap();
    assert_eq!(p.content, "first");
    assert_eq!(p.updated_at, 9);
}
