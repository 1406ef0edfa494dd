use social_app::error::SocialError;
use social_app::graph::{edge_key_bytes, follow_to_bytes, Follow, GraphStore, SocialStats};
use social_app::identity::Identity;
use social_app::lists::{common_identities, drop_identity, identities_to_bytes};

fn who(n: u8) -> Identity {
    Identity::from_bytes(vec![n])
}

fn alice() -> Identity {
    Identity::from_bytes(vec![10, 1])
}

fn bob() -> Identity {
    Identity::from_bytes(vec![10, 2])
}

fn carol() -> Identity {
    Identity::from_bytes(vec![10, 3])
}

fn agrees(g: &GraphStore, people: &[Identity]) {
    for a in people {
        for b in people {
            let edge = g.is_following(a, b);
            assert_eq!(edge, g.get_following(a).contains(b));
            assert_eq!(edge, g.get_followers(b).contains(a));
        }
    }
}

#[test]
fn new_graph_is_empty() {
    let g = GraphStore::new();
    assert!(!g.is_following(&alice(), &bob()));
    assert_eq!(g.get_followers(&alice()), Vec::<Identity>::new());
    assert_eq!(g.get_following(&alice()), Vec::<Identity>::new());
    assert_eq!(
        g.get_social_stats(&alice()),
        SocialStats { followers_count: 0, following_count: 0 }
    );
}

#[test]
fn scenario_follow_twice_then_unfollow() {
    let mut g = GraphStore::new();
    assert_eq!(g.follow_user(&alice(), &bob(), 1), Ok(()));
    assert_eq!(g.follow_user(&alice(), &bob(), 2), Err(SocialError::AlreadyFollowing));
    assert_eq!(g.get_social_stats(&bob()).followers_count, 1);
    assert_eq!(g.get_social_stats(&bob()).following_count, 0);
    assert_eq!(g.get_social_stats(&alice()).following_count, 1);
    assert_eq!(g.unfollow_user(&alice(), &bob()), Ok(()));
    assert_eq!(g.get_mutual_followers(&alice(), &bob()), Vec::<Identity>::new());
    assert_eq!(g.get_social_stats(&bob()).followers_count, 0);
    assert!(!g.is_following(&alice(), &bob()));
}

#[test]
fn follow_refuses_anonymous_and_self() {
    let mut g = GraphStore::new();
    assert_eq!(
        g.follow_user(&Identity::anonymous(), &bob(), 1),
        Err(SocialError::Unauthenticated)
    );
    assert_eq!(
        g.follow_user(&Identity::anonymous(), &Identity::anonymous(), 1),
        Err(SocialError::Unauthenticated)
    );
    assert_eq!(g.follow_user(&alice(), &alice(), 1), Err(SocialError::SelfFollow));
    assert_eq!(g.get_followers(&bob()), Vec::<Identity>::new());
    assert_eq!(g.get_following(&alice()), Vec::<Identity>::new());
}

#[test]
fn the_anonymous_identity_can_be_followed() {
    let mut g = GraphStore::new();
    assert_eq!(g.follow_user(&alice(), &Identity::anonymous(), 1), Ok(()));
    assert_eq!(g.get_followers(&Identity::anonymous()), vec![alice()]);
}

#[test]
fn unfollow_refuses_what_is_not_there() {
    let mut g = GraphStore::new();
    assert_eq!(g.unfollow_user(&alice(), &bob()), Err(SocialError::NotFollowing));
    assert_eq!(
        g.unfollow_user(&Identity::anonymous(), &bob()),
        Err(SocialError::Unauthenticated)
    );
    g.follow_user(&alice(), &bob(), 1).unwrap();
    assert_eq!(g.unfollow_user(&bob(), &alice()), Err(SocialError::NotFollowing));
    assert_eq!(g.unfollow_user(&alice(), &bob()), Ok(()));
    assert_eq!(g.unfollow_user(&alice(), &bob()), Err(SocialError::NotFollowing));
}

#[test]
fn edges_have_a_direction() {
    let mut g = GraphStore::new();
    g.follow_user(&alice(), &bob(), 1).unwrap();
    assert!(g.is_following(&alice(), &bob()));
    assert!(!g.is_following(&bob(), &alice()));
    assert_eq!(g.follow_user(&bob(), &alice(), 2), Ok(()));
    assert!(g.is_following(&bob(), &alice()));
}

#[test]
fn lists_keep_the_order_of_following() {
    let mut g = GraphStore::new();
    g.follow_user(&carol(), &alice(), 1).unwrap();
    g.follow_user(&bob(), &alice(), 2).unwrap();
    g.follow_user(&who(1), &alice(), 3).unwrap();
    g.follow_user(&bob(), &carol(), 4).unwrap();
    g.follow_user(&bob(), &who(1), 5).unwrap();
    assert_eq!(g.get_followers(&alice()), vec![carol(), bob(), who(1)]);
    assert_eq!(g.get_following(&bob()), vec![alice(), carol(), who(1)]);
    g.unfollow_user(&bob(), &alice()).unwrap();
    assert_eq!(g.get_followers(&alice()), vec![carol(), who(1)]);
    assert_eq!(g.get_following(&bob()), vec![carol(), who(1)]);
    g.follow_user(&bob(), &alice(), 6).unwrap();
    assert_eq!(g.get_followers(&alice()), vec![carol(), who(1), bob()]);
    assert_eq!(
        g.get_social_stats(&alice()),
        SocialStats { followers_count: 3, following_count: 0 }
    );
    assert_eq!(g.get_social_stats(&bob()), SocialStats { followers_count: 0, following_count: 3 });
}

#[test]
fn edges_and_lists_agree_after_every_step() {
    let people = vec![alice(), bob(), carol(), who(7)];
    let mut g = GraphStore::new();
    agrees(&g, &people);
    let steps: Vec<(usize, usize, bool)> = vec![
        (0, 1, true),
        (0, 2, true),
        (1, 0, true),
        (2, 0, true),
        (0, 1, false),
        (3, 0, true),
        (3, 1, true),
        (0, 1, true),
        (2, 0, false),
        (1, 0, false),
        (0, 1, true),
        (2, 2, true),
        (1, 3, false),
    ];
    for (a, b, follow) in steps {
        if follow {
            let _ = g.follow_user(&people[a], &people[b], 1);
        } else {
            let _ = g.unfollow_user(&people[a], &people[b]);
        }
        agrees(&g, &people);
    }
    assert!(g.is_following(&alice(), &bob()));
    assert!(g.is_following(&alice(), &carol()));
    assert!(!g.is_following(&carol(), &alice()));
    assert_eq!(g.get_followers(&alice()), vec![who(7)]);
}

#[test]
fn mutual_followers_follow_the_first_list() {
    let mut g = GraphStore::new();
    g.follow_user(&who(1), &alice(), 1).unwrap();
    g.follow_user(&who(2), &alice(), 1).unwrap();
    g.follow_user(&who(3), &alice(), 1).unwrap();
    g.follow_user(&who(3), &bob(), 1).unwrap();
    g.follow_user(&who(14), &bob(), 1).unwrap();
    g.follow_user(&who(1), &bob(), 1).unwrap();
    assert_eq!(g.get_mutual_followers(&alice(), &bob()), vec![who(1), who(3)]);
    assert_eq!(g.get_mutual_followers(&bob(), &alice()), vec![who(3), who(1)]);
    assert_eq!(g.get_mutual_followers(&alice(), &alice()), vec![who(1), who(2), who(3)]);
    assert_eq!(g.get_mutual_followers(&alice(), &carol()), Vec::<Identity>::new());
}

#[test]
fn suggestions_are_friends_of_friends() {
    let mut g = GraphStore::new();
    g.follow_user(&alice(), &bob(), 1).unwrap();
    g.follow_user(&alice(), &carol(), 1).unwrap();
    g.follow_user(&bob(), &alice(), 1).unwrap();
    g.follow_user(&bob(), &carol(), 1).unwrap();
    g.follow_user(&bob(), &who(1), 1).unwrap();
    g.follow_user(&bob(), &who(2), 1).unwrap();
    g.follow_user(&carol(), &who(2), 1).unwrap();
    g.follow_user(&carol(), &who(3), 1).unwrap();
    g.follow_user(&carol(), &who(1), 1).unwrap();
    assert_eq!(g.get_follow_suggestions(&alice(), 10), vec![who(1), who(2), who(3)]);
    assert_eq!(g.get_follow_suggestions(&alice(), 3), vec![who(1), who(2), who(3)]);
    assert_eq!(g.get_follow_suggestions(&alice(), 2), vec![who(1), who(2)]);
    assert_eq!(g.get_follow_suggestions(&alice(), 1), vec![who(1)]);
    assert_eq!(g.get_follow_suggestions(&alice(), 0), Vec::<Identity>::new());
    assert_eq!(g.get_follow_suggestions(&alice(), u64::MAX), vec![who(1), who(2), who(3)]);
}

#[test]
fn suggestions_stop_in_the_second_list() {
    let mut g = GraphStore::new();
    g.follow_user(&alice(), &bob(), 1).unwrap();
    g.follow_user(&alice(), &carol(), 1).unwrap();
    g.follow_user(&bob(), &who(1), 1).unwrap();
    g.follow_user(&carol(), &who(1), 1).unwrap();
    g.follow_user(&carol(), &who(2), 1).unwrap();
    g.follow_user(&carol(), &who(3), 1).unwrap();
    assert_eq!(g.get_follow_suggestions(&alice(), 2), vec![who(1), who(2)]);
}

#[test]
fn suggestions_for_someone_who_follows_nobody() {
    let mut g = GraphStore::new();
    g.follow_user(&bob(), &carol(), 1).unwrap();
    assert_eq!(g.get_follow_suggestions(&alice(), 5), Vec::<Identity>::new());
    assert_eq!(g.get_follow_suggestions(&bob(), 5), Vec::<Identity>::new());
}

#[test]
fn suggestions_go_two_steps_and_no_further() {
    let mut g = GraphStore::new();
    g.follow_user(&alice(), &bob(), 1).unwrap();
    g.follow_user(&bob(), &carol(), 1).unwrap();
    g.follow_user(&carol(), &who(9), 1).unwrap();
    assert_eq!(g.get_follow_suggestions(&alice(), 5), vec![carol()]);
}

#[test]
fn edge_key_tells_the_two_ends_apart() {
    let k1 = edge_key_bytes(&Identity::from_bytes(vec![1, 2]), &Identity::from_bytes(vec![3]));
    let k2 = edge_key_bytes(&Identity::from_bytes(vec![1]), &Identity::from_bytes(vec![2, 3]));
    assert_ne!(k1, k2);
    assert_eq!(k1, vec![2, 0, 0, 0, 0, 0, 0, 0, 1, 2, 1, 0, 0, 0, 0, 0, 0, 0, 3]);
}

#[test]
fn follow_bytes_hold_both_ends_and_the_time() {
    let f = Follow { follower: who(1), following: who(2), created_at: 258 };
    assert_eq!(
        follow_to_bytes(&f),
        vec![
            1, 0, 0, 0, 0, 0, 0, 0, 1, 1, 0, 0, 0, 0, 0, 0, 0, 2, 8, 0, 0, 0, 0, 0, 0, 0, 2, 1,
            0, 0, 0, 0, 0, 0
        ]
    );
    assert_eq!(f.clone(), f);
}

#[test]
fn identity_lists_drop_and_intersect() {
    let list = vec![who(1), who(2), who(3), who(2)];
    assert_eq!(drop_identity(&list, &who(2)), vec![who(1), who(3)]);
    assert_eq!(drop_identity(&list, &who(9)), list);
    assert_eq!(common_identities(&list, &vec![who(2), who(1)]), vec![who(1), who(2), who(2)]);
    assert_eq!(
        identities_to_bytes(&vec![who(5), Identity::from_bytes(vec![])]),
        vec![1, 0, 0, 0, 0, 0, 0, 0, 5, 0, 0, 0, 0, 0, 0, 0, 0]
    );
}
