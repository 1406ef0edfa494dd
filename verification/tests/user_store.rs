use social_app::error::SocialError;
use social_app::identity::Identity;
use social_app::user::{CreateUserRequest, UpdateUserRequest, UserProfile, UserStore};

fn alice() -> Identity {
    Identity::from_bytes(vec![1, 1, 1])
}

fn bob() -> Identity {
    Identity::from_bytes(vec![2, 2])
}

fn carol() -> Identity {
    Identity::from_bytes(vec![3])
}

fn request(username: &str) -> CreateUserRequest {
    CreateUserRequest {
        username: String::from(username),
        display_name: format!("{} D", username),
        bio: format!("bio of {}", username),
        avatar_url: format!("https://example.org/{}.png", username),
    }
}

#[test]
fn new_user_store_is_empty() {
    let store = UserStore::new();
    assert_eq!(store.list_all_users(), Vec::<UserProfile>::new());
    assert_eq!(store.get_user(&alice()), Err(SocialError::NotFound));
    assert!(store.username_available(&String::from("alice")));
}

#[test]
fn create_user_returns_the_profile() {
    let mut store = UserStore::new();
    let p = store.create_user(&alice(), request("alice"), 100).unwrap();
    assert_eq!(
        p,
        UserProfile {
            principal: alice(),
            username: String::from("alice"),
            display_name: String::from("alice D"),
            bio: String::from("bio of alice"),
            avatar_url: String::from("https://example.org/alice.png"),
            created_at: 100,
            updated_at: 100,
            is_verified: false,
        }
    );
    assert_eq!(store.get_user(&alice()), Ok(p.clone()));
    assert_eq!(store.get_user_by_username(&String::from("alice")), Ok(p));
    assert!(!store.username_available(&String::from("alice")));
}

#[test]
fn scenario_same_identity_then_same_username() {
    let mut store = UserStore::new();
    assert!(store.create_user(&alice(), request("alice"), 1).is_ok());
    assert_eq!(store.create_user(&alice(), request("alice"), 2), Err(SocialError::AlreadyExists));
    assert_eq!(store.create_user(&bob(), request("alice"), 3), Err(SocialError::UsernameTaken));
    assert_eq!(store.get_user(&bob()), Err(SocialError::NotFound));
    assert_eq!(store.list_all_users().len(), 1);
}

#[test]
fn create_user_refuses_the_anonymous_identity() {
    let mut store = UserStore::new();
    assert_eq!(
        store.create_user(&Identity::anonymous(), request("ghost"), 1),
        Err(SocialError::Unauthenticated)
    );
    assert!(store.username_available(&String::from("ghost")));
    assert_eq!(store.list_all_users().len(), 0);
}

#[test]
fn already_exists_comes_before_username_taken() {
    let mut store = UserStore::new();
    store.create_user(&alice(), request("alice"), 1).unwrap();
    store.create_user(&bob(), request("bob"), 1).unwrap();
    assert_eq!(store.create_user(&alice(), request("bob"), 2), Err(SocialError::AlreadyExists));
    assert_eq!(store.create_user(&alice(), request("free"), 2), Err(SocialError::AlreadyExists));
    assert!(store.username_available(&String::from("free")));
}

#[test]
fn usernames_resolve_to_one_identity_each() {
    let mut store = UserStore::new();
    store.create_user(&alice(), request("alice"), 1).unwrap();
    store.create_user(&bob(), request("bob"), 2).unwrap();
    assert_eq!(store.create_user(&carol(), request("bob"), 3), Err(SocialError::UsernameTaken));
    store.create_user(&carol(), request("carol"), 4).unwrap();
    let a = store.get_user_by_username(&String::from("alice")).unwrap();
    let b = store.get_user_by_username(&String::from("bob")).unwrap();
    let c = store.get_user_by_username(&String::from("carol")).unwrap();
    assert_eq!(a.principal, alice());
    assert_eq!(b.principal, bob());
    assert_eq!(c.principal, carol());
    assert_eq!(
        store.get_user_by_username(&String::from("dave")),
        Err(SocialError::NotFound)
    );
}

#[test]
fn usernames_are_compared_exactly() {
    let mut store = UserStore::new();
    store.create_user(&alice(), request("alice"), 1).unwrap();
    assert!(store.username_available(&String::from("Alice")));
    assert!(store.username_available(&String::from("alice ")));
    assert!(store.username_available(&String::new()));
    assert!(store.create_user(&bob(), request("Alice"), 2).is_ok());
}

#[test]
fn update_user_changes_only_what_is_named() {
    let mut store = UserStore::new();
    store.create_user(&alice(), request("alice"), 10).unwrap();
    let p = store
        .update_user(
            &alice(),
            UpdateUserRequest {
                display_name: None,
                bio: Some(String::from("new bio")),
                avatar_url: None,
            },
            20,
        )
        .unwrap();
    assert_eq!(p.username, "alice");
    assert_eq!(p.display_name, "alice D");
    assert_eq!(p.bio, "new bio");
    assert_eq!(p.avatar_url, "https://example.org/alice.png");
    assert_eq!(p.created_at, 10);
    assert_eq!(p.updated_at, 20);
    assert_eq!(store.get_user(&alice()), Ok(p.clone()));
    assert_eq!(store.get_user_by_username(&String::from("alice")), Ok(p));
}

#[test]
fn update_user_with_nothing_named_refreshes_the_time() {
    let mut store = UserStore::new();
    let before = store.create_user(&alice(), request("alice"), 10).unwrap();
    let after = store
        .update_user(
            &alice(),
            UpdateUserRequest { display_name: None, bio: None, avatar_url: None },
            30,
        )
        .unwrap();
    assert_eq!(after.updated_at, 30);
    assert_eq!(after.created_at, before.created_at);
    assert_eq!(after.display_name, before.display_name);
    assert_eq!(after.bio, before.bio);
    assert_eq!(after.avatar_url, before.avatar_url);
}

#[test]
fn update_user_changes_all_three() {
    let mut store = UserStore::new();
    store.create_user(&alice(), request("alice"), 10).unwrap();
    let p = store
        .update_user(
            &alice(),
            UpdateUserRequest {
                display_name: Some(String::from("A")),
                bio: Some(String::new()),
                avatar_url: Some(String::from("u")),
            },
            11,
        )
        .unwrap();
    assert_eq!(p.display_name, "A");
    assert_eq!(p.bio, "");
    assert_eq!(p.avatar_url, "u");
    assert!(!p.is_verified);
}

#[test]
fn update_user_refuses_strangers() {
    let mut store = UserStore::new();
    store.create_user(&alice(), request("alice"), 10).unwrap();
    let nothing = || UpdateUserRequest { display_name: None, bio: None, avatar_url: None };
    assert_eq!(store.update_user(&bob(), nothing(), 1), Err(SocialError::NotFound));
    assert_eq!(
        store.update_user(&Identity::anonymous(), nothing(), 1),
        Err(SocialError::Unauthenticated)
    );
    assert_eq!(store.get_user(&alice()).unwrap().updated_at, 10);
}

#[test]
fn list_all_users_names_each_once() {
    let mut store = UserStore::new();
    store.create_user(&bob(), request("bob"), 2).unwrap();
    store.create_user(&carol(), request("carol"), 3).unwrap();
    store.create_user(&alice(), request("alice"), 1).unwrap();
    let all = store.list_all_users();
    let names: Vec<String> = all.iter().map(|p| p.username.clone()).collect();
    assert_eq!(names, vec!["alice", "bob", "carol"]);
    assert_eq!(all[0].principal, alice());
    assert_eq!(all[1].principal, bob());
    assert_eq!(all[2].principal, carol());
}

#[test]
fn profiles_keep_text_that_is_not_ascii() {
    let mut store = UserStore::new();
    let req = CreateUserRequest {
        username: String::from("ålice✓"),
        display_name: String::from("日本語"),
        bio: String::from("line\nbreak\ttab"),
        avatar_url: String::new(),
    };
    store.create_user(&alice(), req, 1).unwrap();
    let p = store.get_user_by_username(&String::from("ålice✓")).unwrap();
    assert_eq!(p.display_name, "日本語");
    assert_eq!(p.bio, "line\nbreak\ttab");
    assert_eq!(p.avatar_url, "");
}

#[test]
fn identities_that_share_a_prefix_are_different_users() {
    let mut store = UserStore::new();
    let short = Identity::from_bytes(vec![1]);
    let long = Identity::from_bytes(vec![1, 0]);
    store.create_user(&short, request("short"), 1).unwrap();
    store.create_user(&long, request("long"), 1).unwrap();
    assert_eq!(store.get_user(&short).unwrap().username, "short");
    assert_eq!(store.get_user(&long).unwrap().username, "long");
}
