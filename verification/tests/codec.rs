use social_app::codec::{frame_fields, unframe_fields};
use social_app::identity::{same_bytes, Identity};
use social_app::post::{post_from_bytes, post_to_bytes, Post};
use social_app::table::fits;
use social_app::text::{is_blank, text_bytes};
use social_app::user::{profile_from_bytes, profile_to_bytes, UserProfile};

fn id(n: u8) -> Identity {
    Identity::from_bytes(vec![n, n, n])
}

#[test]
fn frame_of_nothing_is_empty() {
    let fields: Vec<Vec<u8>> = Vec::new();
    assert_eq!(frame_fields(&fields), Vec::<u8>::new());
    assert_eq!(unframe_fields(&Vec::new()), Some(Vec::<Vec<u8>>::new()));
}

#[test]
fn frame_writes_length_then_field() {
    let fields = vec![vec![1u8, 2u8], vec![], vec![9u8]];
    let bytes = frame_fields(&fields);
    assert_eq!(
        bytes,
        vec![2, 0, 0, 0, 0, 0, 0, 0, 1, 2, 0, 0, 0, 0, 0, 0, 0, 0, 1, 0, 0, 0, 0, 0, 0, 0, 9]
    );
    assert_eq!(unframe_fields(&bytes), Some(fields));
}

#[test]
fn unframe_refuses_a_short_length() {
    assert_eq!(unframe_fields(&vec![1, 0, 0]), None);
}

#[test]
fn unframe_refuses_a_field_that_runs_past_the_end() {
    assert_eq!(unframe_fields(&vec![3, 0, 0, 0, 0, 0, 0, 0, 1, 2]), None);
    assert_eq!(unframe_fields(&vec![255, 255, 255, 255, 255, 255, 255, 255, 1]), None);
}

#[test]
fn unframe_accepts_a_field_that_ends_the_bytes() {
    assert_eq!(unframe_fields(&vec![2, 0, 0, 0, 0, 0, 0, 0, 1, 2]), Some(vec![vec![1, 2]]));
}

#[test]
fn text_bytes_are_utf8() {
    assert_eq!(text_bytes(&String::from("hé")), vec![0x68, 0xc3, 0xa9]);
    assert_eq!(text_bytes(&String::new()), Vec::<u8>::new());
}

#[test]
fn blank_is_empty_or_whitespace() {
    assert!(is_blank(&String::new()));
    assert!(is_blank(&String::from("   ")));
    assert!(is_blank(&String::from(" \t\n\r ")));
    assert!(is_blank(&String::from("\u{2003}\u{00a0}")));
    assert!(!is_blank(&String::from("hello")));
    assert!(!is_blank(&String::from("  a  ")));
}

#[test]
fn same_bytes_compares_every_byte() {
    assert!(same_bytes(&vec![], &vec![]));
    assert!(same_bytes(&vec![1, 2, 3], &vec![1, 2, 3]));
    assert!(!same_bytes(&vec![1, 2, 3], &vec![1, 2, 4]));
    assert!(!same_bytes(&vec![1, 2], &vec![1, 2, 3]));
}

#[test]
fn anonymous_identity_is_one_byte_four() {
    assert_eq!(Identity::anonymous().bytes, vec![4u8]);
    assert!(Identity::anonymous().is_anonymous());
    assert!(!id(4).is_anonymous());
    assert!(!Identity::from_bytes(vec![]).is_anonymous());
    assert!(!Identity::from_bytes(vec![5]).is_anonymous());
    assert!(Identity::from_bytes(vec![4]).same_as(&Identity::anonymous()));
}

#[test]
fn anonymous_identity_is_the_anonymous_principal() {
    assert_eq!(Identity::anonymous().bytes, candid::Principal::anonymous().as_slice().to_vec());
    let someone = candid::Principal::from_slice(&[1, 2, 3]);
    assert!(!Identity::from_bytes(someone.as_slice().to_vec()).is_anonymous());
}

#[test]
fn identity_clone_keeps_the_bytes() {
    let a = id(7);
    assert_eq!(a.clone(), a);
    assert_eq!(a.to_bytes(), vec![7, 7, 7]);
}

#[test]
fn fits_accepts_small_byte_strings() {
    assert!(fits(&vec![]));
    assert!(fits(&vec![0u8; 1000]));
}

#[test]
fn profile_bytes_read_back() {
    let p = UserProfile {
        principal: id(1),
        username: String::from("alice"),
        display_name: String::from("Alice Ünïcode"),
        bio: String::new(),
        avatar_url: String::from("https://example.org/a.png"),
        created_at: 17,
        updated_at: u64::MAX,
        is_verified: true,
    };
    let bytes = profile_to_bytes(&p);
    assert_eq!(profile_from_bytes(&bytes), Some(p));
}

#[test]
fn profile_bytes_start_with_the_identity() {
    let p = UserProfile {
        principal: Identity::from_bytes(vec![9]),
        username: String::from("a"),
        display_name: String::new(),
        bio: String::new(),
        avatar_url: String::new(),
        created_at: 1,
        updated_at: 2,
        is_verified: false,
    };
    let bytes = profile_to_bytes(&p);
    let mut expected: Vec<u8> = vec![1, 0, 0, 0, 0, 0, 0, 0, 9];
    expected.extend_from_slice(&[1, 0, 0, 0, 0, 0, 0, 0, 0x61]);
    expected.extend_from_slice(&[0, 0, 0, 0, 0, 0, 0, 0]);
    expected.extend_from_slice(&[0, 0, 0, 0, 0, 0, 0, 0]);
    expected.extend_from_slice(&[0, 0, 0, 0, 0, 0, 0, 0]);
    expected.extend_from_slice(&[8, 0, 0, 0, 0, 0, 0, 0, 1, 0, 0, 0, 0, 0, 0, 0]);
    expected.extend_from_slice(&[8, 0, 0, 0, 0, 0, 0, 0, 2, 0, 0, 0, 0, 0, 0, 0]);
    expected.extend_from_slice(&[1, 0, 0, 0, 0, 0, 0, 0, 0]);
    assert_eq!(bytes, expected);
}

#[test]
fn profile_refuses_bytes_that_are_no_profile() {
    assert_eq!(profile_from_bytes(&vec![]), None);
    assert_eq!(profile_from_bytes(&vec![1, 2, 3]), None);
    let seven = frame_fields(&vec![vec![]; 7]);
    assert_eq!(profile_from_bytes(&seven), None);
    let bad_text = frame_fields(&vec![
        vec![1],
        vec![0xff],
        vec![],
        vec![],
        vec![],
        vec![0; 8],
        vec![0; 8],
        vec![0],
    ]);
    assert_eq!(profile_from_bytes(&bad_text), None);
    let bad_flag = frame_fields(&vec![
        vec![1],
        vec![0x61],
        vec![],
        vec![],
        vec![],
        vec![0; 8],
        vec![0; 8],
        vec![2],
    ]);
    assert_eq!(profile_from_bytes(&bad_flag), None);
}

#[test]
fn post_bytes_read_back() {
    let p = Post {
        id: 42,
        author: id(1),
        content: String::from("hello wörld"),
        media_urls: vec![String::from("a.png"), String::new(), String::from("ü.gif")],
        created_at: 5,
        updated_at: 6,
        likes: vec![id(2), id(3)],
        like_count: 2,
    };
    let bytes = post_to_bytes(&p);
    assert_eq!(post_from_bytes(&bytes), Some(p));
}

#[test]
fn post_count_is_read_from_the_likes() {
    let p = Post {
        id: 1,
        author: id(1),
        content: String::from("x"),
        media_urls: Vec::new(),
        created_at: 0,
        updated_at: 0,
        likes: vec![id(2)],
        like_count: 99,
    };
    let back = post_from_bytes(&post_to_bytes(&p)).unwrap();
    assert_eq!(back.like_count, 1);
    assert_eq!(back.likes, vec![id(2)]);
}

#[test]
fn post_refuses_bytes_that_are_no_post() {
    assert_eq!(post_from_bytes(&vec![7]), None);
    assert_eq!(post_from_bytes(&frame_fields(&vec![vec![]; 7])), None);
}
