use redlib_core::json::{
    truncate_post, truncate_posts, JsonResponse, Post, DEFAULT_BODY_LIMIT,
};

fn post_with_body(body: String) -> Post {
    Post { title: "t".to_string(), body, body_truncated: None }
}

#[test]
fn default_limit_is_400() {
    assert_eq!(DEFAULT_BODY_LIMIT, 400);
}

#[test]
fn truncates_long_body_and_sets_marker() {
    let mut post = post_with_body("x".repeat(500));
    truncate_post(&mut post, Some(400));
    assert_eq!(post.body.chars().count(), 400);
    assert_eq!(post.body, "x".repeat(400));
    assert_eq!(post.body_truncated, Some(true));
}

#[test]
fn leaves_short_body_unchanged() {
    let mut post = post_with_body("y".repeat(200));
    truncate_post(&mut post, Some(400));
    assert_eq!(post.body, "y".repeat(200));
    assert_eq!(post.body_truncated, None);
}

#[test]
fn leaves_body_at_exact_limit_unchanged() {
    let mut post = post_with_body("z".repeat(400));
    truncate_post(&mut post, Some(400));
    assert_eq!(post.body, "z".repeat(400));
    assert_eq!(post.body_truncated, None);
}

#[test]
fn no_limit_means_no_change() {
    let mut post = post_with_body("w".repeat(5000));
    truncate_post(&mut post, None);
    assert_eq!(post.body, "w".repeat(5000));
    assert_eq!(post.body_truncated, None);
}

#[test]
fn truncation_counts_characters_not_bytes() {
    let mut post = post_with_body("\u{00e9}".repeat(5));
    truncate_post(&mut post, Some(3));
    assert_eq!(post.body, "\u{00e9}".repeat(3));
    assert_eq!(post.body_truncated, Some(true));
}

#[test]
fn truncates_each_post_independently() {
    let mut posts = vec![
        post_with_body("a".repeat(500)),
        post_with_body("b".repeat(100)),
        post_with_body("c".repeat(401)),
    ];
    truncate_posts(&mut posts, Some(400));
    assert_eq!(posts.len(), 3);
    assert_eq!(posts[0].body, "a".repeat(400));
    assert_eq!(posts[0].body_truncated, Some(true));
    assert_eq!(posts[1].body, "b".repeat(100));
    assert_eq!(posts[1].body_truncated, None);
    assert_eq!(posts[2].body, "c".repeat(400));
    assert_eq!(posts[2].body_truncated, Some(true));
}

#[test]
fn success_envelope_has_data_and_no_error() {
    let env = JsonResponse::success(41_u32);
    assert_eq!(env.data, Some(41));
    assert!(env.error.is_none());
}

#[test]
fn error_envelope_has_message_and_no_data() {
    let env: JsonResponse<()> = JsonResponse::failure("not found".to_string());
    assert!(env.data.is_none());
    assert_eq!(env.error, Some("not found".to_string()));
}
