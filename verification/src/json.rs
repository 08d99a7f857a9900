//! Response normalization: the uniform `{data, error}` envelope every API
//! response is wrapped in, the payload shapes the endpoints return, and the
//! content-truncation policy applied to long text bodies before wrapping.

use vstd::prelude::*;

verus! {

/// Default body truncation limit for list endpoints (search, subreddit, user,
/// duplicates); policy data, not a behavioral switch.
pub const DEFAULT_BODY_LIMIT: usize = 400;

/// A post payload: the long-form text body carries an optional truncation
/// marker, set only when truncation actually shortened the body.
pub struct Post {
    pub title: String,
    pub body: String,
    pub body_truncated: Option<bool>,
}

/// A comment payload.
pub struct Comment {
    pub body: String,
}

/// A subreddit payload.
pub struct Subreddit {
    pub name: String,
}

/// A user payload.
pub struct User {
    pub name: String,
}

/// The uniform wrapper for all API responses: exactly one of `data` and
/// `error` is present, never both and never neither.
pub struct JsonResponse<T> {
    pub data: Option<T>,
    pub error: Option<String>,
}

impl<T> JsonResponse<T> {
    /// The envelope invariant: exactly one of `data`/`error` is present.
    pub open spec fn wf(self) -> bool {
        (self.data is Some) <==> (self.error is None)
    }

    /// Wraps a payload as a success envelope: data present, error absent.
    pub fn success(data: T) -> (r: Self)
        ensures
            r.data == Some(data),
            r.error is None,
            r.wf(),
    {
        JsonResponse { data: Some(data), error: None }
    }

    /// Wraps a message as an error envelope: data absent, error present.
    pub fn failure(error: String) -> (r: Self)
        ensures
            r.data is None,
            r.error == Some(error),
            r.wf(),
    {
        JsonResponse { data: None, error: Some(error) }
    }
}

/// An envelope satisfying the invariant holds exactly one of a payload and an
/// error message.
pub proof fn lemma_envelope_exactly_one<T>(r: JsonResponse<T>)
    requires
        r.wf(),
    ensures
        (r.data is Some && r.error is None) || (r.data is None && r.error is Some),
{
}

/// Bounds a text body to `limit` characters: the body unchanged when already
/// within the limit, else its first `limit` characters; the flag says whether
/// it was shortened.
pub fn truncate_body(body: &str, limit: usize) -> (r: (String, bool))
    ensures
        r.1 == (body@.len() > limit),
        body@.len() > limit ==> r.0@ == body@.take(limit as int),
        body@.len() <= limit ==> r.0@ == body@,
{
    let n = body.unicode_len();
    if n > limit {
        let t = body.substring_char(0, limit);
        proof {
            assert(body@.subrange(0, limit as int) =~= body@.take(limit as int));
        }
        (String::from_str(t), true)
    } else {
        (String::from_str(body), false)
    }
}

/// How a post after truncation relates to the post before it: the title is
/// kept; with no limit nothing changes; with a limit, a body over the limit
/// is cut to the limit and marked, and a body within it is left alone,
/// marker included.
pub open spec fn truncates_to(o: Post, n: Post, limit: Option<usize>) -> bool {
    &&& n.title@ == o.title@
    &&& match limit {
        None => n.body@ == o.body@ && n.body_truncated == o.body_truncated,
        Some(l) => if o.body@.len() > l {
            n.body@ == o.body@.take(l as int) && n.body_truncated == Some(true)
        } else {
            n.body@ == o.body@ && n.body_truncated == o.body_truncated
        },
    }
}

/// Truncates the body of a single post when a limit is given, marking the
/// post only when the body was actually shortened.
pub fn truncate_post(post: &mut Post, body_limit: Option<usize>)
    ensures
        truncates_to(*old(post), *final (post), body_limit),
{
    match body_limit {
        Some(limit) => {
            let r = truncate_body(post.body.as_str(), limit);
            post.body = r.0;
            if r.1 {
                post.body_truncated = Some(true);
            }
        },
        None => {},
    }
}

/// Applies the truncation rule independently to every post, in order.
pub fn truncate_posts(posts: &mut Vec<Post>, body_limit: Option<usize>)
    ensures
        final (posts)@.len() == old(posts)@.len(),
        forall|i: int|
            0 <= i < old(posts)@.len() ==> truncates_to(
                old(posts)@[i],
                final (posts)@[i],
                body_limit,
            ),
{
    let n = posts.len();
    let mut i: usize = 0;
    while i < n
        invariant
            0 <= i <= n,
            n == old(posts)@.len(),
            posts@.len() == n,
            forall|k: int| 0 <= k < i ==> truncates_to(old(posts)@[k], posts@[k], body_limit),
            forall|k: int| i <= k < n ==> posts@[k] == old(posts)@[k],
        decreases n - i,
    {
        let ghost a = posts@;
        let mut p = posts.remove(i);
        truncate_post(&mut p, body_limit);
        posts.insert(i, p);
        proof {
            assert(posts@ =~= a.update(i as int, p));
        }
        i = i + 1;
    }
}

/// A body within the limit is left unchanged, marker included.
pub proof fn lemma_truncate_within_limit(o: Post, n: Post, limit: usize)
    requires
        truncates_to(o, n, Some(limit)),
        o.body@.len() <= limit,
    ensures
        n.body@ == o.body@,
        n.body_truncated == o.body_truncated,
{
}

/// A body strictly over the limit is cut to exactly the limit, strictly
/// shorter than before, and the post is marked truncated.
pub proof fn lemma_truncate_over_limit(o: Post, n: Post, limit: usize)
    requires
        truncates_to(o, n, Some(limit)),
        o.body@.len() > limit,
    ensures
        n.body@.len() == limit,
        n.body@.len() < o.body@.len(),
        n.body_truncated == Some(true),
{
}

/// Subreddit listing payload.
pub struct SubredditResponse {
    pub subreddit: Subreddit,
    pub posts: Vec<Post>,
    pub after: Option<String>,
}

/// Post-with-comments payload.
pub struct PostResponse {
    pub post: Post,
    pub comments: Vec<Comment>,
}

/// User listing payload.
pub struct UserResponse {
    pub user: User,
    pub posts: Vec<Post>,
    pub after: Option<String>,
}

/// Search results payload.
pub struct SearchResponse {
    pub posts: Vec<Post>,
    pub after: Option<String>,
}

/// Wiki page payload.
pub struct WikiResponse {
    pub subreddit: String,
    pub page: String,
    pub content: String,
}

/// Duplicate-posts payload.
pub struct DuplicatesResponse {
    pub post: Post,
    pub duplicates: Vec<Post>,
}

} // verus!
