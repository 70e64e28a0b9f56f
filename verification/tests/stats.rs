//! Community statistics: aggregation, shard merging, top-N selection and
//! the export flags.

use reddit_repost::data_analysis::over_18_flags;
use reddit_repost::reddit_post::RedditPost;
use reddit_repost::subreddit_stats::{
    compute_subreddits_stats, get_most_popular_subreddits, merge_subreddits_stats, SubredditStats,
};

fn mk_post(community: &str, comments: i32, score: i32, over_18: bool) -> RedditPost {
    RedditPost {
        href_url: None,
        num_comments: comments,
        promoted_url: None,
        score,
        gilded: 0,
        subreddit: community.to_string(),
        id: String::new(),
        original_link: None,
        title: String::new(),
        is_self: false,
        selftext: String::new(),
        domain: String::new(),
        url: "http://u".to_string(),
        over_18,
        author_cakeday: None,
        permalink: "/p".to_string(),
        author: String::new(),
        subreddit_id: String::new(),
        created_utc: 0,
    }
}

fn stats(n_posts: i32, n_comments: i32, sum_score: i64, n_posts_over_18: i32) -> SubredditStats {
    SubredditStats { n_posts, n_comments, sum_score, n_posts_over_18 }
}

#[test]
fn aggregation_exact_values() {
    let posts = vec![
        mk_post("a", 3, 10, false),
        mk_post("b", 1, -2, true),
        mk_post("a", 4, 5, true),
    ];
    let r = compute_subreddits_stats(&posts);
    assert_eq!(
        r,
        vec![
            ("a".to_string(), stats(2, 7, 15, 1)),
            ("b".to_string(), stats(1, 1, -2, 1)),
        ]
    );
}

#[test]
fn aggregation_of_empty_stream() {
    let r = compute_subreddits_stats(&Vec::new());
    assert!(r.is_empty());
}

#[test]
fn shard_merge_equals_whole_aggregation() {
    let shard1 = vec![mk_post("a", 3, 10, false), mk_post("b", 1, -2, true)];
    let shard2 = vec![mk_post("b", 2, 4, false), mk_post("c", 5, 1, false)];
    let mut whole = shard1.clone();
    whole.extend(shard2.iter().cloned());
    let merged = merge_subreddits_stats(
        compute_subreddits_stats(&shard1),
        &compute_subreddits_stats(&shard2),
    );
    assert_eq!(merged, compute_subreddits_stats(&whole));
}

#[test]
fn merge_sums_field_by_field() {
    let a = vec![("a".to_string(), stats(1, 2, 3, 0))];
    let b = vec![
        ("a".to_string(), stats(10, 20, 30, 1)),
        ("b".to_string(), stats(5, 5, 5, 5)),
    ];
    let merged = merge_subreddits_stats(a, &b);
    assert_eq!(
        merged,
        vec![
            ("a".to_string(), stats(11, 22, 33, 1)),
            ("b".to_string(), stats(5, 5, 5, 5)),
        ]
    );
}

#[test]
fn top_n_orders_by_score_descending() {
    let input = vec![
        ("low".to_string(), stats(1, 0, 5, 0)),
        ("high".to_string(), stats(1, 0, 50, 0)),
        ("mid".to_string(), stats(1, 0, 20, 0)),
    ];
    let r = get_most_popular_subreddits(2, input);
    assert_eq!(
        r,
        vec![
            ("high".to_string(), stats(1, 0, 50, 0)),
            ("mid".to_string(), stats(1, 0, 20, 0)),
        ]
    );
}

#[test]
fn top_n_boundary_returns_all() {
    let input = vec![
        ("a".to_string(), stats(1, 0, 5, 0)),
        ("b".to_string(), stats(2, 3, 50, 1)),
    ];
    let r = get_most_popular_subreddits(10, input.clone());
    assert_eq!(r.len(), 2);
    // every community, statistics unmodified, sorted by score
    assert_eq!(
        r,
        vec![
            ("b".to_string(), stats(2, 3, 50, 1)),
            ("a".to_string(), stats(1, 0, 5, 0)),
        ]
    );
}

#[test]
fn top_n_ties_keep_input_order() {
    let input = vec![
        ("first".to_string(), stats(1, 0, 7, 0)),
        ("second".to_string(), stats(1, 0, 7, 0)),
    ];
    let r = get_most_popular_subreddits(2, input.clone());
    assert_eq!(r, input);
}

#[test]
fn over_18_flags_exact() {
    let stats_map = vec![
        ("safe".to_string(), stats(10, 0, 0, 3)),
        ("edgy".to_string(), stats(10, 0, 0, 6)),
    ];
    let names = vec!["edgy".to_string(), "safe".to_string()];
    let flags = over_18_flags(&names, &stats_map);
    assert_eq!(flags, vec![1, 0]);
}
