//! The url index, the repost attributor and the link matrices on concrete
//! scenarios.

use reddit_repost::data_analysis::{
    get_links, get_posts_with_urls, get_reposts_stats, get_shared_links_between_subreddits,
    get_reposts_across_subreddits, compute_ppmi_marginals, SubredditsFromUrls,
};
use reddit_repost::reddit_post::RedditPost;

fn mk_post(id: &str, community: &str, url: &str, t: i32) -> RedditPost {
    RedditPost {
        href_url: None,
        num_comments: 0,
        promoted_url: None,
        score: 0,
        gilded: 0,
        subreddit: community.to_string(),
        id: id.to_string(),
        original_link: None,
        title: String::new(),
        is_self: false,
        selftext: String::new(),
        domain: String::new(),
        url: url.to_string(),
        over_18: false,
        author_cakeday: None,
        permalink: format!("/r/{}/comments/{}/", community, id),
        author: String::new(),
        subreddit_id: String::new(),
        created_utc: t,
    }
}

fn abc_index() -> SubredditsFromUrls {
    SubredditsFromUrls {
        urls: vec![("u".to_string(), vec![(0, 100), (1, 200), (2, 300)])],
        subreddits: vec!["A".to_string(), "B".to_string(), "C".to_string()],
    }
}

#[test]
fn repost_count_conservation_focal_first() {
    let idx = abc_index();
    let st = get_reposts_stats(&"A".to_string(), &idx).unwrap();
    assert_eq!(st.n_reposted_by_others, 2);
    assert_eq!(st.reposts_by_others, vec![(1, 1), (2, 1)]);
    assert_eq!(st.n_reposts_from_others, 0);
    assert!(st.reposts_from_others.is_empty());
    assert_eq!(st.n_posts, 1);
    assert_eq!(st.n_reposts_from_self, 0);
}

#[test]
fn repost_count_conservation_focal_second() {
    let idx = abc_index();
    let st = get_reposts_stats(&"B".to_string(), &idx).unwrap();
    assert_eq!(st.n_reposts_from_others, 1);
    assert_eq!(st.reposts_from_others, vec![(0, 1)]);
    assert_eq!(st.n_reposted_by_others, 0);
    assert!(st.reposts_by_others.is_empty());
    assert_eq!(st.n_posts, 1);
    assert_eq!(st.n_reposts_from_self, 1);
}

#[test]
fn repost_deduplication() {
    let idx = SubredditsFromUrls {
        urls: vec![("u".to_string(), vec![(0, 100), (1, 200), (1, 300)])],
        subreddits: vec!["A".to_string(), "B".to_string()],
    };
    let st = get_reposts_stats(&"A".to_string(), &idx).unwrap();
    assert_eq!(st.n_reposted_by_others, 1);
    assert_eq!(st.reposts_by_others, vec![(1, 1)]);
}

#[test]
fn reposts_sort_by_time_not_stream_order() {
    // occurrences arrive out of time order; the attributor sorts them
    let idx = SubredditsFromUrls {
        urls: vec![("u".to_string(), vec![(1, 300), (0, 100), (1, 200)])],
        subreddits: vec!["A".to_string(), "B".to_string()],
    };
    let st = get_reposts_stats(&"A".to_string(), &idx).unwrap();
    // sorted by time: (A,100), (B,200), (B,300): A first, B credited once
    assert_eq!(st.n_reposted_by_others, 1);
    assert_eq!(st.reposts_by_others, vec![(1, 1)]);
}

#[test]
fn reposts_unknown_community_fails() {
    let idx = abc_index();
    assert!(get_reposts_stats(&"nosuch".to_string(), &idx).is_err());
}

#[test]
fn single_occurrence_contributes_nothing() {
    let idx = SubredditsFromUrls {
        urls: vec![("u".to_string(), vec![(0, 100)])],
        subreddits: vec!["A".to_string()],
    };
    let st = get_reposts_stats(&"A".to_string(), &idx).unwrap();
    assert_eq!(st.n_posts, 0);
    assert_eq!(st.n_reposts_from_self, 0);
    assert_eq!(st.n_reposted_by_others, 0);
    assert_eq!(st.n_reposts_from_others, 0);
}

#[test]
fn index_stability_over_different_streams() {
    let allow = vec!["A".to_string(), "B".to_string()];
    let posts1 = vec![mk_post("1", "B", "http://x/1", 10)];
    let posts2 = vec![
        mk_post("2", "A", "http://x/2", 20),
        mk_post("3", "C", "http://x/3", 30),
    ];
    let idx1 = get_links(&posts1, Some(&allow));
    let idx2 = get_links(&posts2, Some(&allow));
    assert_eq!(idx1.subreddits, allow);
    assert_eq!(idx2.subreddits, allow);
}

#[test]
fn get_links_first_seen_numbering() {
    let posts = vec![
        mk_post("1", "X", "http://u", 100),
        mk_post("2", "Y", "http://u", 200),
        mk_post("3", "Z", "http://v", 50),
        mk_post("4", "X", "http://v", 150),
    ];
    let idx = get_links(&posts, None);
    assert_eq!(
        idx.subreddits,
        vec!["X".to_string(), "Y".to_string(), "Z".to_string()]
    );
    assert_eq!(
        idx.urls,
        vec![
            ("http://u".to_string(), vec![(0, 100), (1, 200)]),
            ("http://v".to_string(), vec![(2, 50), (0, 150)]),
        ]
    );
}

#[test]
fn get_links_skips_self_posts() {
    let mut p = mk_post("1", "X", "http://u", 100);
    p.url = p.permalink.clone();
    let posts = vec![p, mk_post("2", "Y", "http://u", 200)];
    let idx = get_links(&posts, None);
    assert_eq!(idx.subreddits, vec!["Y".to_string()]);
    assert_eq!(idx.urls, vec![("http://u".to_string(), vec![(0, 200)])]);
}

#[test]
fn extend_index_with_other_communities() {
    let allow = vec!["A".to_string()];
    let posts = vec![mk_post("1", "A", "http://u", 100)];
    let mut idx = get_links(&posts, Some(&allow));
    let others = vec![
        mk_post("2", "B", "http://u", 200),
        mk_post("3", "C", "http://w", 300),
        mk_post("4", "A", "http://u", 400),
    ];
    get_posts_with_urls(&others, &mut idx);
    // B gains index 1; C's url is unknown; A's own posts are not re-added
    assert_eq!(idx.subreddits, vec!["A".to_string(), "B".to_string()]);
    assert_eq!(
        idx.urls,
        vec![("http://u".to_string(), vec![(0, 100), (1, 200)])]
    );
}

fn cell(matrix: &[(usize, Vec<(usize, u32)>)], a: usize, b: usize) -> u32 {
    for (row_key, row) in matrix {
        if *row_key == a {
            for (col_key, v) in row {
                if *col_key == b {
                    return *v;
                }
            }
            return 0;
        }
    }
    0
}

#[test]
fn end_to_end_shared_links_and_reposts() {
    let posts = vec![
        mk_post("1", "X", "http://u", 100),
        mk_post("2", "Y", "http://u", 200),
        mk_post("3", "Z", "http://v", 50),
        mk_post("4", "X", "http://v", 150),
    ];
    let idx = get_links(&posts, None);
    // X = 0, Y = 1, Z = 2
    let across = get_reposts_across_subreddits(&idx);
    assert_eq!(cell(&across.matrix, 0, 1), 1); // X first on u, Y reposted
    assert_eq!(cell(&across.matrix, 2, 0), 1); // Z first on v, X reposted
    assert_eq!(cell(&across.matrix, 1, 0), 0);
    assert_eq!(cell(&across.matrix, 0, 2), 0);
    let shared = get_shared_links_between_subreddits(idx);
    assert_eq!(cell(&shared.n_shared_urls, 0, 1), 1);
    assert_eq!(cell(&shared.n_shared_urls, 1, 0), 1);
    assert_eq!(cell(&shared.n_shared_urls, 0, 2), 1);
    assert_eq!(cell(&shared.n_shared_urls, 2, 0), 1);
    assert_eq!(cell(&shared.n_shared_urls, 1, 2), 0);
    assert_eq!(cell(&shared.n_shared_urls, 0, 0), 0);
}

#[test]
fn shared_links_matrix_is_symmetric() {
    let posts = vec![
        mk_post("1", "X", "http://u", 1),
        mk_post("2", "Y", "http://u", 2),
        mk_post("3", "X", "http://v", 3),
        mk_post("4", "Y", "http://v", 4),
        mk_post("5", "Z", "http://v", 5),
        mk_post("6", "Z", "http://u", 6),
    ];
    let idx = get_links(&posts, None);
    let shared = get_shared_links_between_subreddits(idx);
    for a in 0..3 {
        for b in 0..3 {
            assert_eq!(
                cell(&shared.n_shared_urls, a, b),
                cell(&shared.n_shared_urls, b, a)
            );
        }
        assert_eq!(cell(&shared.n_shared_urls, a, a), 0);
    }
    // both urls shared by every pair
    assert_eq!(cell(&shared.n_shared_urls, 0, 1), 2);
    assert_eq!(cell(&shared.n_shared_urls, 1, 2), 2);
}

#[test]
fn shared_links_count_urls_not_posts() {
    // two posts of the same url by the same pair still count one url
    let posts = vec![
        mk_post("1", "X", "http://u", 1),
        mk_post("2", "Y", "http://u", 2),
        mk_post("3", "Y", "http://u", 3),
    ];
    let idx = get_links(&posts, None);
    let shared = get_shared_links_between_subreddits(idx);
    assert_eq!(cell(&shared.n_shared_urls, 0, 1), 1);
    assert_eq!(cell(&shared.n_shared_urls, 1, 0), 1);
}

#[test]
fn reposts_across_project_restricts_and_reindexes() {
    let posts = vec![
        mk_post("1", "X", "http://u", 100),
        mk_post("2", "Y", "http://u", 200),
        mk_post("3", "Z", "http://v", 50),
        mk_post("4", "X", "http://v", 150),
    ];
    let idx = get_links(&posts, None);
    let across = get_reposts_across_subreddits(&idx);
    let projected = across.project(&vec!["X".to_string(), "Y".to_string()]);
    assert_eq!(
        projected.subreddits,
        vec!["X".to_string(), "Y".to_string()]
    );
    // only X -> Y survives; Z is outside the projection; empty rows dropped
    assert_eq!(projected.matrix, vec![(0, vec![(1, 1)])]);
}

#[test]
fn ppmi_marginals_exact_sums() {
    let shared = reddit_repost::data_analysis::UrlsBetweenSubreddits {
        subreddits: vec!["X".to_string(), "Y".to_string(), "Z".to_string()],
        n_shared_urls: vec![
            (0, vec![(1, 1), (2, 2)]),
            (1, vec![(0, 1)]),
            (2, vec![(0, 2)]),
        ],
    };
    let (sums, total) = compute_ppmi_marginals(&shared);
    assert_eq!(sums, vec![(0, 3), (1, 1), (2, 2)]);
    assert_eq!(total, 6);
}
