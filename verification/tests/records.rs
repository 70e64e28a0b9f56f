//! Record-level behaviour: link detection, record simplification, repost
//! table sorting and display, json shape tracking, and timing.

use reddit_repost::data_analysis::{RepostStats, RepostStatsSorted};
use reddit_repost::edit_state::EditState;
use reddit_repost::possible_types::{JsonValue, PossibleTypes, ValueType};
use reddit_repost::reddit_comment::RedditComment;
use reddit_repost::reddit_post::RedditPost;
use reddit_repost::simplify_dataset::RedditPostJSON;
use reddit_repost::subreddit_posts::get_subreddit_posts;
use reddit_repost::utils::measure_time;

fn mk_json(subreddit: Option<&str>) -> RedditPostJSON {
    RedditPostJSON {
        href_url: None,
        num_comments: 2,
        promoted_url: None,
        score: 7,
        hidden: None,
        gilded: 0,
        subreddit: subreddit.map(|s| s.to_string()),
        id: "abc".to_string(),
        title: "t".to_string(),
        url: "http://u".to_string(),
        over_18: false,
        author_cakeday: None,
        permalink: "/p".to_string(),
        author: "me".to_string(),
        created_utc: 42,
    }
}

#[test]
fn linked_url_detection() {
    let post = mk_json(Some("a")).into_reddit_post().unwrap();
    assert_eq!(post.get_linked_url(), Some("http://u".to_string()));
    let mut self_post = mk_json(Some("a")).into_reddit_post().unwrap();
    self_post.url = self_post.permalink.clone();
    assert_eq!(self_post.get_linked_url(), None);
}

#[test]
fn simplify_keeps_ordinary_record() {
    let p = mk_json(Some("a")).into_reddit_post().unwrap();
    assert_eq!(p.subreddit, "a");
    assert_eq!(p.num_comments, 2);
    assert_eq!(p.score, 7);
    assert_eq!(p.created_utc, 42);
    assert_eq!(p.id, "abc");
}

#[test]
fn simplify_drops_unwanted_records() {
    assert!(mk_json(None).into_reddit_post().is_none());
    let mut promoted = mk_json(Some("a"));
    promoted.promoted_url = Some("http://ad".to_string());
    assert!(promoted.into_reddit_post().is_none());
    let mut hidden = mk_json(Some("a"));
    hidden.hidden = Some(true);
    assert!(hidden.into_reddit_post().is_none());
    let mut shown = mk_json(Some("a"));
    shown.hidden = Some(false);
    assert!(shown.into_reddit_post().is_some());
}

#[test]
fn repost_stats_sort_descending_stable() {
    let st = RepostStats {
        n_posts: 9,
        n_reposts_from_others: 1,
        n_reposted_by_others: 2,
        n_reposts_from_self: 3,
        reposts_from_others: vec![(5, 1), (6, 4), (7, 4)],
        reposts_by_others: vec![(1, 2), (2, 9), (3, 5)],
    };
    let sorted = st.sort(2);
    assert_eq!(sorted.n_posts, 9);
    assert_eq!(sorted.n_reposts_from_others, 1);
    assert_eq!(sorted.n_reposted_by_others, 2);
    assert_eq!(sorted.n_reposts_from_self, 3);
    // descending by count, ties keep first-credit order, truncated to two
    assert_eq!(sorted.reposts_from_others, vec![(6, 4), (7, 4)]);
    assert_eq!(sorted.reposts_by_others, vec![(2, 9), (3, 5)]);
}

#[test]
fn repost_stats_display_resolves_names() {
    let sorted = RepostStatsSorted {
        n_posts: 1,
        n_reposts_from_others: 2,
        n_reposted_by_others: 3,
        n_reposts_from_self: 4,
        reposts_from_others: vec![(1, 5)],
        reposts_by_others: vec![(0, 6)],
    };
    let shown = sorted.display(vec!["zero".to_string(), "one".to_string()]);
    assert_eq!(shown.reposts_from_others, vec![("one".to_string(), 5)]);
    assert_eq!(shown.reposts_by_others, vec![("zero".to_string(), 6)]);
    assert_eq!(shown.n_reposts_from_self, 4);
}

fn mk_post(id: &str, community: &str, url: &str) -> RedditPost {
    RedditPost {
        href_url: None,
        num_comments: 0,
        promoted_url: None,
        score: 0,
        gilded: 0,
        subreddit: community.to_string(),
        id: id.to_string(),
        original_link: None,
        title: String::new(),
        is_self: false,
        selftext: String::new(),
        domain: String::new(),
        url: url.to_string(),
        over_18: false,
        author_cakeday: None,
        permalink: format!("/r/{}/comments/{}/", community, id),
        author: String::new(),
        subreddit_id: String::new(),
        created_utc: 0,
    }
}

#[test]
fn subreddit_posts_grouped_and_deduplicated() {
    let posts = vec![
        mk_post("1", "a", "http://u"),
        mk_post("1", "a", "http://u"), // same id: kept once
        mk_post("2", "a", "http://u"),
        mk_post("3", "b", "http://u"), // not a chosen community
        mk_post("4", "a", "http://w"),
    ];
    let names = vec!["a".to_string(), "c".to_string()];
    let r = get_subreddit_posts(&posts, &names);
    assert_eq!(r.len(), 2);
    assert_eq!(r[0].0, "a");
    assert_eq!(r[0].1.len(), 2);
    assert_eq!(r[0].1[0].0, "http://u");
    let ids: Vec<&str> = r[0].1[0].1.iter().map(|p| p.id.as_str()).collect();
    assert_eq!(ids, vec!["1", "2"]);
    assert_eq!(r[0].1[1].0, "http://w");
    assert_eq!(r[1].0, "c");
    assert!(r[1].1.is_empty());
}

fn obj(fields: Vec<(&str, JsonValue)>) -> JsonValue {
    JsonValue::Object(fields.into_iter().map(|(k, v)| (k.to_string(), v)).collect())
}

#[test]
fn possible_types_tracks_shapes() {
    let mut pt = PossibleTypes::new();
    pt.add_type(&obj(vec![
        ("a", JsonValue::Number),
        ("b", JsonValue::Str),
    ]));
    pt.add_type(&obj(vec![("a", JsonValue::Bool)]));
    assert!(pt.primitive_types().is_empty());
    let a = pt.field_types(&"a".to_string()).unwrap();
    assert_eq!(a.primitive_types(), &vec![ValueType::Number, ValueType::Bool]);
    // b was missing from the second record, so it may also be null
    let b = pt.field_types(&"b".to_string()).unwrap();
    assert_eq!(b.primitive_types(), &vec![ValueType::Str, ValueType::Null]);
    assert!(pt.field_types(&"c".to_string()).is_none());
}

#[test]
fn possible_types_nested_objects() {
    let mut pt = PossibleTypes::new();
    pt.add_type(&obj(vec![("outer", obj(vec![("inner", JsonValue::Null)]))]));
    let outer = pt.field_types(&"outer".to_string()).unwrap();
    let inner = outer.field_types(&"inner".to_string()).unwrap();
    assert_eq!(inner.primitive_types(), &vec![ValueType::Null]);
}

#[test]
fn measure_time_returns_closure_result() {
    let (elapsed, value) = measure_time(|| 2 + 2);
    assert_eq!(value, 4);
    let _ = elapsed;
}

#[test]
fn comment_record_holds_edit_state() {
    let c = RedditComment {
        author: "a".to_string(),
        subreddit_id: "t5".to_string(),
        parent_id: "t1".to_string(),
        gilded: 0,
        created_utc: "123".to_string(),
        edited: EditState::UTC(456),
        archived: false,
        link_id: "t3".to_string(),
        body: "hi".to_string(),
        author_flair_text: None,
        distinguished: None,
        controversiality: 0,
        ups: 1,
        score_hidden: false,
        name: "t1_x".to_string(),
        subreddit: "s".to_string(),
        downs: 0,
        score: 1,
        author_flair_css_class: None,
        retrieved_on: 0,
        id: "x".to_string(),
    };
    assert_eq!(c.edited, EditState::UTC(456));
    assert_ne!(c.edited, EditState::Bool(false));
}
