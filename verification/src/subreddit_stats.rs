//! Per-community statistics: a single aggregation pass, a field-wise merge
//! for independently computed shards, and the top-N selection.

use vstd::prelude::*;
use crate::assoc::{key_index, has_key, value_of, keys_of, distinct_keys};
use crate::assoc::{lemma_key_index, lemma_key_present, lemma_key_index_push,
    lemma_key_index_update, lemma_has_key_contains, lemma_key_index_distinct};
use crate::reddit_post::RedditPost;

verus! {

/// The interesting statistics of one community.
#[derive(Copy, Clone, Debug, PartialEq, Eq, Structural)]
pub struct SubredditStats {
    pub n_posts: i32,
    pub n_comments: i32,
    pub sum_score: i64,
    pub n_posts_over_18: i32,
}

/// The mathematical value of a `SubredditStats`.
pub ghost struct StatsModel {
    pub n_posts: int,
    pub n_comments: int,
    pub sum_score: int,
    pub n_posts_over_18: int,
}

impl SubredditStats {
    pub open spec fn model(self) -> StatsModel {
        StatsModel {
            n_posts: self.n_posts as int,
            n_comments: self.n_comments as int,
            sum_score: self.sum_score as int,
            n_posts_over_18: self.n_posts_over_18 as int,
        }
    }
}

pub open spec fn stats_zero() -> StatsModel {
    StatsModel { n_posts: 0, n_comments: 0, sum_score: 0, n_posts_over_18: 0 }
}

pub open spec fn stats_add(a: StatsModel, b: StatsModel) -> StatsModel {
    StatsModel {
        n_posts: a.n_posts + b.n_posts,
        n_comments: a.n_comments + b.n_comments,
        sum_score: a.sum_score + b.sum_score,
        n_posts_over_18: a.n_posts_over_18 + b.n_posts_over_18,
    }
}

/// The contribution of a single post.
pub open spec fn post_stats(p: RedditPost) -> StatsModel {
    StatsModel {
        n_posts: 1,
        n_comments: p.num_comments as int,
        sum_score: p.score as int,
        n_posts_over_18: if p.over_18 { 1 } else { 0 },
    }
}

/// The statistics of community `k` over a post sequence: one `post_stats`
/// contribution per post of that community.
pub open spec fn community_stats(posts: Seq<RedditPost>, k: Seq<char>) -> StatsModel
    decreases posts.len(),
{
    if posts.len() == 0 {
        stats_zero()
    } else if posts.last().subreddit@ == k {
        stats_add(community_stats(posts.drop_last(), k), post_stats(posts.last()))
    } else {
        community_stats(posts.drop_last(), k)
    }
}

/// The distinct communities of a post stream, in first-appearance order.
pub open spec fn seen_communities(posts: Seq<RedditPost>) -> Seq<Seq<char>>
    decreases posts.len(),
{
    if posts.len() == 0 {
        Seq::empty()
    } else {
        let prev = seen_communities(posts.drop_last());
        if prev.contains(posts.last().subreddit@) {
            prev
        } else {
            prev.push(posts.last().subreddit@)
        }
    }
}

pub open spec fn abs_val(x: int) -> int {
    if x < 0 {
        -x
    } else {
        x
    }
}

/// Sum of the absolute comment counts of a post sequence.
pub open spec fn sum_abs_comments(posts: Seq<RedditPost>) -> int
    decreases posts.len(),
{
    if posts.len() == 0 {
        0
    } else {
        sum_abs_comments(posts.drop_last()) + abs_val(posts.last().num_comments as int)
    }
}

/// Sum of the absolute scores of a post sequence.
pub open spec fn sum_abs_scores(posts: Seq<RedditPost>) -> int
    decreases posts.len(),
{
    if posts.len() == 0 {
        0
    } else {
        sum_abs_scores(posts.drop_last()) + abs_val(posts.last().score as int)
    }
}

/// The model of an executable statistics mapping.
pub open spec fn stats_view(v: Seq<(String, SubredditStats)>) -> Seq<(Seq<char>, StatsModel)> {
    v.map_values(|e: (String, SubredditStats)| (e.0@, e.1.model()))
}

pub proof fn lemma_community_stats_bounds(posts: Seq<RedditPost>, k: Seq<char>)
    ensures
        0 <= community_stats(posts, k).n_posts <= posts.len(),
        0 <= community_stats(posts, k).n_posts_over_18 <= community_stats(posts, k).n_posts,
        abs_val(community_stats(posts, k).n_comments) <= sum_abs_comments(posts),
        abs_val(community_stats(posts, k).sum_score) <= sum_abs_scores(posts),
    decreases posts.len(),
{
    if posts.len() > 0 {
        lemma_community_stats_bounds(posts.drop_last(), k);
    }
}

/// The absolute sums over a prefix never exceed those over the whole stream.
pub proof fn lemma_sums_prefix(posts: Seq<RedditPost>, i: int)
    requires
        0 <= i <= posts.len(),
    ensures
        sum_abs_comments(posts.take(i)) <= sum_abs_comments(posts),
        sum_abs_scores(posts.take(i)) <= sum_abs_scores(posts),
    decreases posts.len(),
{
    if i == posts.len() {
        assert(posts.take(i) =~= posts);
    } else {
        assert(posts.take(i) =~= posts.drop_last().take(i));
        lemma_sums_prefix(posts.drop_last(), i);
        assert(abs_val(posts.last().num_comments as int) >= 0);
        assert(abs_val(posts.last().score as int) >= 0);
    }
}

/// Find the position of a community in a statistics mapping.
pub fn stats_find(v: &Vec<(String, SubredditStats)>, name: &String) -> (r: Option<usize>)
    ensures
        match r {
            Some(i) => i < v@.len() && key_index(stats_view(v@), name@) == i as int,
            None => !has_key(stats_view(v@), name@),
        },
{
    let ghost m = stats_view(v@);
    let n = v.len();
    for j in 0..n
        invariant
            n == v@.len(),
            m == stats_view(v@),
            forall|jj: int| 0 <= jj < j ==> (#[trigger] m[jj].0) != name@,
    {
        assert(m[j as int].0 == v@[j as int].0@);
        if v[j].0 == *name {
            proof {
                lemma_key_present(m, j as int);
                lemma_key_index(m, name@);
                let ki = key_index(m, name@);
                if ki > j as int {
                    assert(m[j as int].0 != name@);
                }
            }
            return Some(j);
        }
    }
    proof {
        lemma_key_index(m, name@);
        if has_key(m, name@) {
            assert(m[key_index(m, name@)].0 != name@);
        }
    }
    None
}

/// One aggregation pass: every post updates exactly one community's entry,
/// created on first sight.  The result maps each community, in
/// first-appearance order, to the count and sums of its posts.
pub fn compute_subreddits_stats(posts: &Vec<RedditPost>) -> (r: Vec<(String, SubredditStats)>)
    requires
        posts@.len() <= i32::MAX as int,
        sum_abs_comments(posts@) <= i32::MAX as int,
        sum_abs_scores(posts@) <= i64::MAX as int,
    ensures
        distinct_keys(stats_view(r@)),
        keys_of(stats_view(r@)) == seen_communities(posts@),
        forall|k: Seq<char>| #[trigger] has_key(stats_view(r@), k) ==> value_of(
            stats_view(r@),
            k,
        ) == community_stats(posts@, k),
{
    let mut r: Vec<(String, SubredditStats)> = Vec::new();
    let n = posts.len();
    assert(keys_of(stats_view(r@)) =~= seen_communities(posts@.take(0)));
    for idx in 0..n
        invariant
            n == posts@.len(),
            posts@.len() <= i32::MAX as int,
            sum_abs_comments(posts@) <= i32::MAX as int,
            sum_abs_scores(posts@) <= i64::MAX as int,
            distinct_keys(stats_view(r@)),
            keys_of(stats_view(r@)) == seen_communities(posts@.take(idx as int)),
            forall|k: Seq<char>| #[trigger] has_key(stats_view(r@), k) ==> value_of(
                stats_view(r@),
                k,
            ) == community_stats(posts@.take(idx as int), k),
    {
        let ghost prefix = posts@.take(idx as int);
        let ghost prefix1 = posts@.take(idx as int + 1);
        let ghost m = stats_view(r@);
        let p = &posts[idx];
        proof {
            assert(prefix1.drop_last() =~= prefix);
            assert(prefix1.last() == posts@[idx as int]);
            lemma_has_key_contains(m, p.subreddit@);
        }
        let delta_over: i32 = if p.over_18 {
            1
        } else {
            0
        };
        let pos = stats_find(&r, &p.subreddit);
        match pos {
            Some(i) => {
                proof {
                    lemma_key_index(m, p.subreddit@);
                    lemma_community_stats_bounds(prefix, p.subreddit@);
                    lemma_sums_prefix(posts@, idx as int);
                    lemma_sums_prefix(posts@, idx as int + 1);
                    assert(sum_abs_comments(prefix1) == sum_abs_comments(prefix) + abs_val(
                        p.num_comments as int,
                    ));
                    assert(sum_abs_scores(prefix1) == sum_abs_scores(prefix) + abs_val(
                        p.score as int,
                    ));
                    assert(value_of(m, p.subreddit@) == community_stats(prefix, p.subreddit@));
                    assert(m[i as int].1 == community_stats(prefix, p.subreddit@));
                    assert(m[i as int] == (stats_entry_view(r@[i as int]).0, stats_entry_view(r@[i as int]).1));
                }
                let cur: SubredditStats = r[i].1;
                let updated = SubredditStats {
                    n_posts: cur.n_posts + 1,
                    n_comments: cur.n_comments + p.num_comments,
                    sum_score: cur.sum_score + (p.score as i64),
                    n_posts_over_18: cur.n_posts_over_18 + delta_over,
                };
                r[i].1 = updated;
                proof {
                    let m1 = stats_view(r@);
                    assert(m1 =~= m.update(i as int, (p.subreddit@, updated.model())));
                    lemma_update_facts(m, i as int, updated.model(), p.subreddit@, prefix, prefix1);
                }
            },
            None => {
                let entry = SubredditStats {
                    n_posts: 1,
                    n_comments: p.num_comments,
                    sum_score: p.score as i64,
                    n_posts_over_18: delta_over,
                };
                r.push((p.subreddit.clone(), entry));
                proof {
                    let m1 = stats_view(r@);
                    assert(m1 =~= m.push((p.subreddit@, entry.model())));
                    lemma_push_facts(m, (p.subreddit@, entry.model()), prefix, prefix1);
                }
            },
        }
    }
    proof {
        assert(posts@.take(n as int) =~= posts@);
    }
    r
}

/// The view of one statistics entry.
pub open spec fn stats_entry_view(e: (String, SubredditStats)) -> (Seq<char>, StatsModel) {
    (e.0@, e.1.model())
}

proof fn lemma_update_facts(
    m: Seq<(Seq<char>, StatsModel)>,
    i: int,
    v: StatsModel,
    k: Seq<char>,
    prefix: Seq<RedditPost>,
    prefix1: Seq<RedditPost>,
)
    requires
        0 <= i < m.len(),
        m[i].0 == k,
        key_index(m, k) == i,
        distinct_keys(m),
        keys_of(m) == seen_communities(prefix),
        forall|k2: Seq<char>| #[trigger] has_key(m, k2) ==> value_of(m, k2) == community_stats(
            prefix,
            k2,
        ),
        prefix1.drop_last() == prefix,
        prefix1.len() >= 1,
        prefix1.last().subreddit@ == k,
        v == stats_add(community_stats(prefix, k), post_stats(prefix1.last())),
    ensures
        distinct_keys(m.update(i, (k, v))),
        keys_of(m.update(i, (k, v))) == seen_communities(prefix1),
        forall|k2: Seq<char>| #[trigger] has_key(m.update(i, (k, v)), k2) ==> value_of(
            m.update(i, (k, v)),
            k2,
        ) == community_stats(prefix1, k2),
{
    let m1 = m.update(i, (k, v));
    assert(m1[i] == (k, v));
    assert forall|a: int, b: int| 0 <= a < b < m1.len() implies (#[trigger] m1[a].0) != (
    #[trigger] m1[b].0) by {
        assert(m1[a].0 == m[a].0);
        assert(m1[b].0 == m[b].0);
    }
    assert(keys_of(m1) =~= keys_of(m));
    lemma_has_key_contains(m, k);
    assert(seen_communities(prefix).contains(k));
    assert(seen_communities(prefix1) == seen_communities(prefix));
    assert forall|k2: Seq<char>| #[trigger] has_key(m1, k2) implies value_of(m1, k2)
        == community_stats(prefix1, k2) by {
        lemma_key_index_update(m, i, v, k2);
        lemma_key_index(m, k2);
        assert(has_key(m, k2));
        if k2 == k {
            assert(value_of(m1, k2) == v);
            assert(community_stats(prefix1, k2) == stats_add(
                community_stats(prefix, k2),
                post_stats(prefix1.last()),
            ));
        } else {
            assert(key_index(m, k2) != i);
            assert(value_of(m1, k2) == m[key_index(m, k2)].1);
            assert(community_stats(prefix1, k2) == community_stats(prefix, k2));
        }
    }
}

proof fn lemma_push_facts(
    m: Seq<(Seq<char>, StatsModel)>,
    e: (Seq<char>, StatsModel),
    prefix: Seq<RedditPost>,
    prefix1: Seq<RedditPost>,
)
    requires
        !has_key(m, e.0),
        distinct_keys(m),
        keys_of(m) == seen_communities(prefix),
        forall|k2: Seq<char>| #[trigger] has_key(m, k2) ==> value_of(m, k2) == community_stats(
            prefix,
            k2,
        ),
        prefix1.drop_last() == prefix,
        prefix1.len() >= 1,
        prefix1.last().subreddit@ == e.0,
        e.1 == stats_add(stats_zero(), post_stats(prefix1.last())),
    ensures
        distinct_keys(m.push(e)),
        keys_of(m.push(e)) == seen_communities(prefix1),
        forall|k2: Seq<char>| #[trigger] has_key(m.push(e), k2) ==> value_of(m.push(e), k2)
            == community_stats(prefix1, k2),
{
    let m1 = m.push(e);
    lemma_key_index(m, e.0);
    assert forall|a: int, b: int| 0 <= a < b < m1.len() implies (#[trigger] m1[a].0) != (
    #[trigger] m1[b].0) by {
        if b < m.len() {
            assert(m1[a].0 == m[a].0);
            assert(m1[b].0 == m[b].0);
        } else {
            assert(m1[b] == e);
            assert(m1[a].0 == m[a].0);
            assert(m[a].0 != e.0);
        }
    }
    lemma_has_key_contains(m, e.0);
    assert(!seen_communities(prefix).contains(e.0));
    assert(seen_communities(prefix1) == seen_communities(prefix).push(e.0));
    assert(keys_of(m1) =~= keys_of(m).push(e.0));
    assert forall|k2: Seq<char>| #[trigger] has_key(m1, k2) implies value_of(m1, k2)
        == community_stats(prefix1, k2) by {
        lemma_key_index_push(m, e, k2);
        lemma_key_index(m, k2);
        lemma_key_index(m1, k2);
        if has_key(m, k2) {
            assert(key_index(m1, k2) == key_index(m, k2));
            assert(m1[key_index(m, k2)] == m[key_index(m, k2)]);
            assert(m[key_index(m, k2)].0 == k2);
            assert(k2 != e.0);
            assert(value_of(m1, k2) == value_of(m, k2));
            assert(community_stats(prefix1, k2) == community_stats(prefix, k2));
        } else {
            assert(k2 == e.0);
            assert(key_index(m1, k2) == m.len());
            assert(value_of(m1, k2) == e.1);
            assert(community_stats(prefix, k2) == stats_zero()) by {
                lemma_absent_community_zero(prefix, k2);
            }
            assert(community_stats(prefix1, k2) == stats_add(
                community_stats(prefix, k2),
                post_stats(prefix1.last()),
            ));
        }
    }
}

/// Field-wise merge of two statistics mappings, as produced by independent
/// aggregation shards: entries of `other` are summed into matching entries
/// of `stats`; fresh communities are appended in `other`'s order.
pub fn merge_subreddits_stats(
    stats: Vec<(String, SubredditStats)>,
    other: &Vec<(String, SubredditStats)>,
) -> (r: Vec<(String, SubredditStats)>)
    requires
        distinct_keys(stats_view(stats@)),
        distinct_keys(stats_view(other@)),
        forall|i: int, j: int|
            0 <= i < stats@.len() && 0 <= j < other@.len() && (#[trigger] stats_view(stats@)[i]).0
                == (#[trigger] stats_view(other@)[j]).0 ==> {
                let x = stats_view(stats@)[i].1;
                let y = stats_view(other@)[j].1;
                &&& i32::MIN as int <= x.n_posts + y.n_posts <= i32::MAX as int
                &&& i32::MIN as int <= x.n_comments + y.n_comments <= i32::MAX as int
                &&& i64::MIN as int <= x.sum_score + y.sum_score <= i64::MAX as int
                &&& i32::MIN as int <= x.n_posts_over_18 + y.n_posts_over_18 <= i32::MAX as int
            },
    ensures
        distinct_keys(stats_view(r@)),
        keys_of(stats_view(r@)) == keys_of(stats_view(stats@)) + keys_of(stats_view(other@)).filter(
            |k: Seq<char>| !has_key(stats_view(stats@), k),
        ),
        forall|k: Seq<char>| #[trigger] has_key(stats_view(r@), k) <==> (has_key(
            stats_view(stats@),
            k,
        ) || has_key(stats_view(other@), k)),
        forall|k: Seq<char>| #[trigger] has_key(stats_view(r@), k) ==> value_of(stats_view(r@), k)
            == (if has_key(stats_view(stats@), k) && has_key(stats_view(other@), k) {
            stats_add(value_of(stats_view(stats@), k), value_of(stats_view(other@), k))
        } else if has_key(stats_view(stats@), k) {
            value_of(stats_view(stats@), k)
        } else {
            value_of(stats_view(other@), k)
        }),
{
    let ghost a = stats_view(stats@);
    let ghost b = stats_view(other@);
    let mut r = stats;
    let m = other.len();
    proof {
        assert(keys_of(a) + keys_of(stats_view(other@.take(0))).filter(
            |k: Seq<char>| !has_key(a, k),
        ) =~= keys_of(a)) by {
            assert(stats_view(other@.take(0)) =~= Seq::<(Seq<char>, StatsModel)>::empty());
            assert(keys_of(Seq::<(Seq<char>, StatsModel)>::empty()) =~= Seq::<Seq<char>>::empty());
            reveal(Seq::filter);
        }
    }
    for j in 0..m
        invariant
            m == other@.len(),
            b == stats_view(other@),
            distinct_keys(a),
            distinct_keys(b),
            forall|i0: int, j0: int|
                0 <= i0 < a.len() && 0 <= j0 < b.len() && (#[trigger] a[i0]).0 == (
                #[trigger] b[j0]).0 ==> {
                    let x = a[i0].1;
                    let y = b[j0].1;
                    &&& i32::MIN as int <= x.n_posts + y.n_posts <= i32::MAX as int
                    &&& i32::MIN as int <= x.n_comments + y.n_comments <= i32::MAX as int
                    &&& i64::MIN as int <= x.sum_score + y.sum_score <= i64::MAX as int
                    &&& i32::MIN as int <= x.n_posts_over_18 + y.n_posts_over_18
                        <= i32::MAX as int
                },
            distinct_keys(stats_view(r@)),
            keys_of(stats_view(r@)) == keys_of(a) + keys_of(b.take(j as int)).filter(
                |k: Seq<char>| !has_key(a, k),
            ),
            forall|k: Seq<char>| #[trigger] has_key(stats_view(r@), k) <==> (has_key(a, k)
                || has_key(b.take(j as int), k)),
            forall|k: Seq<char>| #[trigger] has_key(stats_view(r@), k) ==> value_of(
                stats_view(r@),
                k,
            ) == (if has_key(a, k) && has_key(b.take(j as int), k) {
                stats_add(value_of(a, k), value_of(b.take(j as int), k))
            } else if has_key(a, k) {
                value_of(a, k)
            } else {
                value_of(b.take(j as int), k)
            }),
    {
        let ghost rv = stats_view(r@);
        let ghost bj = b.take(j as int);
        let ghost bj1 = b.take(j as int + 1);
        let ghost k = b[j as int].0;
        proof {
            assert(bj1.drop_last() =~= bj);
            assert(bj1.last() == b[j as int]);
            assert(stats_view(other@)[j as int] == stats_entry_view(other@[j as int]));
            // the key of other[j] is fresh within b.take(j)
            lemma_key_index(bj, k);
            if has_key(bj, k) {
                let ki = key_index(bj, k);
                assert(bj[ki] == b[ki]);
                assert(b[ki].0 == b[j as int].0);
                assert(false);
            }
            lemma_merge_step(a, b, rv, j as int);
        }
        let entry = &other[j];
        let pos = stats_find(&r, &entry.0);
        match pos {
            Some(i) => {
                proof {
                    lemma_key_index(rv, k);
                    assert(has_key(rv, k));
                    assert(!has_key(bj, k));
                    assert(has_key(a, k));
                    assert(value_of(rv, k) == value_of(a, k));
                    lemma_key_index(a, k);
                    let ia = key_index(a, k);
                    assert(a[ia].0 == b[j as int].0);
                    assert(value_of(a, k) == a[ia].1);
                    assert(rv[i as int].1 == value_of(rv, k));
                }
                let cur: SubredditStats = r[i].1;
                let o: SubredditStats = entry.1;
                let updated = SubredditStats {
                    n_posts: cur.n_posts + o.n_posts,
                    n_comments: cur.n_comments + o.n_comments,
                    sum_score: cur.sum_score + o.sum_score,
                    n_posts_over_18: cur.n_posts_over_18 + o.n_posts_over_18,
                };
                r[i].1 = updated;
                proof {
                    let rv1 = stats_view(r@);
                    assert(rv1 =~= rv.update(i as int, (k, updated.model())));
                    lemma_merge_update_facts(a, b, rv, j as int, i as int, updated.model());
                }
            },
            None => {
                proof {
                    assert(!has_key(rv, k));
                    assert(!has_key(a, k));
                }
                r.push((entry.0.clone(), entry.1));
                proof {
                    let rv1 = stats_view(r@);
                    assert(rv1 =~= rv.push((k, b[j as int].1)));
                    lemma_merge_push_facts(a, b, rv, j as int);
                }
            },
        }
    }
    proof {
        assert(b.take(m as int) =~= b);
    }
    r
}

/// In-step facts: `b.take(j+1)` relates to `b.take(j)` plus the entry `b[j]`.
proof fn lemma_merge_step(
    a: Seq<(Seq<char>, StatsModel)>,
    b: Seq<(Seq<char>, StatsModel)>,
    rv: Seq<(Seq<char>, StatsModel)>,
    j: int,
)
    requires
        0 <= j < b.len(),
        distinct_keys(b),
    ensures
        !has_key(b.take(j), b[j].0),
        has_key(b.take(j + 1), b[j].0),
        value_of(b.take(j + 1), b[j].0) == b[j].1,
        forall|k2: Seq<char>| k2 != b[j].0 ==> (#[trigger] has_key(b.take(j + 1), k2) <==> has_key(
            b.take(j),
            k2,
        )),
        forall|k2: Seq<char>| k2 != b[j].0 && #[trigger] has_key(b.take(j), k2) ==> value_of(
            b.take(j + 1),
            k2,
        ) == value_of(b.take(j), k2),
{
    let bj = b.take(j);
    let bj1 = b.take(j + 1);
    assert(bj1.drop_last() =~= bj);
    assert(bj1 =~= bj.push(b[j]));
    lemma_key_index(bj, b[j].0);
    if has_key(bj, b[j].0) {
        let ki = key_index(bj, b[j].0);
        assert(bj[ki] == b[ki]);
        assert(false);
    }
    lemma_key_index_push(bj, b[j], b[j].0);
    assert(key_index(bj1, b[j].0) == bj.len());
    assert(bj1[bj.len() as int] == b[j]);
    assert forall|k2: Seq<char>| k2 != b[j].0 implies (#[trigger] has_key(bj1, k2) <==> has_key(
        bj,
        k2,
    )) by {
        lemma_key_index_push(bj, b[j], k2);
        lemma_key_index(bj, k2);
    }
    assert forall|k2: Seq<char>| k2 != b[j].0 && #[trigger] has_key(bj, k2) implies value_of(
        bj1,
        k2,
    ) == value_of(bj, k2) by {
        lemma_key_index_push(bj, b[j], k2);
        lemma_key_index(bj, k2);
        assert(bj1[key_index(bj, k2)] == bj[key_index(bj, k2)]);
    }
}

proof fn lemma_merge_update_facts(
    a: Seq<(Seq<char>, StatsModel)>,
    b: Seq<(Seq<char>, StatsModel)>,
    rv: Seq<(Seq<char>, StatsModel)>,
    j: int,
    i: int,
    v: StatsModel,
)
    requires
        0 <= j < b.len(),
        0 <= i < rv.len(),
        distinct_keys(b),
        distinct_keys(rv),
        key_index(rv, b[j].0) == i,
        has_key(a, b[j].0),
        keys_of(rv) == keys_of(a) + keys_of(b.take(j)).filter(|k: Seq<char>| !has_key(a, k)),
        forall|k: Seq<char>| #[trigger] has_key(rv, k) <==> (has_key(a, k) || has_key(
            b.take(j),
            k,
        )),
        forall|k: Seq<char>| #[trigger] has_key(rv, k) ==> value_of(rv, k) == (if has_key(a, k)
            && has_key(b.take(j), k) {
            stats_add(value_of(a, k), value_of(b.take(j), k))
        } else if has_key(a, k) {
            value_of(a, k)
        } else {
            value_of(b.take(j), k)
        }),
        v == stats_add(value_of(a, b[j].0), b[j].1),
    ensures
        distinct_keys(rv.update(i, (b[j].0, v))),
        keys_of(rv.update(i, (b[j].0, v))) == keys_of(a) + keys_of(b.take(j + 1)).filter(
            |k: Seq<char>| !has_key(a, k),
        ),
        forall|k: Seq<char>| #[trigger] has_key(rv.update(i, (b[j].0, v)), k) <==> (has_key(a, k)
            || has_key(b.take(j + 1), k)),
        forall|k: Seq<char>| #[trigger] has_key(rv.update(i, (b[j].0, v)), k) ==> value_of(
            rv.update(i, (b[j].0, v)),
            k,
        ) == (if has_key(a, k) && has_key(b.take(j + 1), k) {
            stats_add(value_of(a, k), value_of(b.take(j + 1), k))
        } else if has_key(a, k) {
            value_of(a, k)
        } else {
            value_of(b.take(j + 1), k)
        }),
{
    let kj = b[j].0;
    lemma_merge_step(a, b, rv, j);
    lemma_key_index(rv, kj);
    assert(rv[i].0 == kj);
    let rv1 = rv.update(i, (kj, v));
    assert forall|x: int, y: int| 0 <= x < y < rv1.len() implies (#[trigger] rv1[x].0) != (
    #[trigger] rv1[y].0) by {
        assert(rv1[x].0 == rv[x].0);
        assert(rv1[y].0 == rv[y].0);
    }
    assert(keys_of(rv1) =~= keys_of(rv));
    // key column of b.take(j+1) extends that of b.take(j) with kj, which is in a
    assert(keys_of(b.take(j + 1)) =~= keys_of(b.take(j)).push(kj)) by {
        assert(b.take(j + 1) =~= b.take(j).push(b[j]));
    }
    assert(keys_of(b.take(j + 1)).filter(|k: Seq<char>| !has_key(a, k)) == keys_of(
        b.take(j),
    ).filter(|k: Seq<char>| !has_key(a, k))) by {
        reveal(Seq::filter);
        let pred = |k: Seq<char>| !has_key(a, k);
        let s0 = keys_of(b.take(j));
        let s1 = keys_of(b.take(j + 1));
        assert(s1.drop_last() =~= s0);
        assert(s1.last() == kj);
        assert(!pred(kj));
    }
    assert forall|k: Seq<char>| #[trigger] has_key(rv1, k) <==> (has_key(a, k) || has_key(
        b.take(j + 1),
        k,
    )) by {
        lemma_key_index_update(rv, i, v, k);
        assert(has_key(rv1, k) == has_key(rv, k));
        if k == kj {
            assert(has_key(rv, k));
            assert(has_key(a, k));
        } else {
            assert(has_key(b.take(j + 1), k) <==> has_key(b.take(j), k));
            assert(has_key(rv, k) <==> (has_key(a, k) || has_key(b.take(j), k)));
        }
    }
    assert forall|k: Seq<char>| #[trigger] has_key(rv1, k) implies value_of(rv1, k) == (if has_key(
        a,
        k,
    ) && has_key(b.take(j + 1), k) {
        stats_add(value_of(a, k), value_of(b.take(j + 1), k))
    } else if has_key(a, k) {
        value_of(a, k)
    } else {
        value_of(b.take(j + 1), k)
    }) by {
        lemma_key_index_update(rv, i, v, k);
        lemma_key_index(rv, k);
        assert(has_key(rv1, k) == has_key(rv, k));
        if k == kj {
            assert(key_index(rv1, k) == i);
            assert(rv1[i] == (kj, v));
            assert(value_of(rv1, k) == v);
            assert(has_key(a, k) && has_key(b.take(j + 1), k));
            assert(value_of(b.take(j + 1), k) == b[j].1);
        } else {
            assert(key_index(rv, k) != i);
            assert(rv1[key_index(rv, k)] == rv[key_index(rv, k)]);
            assert(value_of(rv1, k) == value_of(rv, k));
            assert(has_key(b.take(j + 1), k) <==> has_key(b.take(j), k));
            assert(has_key(rv, k));
            assert(value_of(rv, k) == (if has_key(a, k) && has_key(b.take(j), k) {
                stats_add(value_of(a, k), value_of(b.take(j), k))
            } else if has_key(a, k) {
                value_of(a, k)
            } else {
                value_of(b.take(j), k)
            }));
            if has_key(b.take(j), k) {
                assert(value_of(b.take(j + 1), k) == value_of(b.take(j), k));
            }
        }
    }
}

proof fn lemma_merge_push_facts(
    a: Seq<(Seq<char>, StatsModel)>,
    b: Seq<(Seq<char>, StatsModel)>,
    rv: Seq<(Seq<char>, StatsModel)>,
    j: int,
)
    requires
        0 <= j < b.len(),
        distinct_keys(b),
        distinct_keys(rv),
        !has_key(rv, b[j].0),
        !has_key(a, b[j].0),
        keys_of(rv) == keys_of(a) + keys_of(b.take(j)).filter(|k: Seq<char>| !has_key(a, k)),
        forall|k: Seq<char>| #[trigger] has_key(rv, k) <==> (has_key(a, k) || has_key(
            b.take(j),
            k,
        )),
        forall|k: Seq<char>| #[trigger] has_key(rv, k) ==> value_of(rv, k) == (if has_key(a, k)
            && has_key(b.take(j), k) {
            stats_add(value_of(a, k), value_of(b.take(j), k))
        } else if has_key(a, k) {
            value_of(a, k)
        } else {
            value_of(b.take(j), k)
        }),
    ensures
        distinct_keys(rv.push(b[j])),
        keys_of(rv.push(b[j])) == keys_of(a) + keys_of(b.take(j + 1)).filter(
            |k: Seq<char>| !has_key(a, k),
        ),
        forall|k: Seq<char>| #[trigger] has_key(rv.push(b[j]), k) <==> (has_key(a, k) || has_key(
            b.take(j + 1),
            k,
        )),
        forall|k: Seq<char>| #[trigger] has_key(rv.push(b[j]), k) ==> value_of(rv.push(b[j]), k)
            == (if has_key(a, k) && has_key(b.take(j + 1), k) {
            stats_add(value_of(a, k), value_of(b.take(j + 1), k))
        } else if has_key(a, k) {
            value_of(a, k)
        } else {
            value_of(b.take(j + 1), k)
        }),
{
    let kj = b[j].0;
    lemma_merge_step(a, b, rv, j);
    lemma_key_index(rv, kj);
    let rv1 = rv.push(b[j]);
    assert forall|x: int, y: int| 0 <= x < y < rv1.len() implies (#[trigger] rv1[x].0) != (
    #[trigger] rv1[y].0) by {
        if y < rv.len() {
            assert(rv1[x].0 == rv[x].0);
            assert(rv1[y].0 == rv[y].0);
        } else {
            assert(rv1[y] == b[j]);
            assert(rv1[x].0 == rv[x].0);
            lemma_key_present(rv, x);
        }
    }
    assert(keys_of(b.take(j + 1)) =~= keys_of(b.take(j)).push(kj)) by {
        assert(b.take(j + 1) =~= b.take(j).push(b[j]));
    }
    assert(keys_of(b.take(j + 1)).filter(|k: Seq<char>| !has_key(a, k)) == keys_of(
        b.take(j),
    ).filter(|k: Seq<char>| !has_key(a, k)).push(kj)) by {
        reveal(Seq::filter);
        let pred = |k: Seq<char>| !has_key(a, k);
        let s0 = keys_of(b.take(j));
        let s1 = keys_of(b.take(j + 1));
        assert(s1.drop_last() =~= s0);
        assert(s1.last() == kj);
        assert(pred(kj));
    }
    assert(keys_of(rv1) =~= keys_of(rv).push(kj));
    assert(keys_of(rv1) =~= keys_of(a) + keys_of(b.take(j + 1)).filter(
        |k: Seq<char>| !has_key(a, k),
    ));
    assert forall|k: Seq<char>| #[trigger] has_key(rv1, k) <==> (has_key(a, k) || has_key(
        b.take(j + 1),
        k,
    )) by {
        lemma_key_index_push(rv, b[j], k);
        lemma_key_index(rv, k);
    }
    assert forall|k: Seq<char>| #[trigger] has_key(rv1, k) implies value_of(rv1, k) == (if has_key(
        a,
        k,
    ) && has_key(b.take(j + 1), k) {
        stats_add(value_of(a, k), value_of(b.take(j + 1), k))
    } else if has_key(a, k) {
        value_of(a, k)
    } else {
        value_of(b.take(j + 1), k)
    }) by {
        lemma_key_index_push(rv, b[j], k);
        lemma_key_index(rv, k);
        if k == kj {
            assert(key_index(rv1, k) == rv.len());
            assert(rv1[rv.len() as int] == b[j]);
            assert(value_of(rv1, k) == b[j].1);
            assert(value_of(b.take(j + 1), k) == b[j].1);
        } else if has_key(rv, k) {
            assert(rv1[key_index(rv, k)] == rv[key_index(rv, k)]);
            assert(value_of(rv1, k) == value_of(rv, k));
        }
    }
}

/// A community that never appears in the stream has zero statistics.
pub proof fn lemma_absent_community_zero(posts: Seq<RedditPost>, k: Seq<char>)
    requires
        !seen_communities(posts).contains(k),
    ensures
        community_stats(posts, k) == stats_zero(),
    decreases posts.len(),
{
    if posts.len() > 0 {
        let prev = seen_communities(posts.drop_last());
        assert(!prev.contains(k)) by {
            if prev.contains(k) {
                let i = choose|i: int| 0 <= i < prev.len() && prev[i] == k;
                if prev.contains(posts.last().subreddit@) {
                    assert(seen_communities(posts)[i] == k);
                } else {
                    assert(seen_communities(posts)[i] == k);
                }
            }
        }
        lemma_absent_community_zero(posts.drop_last(), k);
        if posts.last().subreddit@ == k {
            assert(seen_communities(posts).contains(k)) by {
                if prev.contains(k) {
                } else {
                    let s = seen_communities(posts);
                    assert(s[s.len() - 1] == k);
                }
            }
        }
    }
}

/// Elements of a concatenation are the elements of either part.
proof fn lemma_add_contains<A>(a: Seq<A>, b: Seq<A>, x: A)
    ensures
        (a + b).contains(x) <==> (a.contains(x) || b.contains(x)),
{
    if a.contains(x) {
        let i = choose|i: int| 0 <= i < a.len() && a[i] == x;
        assert((a + b)[i] == x);
    }
    if b.contains(x) {
        let i = choose|i: int| 0 <= i < b.len() && b[i] == x;
        assert((a + b)[a.len() + i] == x);
    }
    if (a + b).contains(x) {
        let i = choose|i: int| 0 <= i < (a + b).len() && (a + b)[i] == x;
        if i < a.len() {
            assert(a[i] == x);
        } else {
            assert(b[i - a.len()] == x);
        }
    }
}

/// Shard-merge law: aggregating a concatenated stream gives, for every
/// community, the field-wise sum of the two shard aggregates, and lists the
/// communities of the first shard followed by the fresh ones of the second.
/// Together with the contracts of `compute_subreddits_stats` and
/// `merge_subreddits_stats` this says that merging independently computed
/// shard statistics equals aggregating the whole stream at once.
pub proof fn lemma_stats_shard_merge(p1: Seq<RedditPost>, p2: Seq<RedditPost>)
    ensures
        seen_communities(p1 + p2) == seen_communities(p1) + seen_communities(p2).filter(
            |k: Seq<char>| !seen_communities(p1).contains(k),
        ),
        forall|k: Seq<char>| #[trigger] community_stats(p1 + p2, k) == stats_add(
            community_stats(p1, k),
            community_stats(p2, k),
        ),
    decreases p2.len(),
{
    reveal(Seq::filter);
    let pred = |k: Seq<char>| !seen_communities(p1).contains(k);
    if p2.len() == 0 {
        assert(p1 + p2 =~= p1);
        assert(seen_communities(p2).filter(pred) =~= Seq::<Seq<char>>::empty());
        assert(seen_communities(p1) + seen_communities(p2).filter(pred) =~= seen_communities(p1));
        assert forall|k: Seq<char>| #[trigger] community_stats(p1 + p2, k) == stats_add(
            community_stats(p1, k),
            community_stats(p2, k),
        ) by {
            assert(community_stats(p2, k) == stats_zero());
        }
    } else {
        let q = p2.drop_last();
        let p = p2.last();
        lemma_stats_shard_merge(p1, q);
        assert(p1 + p2 =~= (p1 + q).push(p));
        assert((p1 + q).push(p).drop_last() =~= p1 + q);
        assert forall|k: Seq<char>| #[trigger] community_stats(p1 + p2, k) == stats_add(
            community_stats(p1, k),
            community_stats(p2, k),
        ) by {
            assert(community_stats(p1 + p2, k) == if p.subreddit@ == k {
                stats_add(community_stats(p1 + q, k), post_stats(p))
            } else {
                community_stats(p1 + q, k)
            });
            assert(community_stats(p2, k) == if p.subreddit@ == k {
                stats_add(community_stats(q, k), post_stats(p))
            } else {
                community_stats(q, k)
            });
        }
        // community order
        let s1 = seen_communities(p1);
        let sq = seen_communities(q);
        let sp2 = seen_communities(p2);
        let x = p.subreddit@;
        assert(seen_communities(p1 + q) == s1 + sq.filter(pred));
        lemma_add_contains(s1, sq.filter(pred), x);
        assert(sq.filter(pred).contains(x) <==> (sq.contains(x) && pred(x))) by {
            if sq.filter(pred).contains(x) {
                let i = choose|i: int|
                    0 <= i < sq.filter(pred).len() && sq.filter(pred)[i] == x;
                sq.lemma_filter_pred(pred, i);
                sq.lemma_filter_contains_rev(pred, x);
            }
            if sq.contains(x) && pred(x) {
                let i = choose|i: int| 0 <= i < sq.len() && sq[i] == x;
                sq.lemma_filter_contains(pred, i);
            }
        }
        if sq.contains(x) {
            assert(sp2 == sq);
            assert(seen_communities(p1 + q).contains(x));
            assert(seen_communities(p1 + p2) == seen_communities(p1 + q));
        } else {
            assert(sp2 == sq.push(x));
            assert(sp2.drop_last() =~= sq);
            if s1.contains(x) {
                assert(!pred(x));
                assert(sp2.filter(pred) == sq.filter(pred));
                assert(seen_communities(p1 + q).contains(x));
                assert(seen_communities(p1 + p2) == seen_communities(p1 + q));
            } else {
                assert(pred(x));
                assert(sp2.filter(pred) == sq.filter(pred).push(x));
                assert(!seen_communities(p1 + q).contains(x));
                assert(seen_communities(p1 + p2) == seen_communities(p1 + q).push(x));
                assert(s1 + sq.filter(pred).push(x) =~= (s1 + sq.filter(pred)).push(x));
            }
        }
    }
}

/// Descending stable insertion by `sum_score`: the entry lands after every
/// entry with an equal or higher score.
pub open spec fn insert_desc_by_score(
    x: (String, SubredditStats),
    s: Seq<(String, SubredditStats)>,
) -> Seq<(String, SubredditStats)>
    decreases s.len(),
{
    if s.len() == 0 {
        seq![x]
    } else if x.1.sum_score > s[0].1.sum_score {
        seq![x] + s
    } else {
        seq![s[0]] + insert_desc_by_score(x, s.drop_first())
    }
}

/// The stable descending sort of a statistics mapping by `sum_score`: ties
/// keep their input order.
pub open spec fn sort_desc_by_score(s: Seq<(String, SubredditStats)>) -> Seq<
    (String, SubredditStats),
>
    decreases s.len(),
{
    if s.len() == 0 {
        Seq::empty()
    } else {
        insert_desc_by_score(s.last(), sort_desc_by_score(s.drop_last()))
    }
}

proof fn lemma_insert_desc_at(
    x: (String, SubredditStats),
    s: Seq<(String, SubredditStats)>,
    j: int,
)
    requires
        0 <= j <= s.len(),
        forall|jj: int| 0 <= jj < j ==> !(x.1.sum_score > (#[trigger] s[jj]).1.sum_score),
        j < s.len() ==> x.1.sum_score > s[j].1.sum_score,
    ensures
        insert_desc_by_score(x, s) == s.insert(j, x),
    decreases s.len(),
{
    if s.len() == 0 {
        assert(insert_desc_by_score(x, s) =~= s.insert(0, x));
    } else if x.1.sum_score > s[0].1.sum_score {
        assert(j == 0) by {
            if j > 0 {
                assert(!(x.1.sum_score > s[0].1.sum_score));
            }
        }
        assert(seq![x] + s =~= s.insert(0, x));
    } else {
        assert(j >= 1) by {
            if j == 0 {
                assert(x.1.sum_score > s[0].1.sum_score);
            }
        }
        let s2 = s.drop_first();
        assert forall|jj: int| 0 <= jj < j - 1 implies !(x.1.sum_score > (
        #[trigger] s2[jj]).1.sum_score) by {
            assert(s2[jj] == s[jj + 1]);
        }
        assert(j - 1 < s2.len() ==> x.1.sum_score > s2[j - 1].1.sum_score);
        lemma_insert_desc_at(x, s2, j - 1);
        assert(seq![s[0]] + s2.insert(j - 1, x) =~= s.insert(j, x));
    }
}

/// The sorted sequence is a permutation of its input.
pub proof fn lemma_sort_desc_permutes(s: Seq<(String, SubredditStats)>)
    ensures
        sort_desc_by_score(s).to_multiset() == s.to_multiset(),
        sort_desc_by_score(s).len() == s.len(),
    decreases s.len(),
{
    if s.len() == 0 {
        assert(s =~= Seq::<(String, SubredditStats)>::empty());
        assert(sort_desc_by_score(s) == s);
    } else {
        let dl = s.drop_last();
        let x = s.last();
        lemma_sort_desc_permutes(dl);
        lemma_insert_desc_multiset(x, sort_desc_by_score(dl));
        lemma_insert_desc_len(x, sort_desc_by_score(dl));
        vstd::seq_lib::to_multiset_build(dl, x);
        assert(dl.push(x) =~= s);
        assert(sort_desc_by_score(s) == insert_desc_by_score(x, sort_desc_by_score(dl)));
        assert(sort_desc_by_score(s).to_multiset() == sort_desc_by_score(dl).to_multiset().insert(
            x,
        ));
        assert(sort_desc_by_score(dl).to_multiset().insert(x) == dl.to_multiset().insert(x));
        assert(dl.to_multiset().insert(x) == dl.push(x).to_multiset());
        assert(dl.push(x).to_multiset() == s.to_multiset());
    }
}

proof fn lemma_insert_desc_multiset(x: (String, SubredditStats), s: Seq<(String, SubredditStats)>)
    ensures
        insert_desc_by_score(x, s).to_multiset() == s.to_multiset().insert(x),
    decreases s.len(),
{
    broadcast use vstd::multiset::group_multiset_axioms;

    if s.len() == 0 {
        assert(insert_desc_by_score(x, s) == seq![x]);
        assert(seq![x] =~= s.push(x));
        vstd::seq_lib::to_multiset_build(s, x);
    } else if x.1.sum_score > s[0].1.sum_score {
        lemma_multiset_prepend(x, s);
    } else {
        let s2 = s.drop_first();
        lemma_insert_desc_multiset(x, s2);
        lemma_multiset_prepend(s[0], insert_desc_by_score(x, s2));
        assert(seq![s[0]] + insert_desc_by_score(x, s2) == insert_desc_by_score(x, s));
        lemma_multiset_prepend(s[0], s2);
        assert(seq![s[0]] + s2 =~= s);
        assert(s2.to_multiset().insert(x).insert(s[0]) =~= s2.to_multiset().insert(s[0]).insert(
            x,
        ));
    }
}

proof fn lemma_multiset_prepend<A>(x: A, s: Seq<A>)
    ensures
        (seq![x] + s).to_multiset() == s.to_multiset().insert(x),
{
    broadcast use vstd::multiset::group_multiset_axioms;

    vstd::seq_lib::lemma_multiset_commutative(seq![x], s);
    assert(seq![x] =~= Seq::<A>::empty().push(x));
    vstd::seq_lib::to_multiset_build(Seq::<A>::empty(), x);
    Seq::<A>::empty().to_multiset_ensures();
    vstd::multiset::lemma_multiset_empty_len(Seq::<A>::empty().to_multiset());
    assert(seq![x].to_multiset().add(s.to_multiset()) =~= s.to_multiset().insert(x));
}

/// Top-N boundary: asking for at least as many communities as exist
/// returns every community, with unmodified statistics, in sorted order.
pub proof fn lemma_top_n_boundary(s: Seq<(String, SubredditStats)>, n: int)
    requires
        n >= s.len(),
    ensures
        sort_desc_by_score(s).take(
            if n <= s.len() {
                n
            } else {
                s.len() as int
            },
        ) == sort_desc_by_score(s),
        sort_desc_by_score(s).to_multiset() == s.to_multiset(),
        sort_desc_by_score(s).len() == s.len(),
{
    lemma_sort_desc_permutes(s);
    assert(sort_desc_by_score(s).take(s.len() as int) =~= sort_desc_by_score(s));
}

/// The `n_subreddits` communities with the highest `sum_score`, in descending
/// order; ties keep the input order.  When `n_subreddits` is at least the
/// number of communities, the whole sorted mapping is returned.
pub fn get_most_popular_subreddits(
    n_subreddits: usize,
    stats: Vec<(String, SubredditStats)>,
) -> (r: Vec<(String, SubredditStats)>)
    ensures
        r@ == sort_desc_by_score(stats@).take(
            if n_subreddits as int <= stats@.len() {
                n_subreddits as int
            } else {
                stats@.len() as int
            },
        ),
{
    let mut sorted: Vec<(String, SubredditStats)> = Vec::new();
    let len = stats.len();
    assert(stats@.take(0) =~= Seq::<(String, SubredditStats)>::empty());
    for i in 0..len
        invariant
            len == stats@.len(),
            sorted@ == sort_desc_by_score(stats@.take(i as int)),
            sorted@.len() == i,
    {
        let x = (stats[i].0.clone(), stats[i].1);
        proof {
            assert(x == stats@[i as int]);
        }
        let mut j: usize = 0;
        while j < sorted.len() && !(x.1.sum_score > sorted[j].1.sum_score)
            invariant
                0 <= j <= sorted@.len(),
                forall|jj: int| 0 <= jj < j ==> !(x.1.sum_score > (
                #[trigger] sorted@[jj]).1.sum_score),
            decreases sorted@.len() - j,
        {
            j += 1;
        }
        let ghost old_sorted = sorted@;
        sorted.insert(j, x);
        proof {
            lemma_insert_desc_at(x, old_sorted, j as int);
            assert(stats@.take(i as int + 1).drop_last() =~= stats@.take(i as int));
            assert(stats@.take(i as int + 1).last() == stats@[i as int]);
            lemma_insert_desc_len(x, old_sorted);
        }
    }
    proof {
        assert(stats@.take(len as int) =~= stats@);
    }
    if n_subreddits < len {
        sorted.truncate(n_subreddits);
    } else {
        proof {
            assert(sorted@.take(len as int) =~= sorted@);
        }
    }
    sorted
}

proof fn lemma_insert_desc_len(x: (String, SubredditStats), s: Seq<(String, SubredditStats)>)
    ensures
        insert_desc_by_score(x, s).len() == s.len() + 1,
    decreases s.len(),
{
    if s.len() > 0 && !(x.1.sum_score > s[0].1.sum_score) {
        lemma_insert_desc_len(x, s.drop_first());
    }
}

} // verus!
