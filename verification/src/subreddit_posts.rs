//! Collecting the posts of chosen communities, grouped by linked url.

use vstd::prelude::*;
use crate::assoc::{key_index, has_key, value_of, distinct_keys, distinct_seq};
use crate::assoc::{lemma_key_index, lemma_key_present, lemma_key_index_push,
    lemma_key_index_update, lemma_first_index};
use crate::data_analysis::{subs_view, find_string_index};
use crate::reddit_post::RedditPost;

verus! {

/// The model of one community's url table.
pub open spec fn url_posts_view(v: Seq<(String, Vec<RedditPost>)>) -> Seq<
    (Seq<char>, Seq<RedditPost>),
> {
    v.map_values(|e: (String, Vec<RedditPost>)| (e.0@, e.1@))
}

/// Whether a post with the given id is already collected.
pub open spec fn has_post_id(s: Seq<RedditPost>, pid: Seq<char>) -> bool {
    exists|i: int| 0 <= i < s.len() && (#[trigger] s[i]).id@ == pid
}

/// Collect a post unless one with its id is already there: posts are
/// identified by id, and the first-collected record wins.
pub open spec fn dedup_insert(s: Seq<RedditPost>, p: RedditPost) -> Seq<RedditPost> {
    if has_post_id(s, p.id@) {
        s
    } else {
        s.push(p)
    }
}

/// The url table of community `k` over a post stream: urls in
/// first-appearance order, each holding the community's posts that link it,
/// in stream order, deduplicated by id.
pub open spec fn sub_url_posts(posts: Seq<RedditPost>, k: Seq<char>) -> Seq<
    (Seq<char>, Seq<RedditPost>),
>
    decreases posts.len(),
{
    if posts.len() == 0 {
        Seq::empty()
    } else {
        let prev = sub_url_posts(posts.drop_last(), k);
        let p = posts.last();
        if p.subreddit@ == k && p.linked_url() is Some {
            let u = p.linked_url()->Some_0;
            if has_key(prev, u) {
                prev.update(key_index(prev, u), (u, dedup_insert(value_of(prev, u), p)))
            } else {
                prev.push((u, dedup_insert(Seq::empty(), p)))
            }
        } else {
            prev
        }
    }
}

/// Find the position of a url in a community's url table.
fn find_url_posts(v: &Vec<(String, Vec<RedditPost>)>, u: &String) -> (r: Option<usize>)
    ensures
        match r {
            Some(i) => i < v@.len() && key_index(url_posts_view(v@), u@) == i as int,
            None => !has_key(url_posts_view(v@), u@),
        },
{
    let ghost m = url_posts_view(v@);
    let n = v.len();
    for i in 0..n
        invariant
            n == v@.len(),
            m == url_posts_view(v@),
            forall|j: int| 0 <= j < i ==> (#[trigger] m[j]).0 != u@,
    {
        assert(m[i as int].0 == v@[i as int].0@);
        if v[i].0 == *u {
            proof {
                lemma_key_present(m, i as int);
                lemma_key_index(m, u@);
                if key_index(m, u@) > i as int {
                    assert(m[i as int].0 != u@);
                }
            }
            return Some(i);
        }
    }
    proof {
        lemma_key_index(m, u@);
        if has_key(m, u@) {
            assert(m[key_index(m, u@)].0 != u@);
        }
    }
    None
}

/// Whether a collected post list already holds the given id.
fn posts_contain_id(v: &Vec<RedditPost>, pid: &String) -> (r: bool)
    ensures
        r == has_post_id(v@, pid@),
{
    let n = v.len();
    for i in 0..n
        invariant
            n == v@.len(),
            forall|j: int| 0 <= j < i ==> (#[trigger] v@[j]).id@ != pid@,
    {
        if v[i].id == *pid {
            assert(v@[i as int].id@ == pid@);
            return true;
        }
    }
    proof {
        if has_post_id(v@, pid@) {
            let i = choose|i: int| 0 <= i < v@.len() && (#[trigger] v@[i]).id@ == pid@;
            assert(v@[i].id@ != pid@);
        }
    }
    false
}

/// Collect, for each chosen community, its posts grouped by linked url.
/// Posts of other communities and posts without an external link are
/// dropped; within a url, posts are kept in stream order and deduplicated
/// by id.
#[verifier::loop_isolation(false)]
pub fn get_subreddit_posts(posts: &Vec<RedditPost>, subreddit_names: &Vec<String>) -> (r: Vec<
    (String, Vec<(String, Vec<RedditPost>)>),
>)
    requires
        distinct_seq(subs_view(subreddit_names@)),
    ensures
        r@.len() == subreddit_names@.len(),
        forall|i: int| 0 <= i < r@.len() ==> (#[trigger] r@[i]).0@ == subreddit_names@[i]@
            && url_posts_view(r@[i].1@) == sub_url_posts(posts@, subreddit_names@[i]@),
{
    let mut r: Vec<(String, Vec<(String, Vec<RedditPost>)>)> = Vec::new();
    let m = subreddit_names.len();
    for i in 0..m
        invariant
            r@.len() == i,
            forall|j: int| 0 <= j < i ==> (#[trigger] r@[j]).0@ == subreddit_names@[j]@ && r@[
                j
            ].1@ == Seq::<(String, Vec<RedditPost>)>::empty(),
    {
        r.push((subreddit_names[i].clone(), Vec::new()));
    }
    let n = posts.len();
    proof {
        assert forall|i: int| 0 <= i < r@.len() implies url_posts_view((#[trigger] r@[i]).1@)
            == sub_url_posts(posts@.take(0), subreddit_names@[i]@) by {
            assert(url_posts_view(r@[i].1@) =~= Seq::<(Seq<char>, Seq<RedditPost>)>::empty());
        }
    }
    for idx in 0..n
        invariant
            r@.len() == subreddit_names@.len(),
            forall|i: int| 0 <= i < r@.len() ==> (#[trigger] r@[i]).0@ == subreddit_names@[i]@
                && url_posts_view(r@[i].1@) == sub_url_posts(
                posts@.take(idx as int),
                subreddit_names@[i]@,
            ),
    {
        let ghost prefix = posts@.take(idx as int);
        let ghost prefix1 = posts@.take(idx as int + 1);
        let ghost rv = r@;
        let p = &posts[idx];
        proof {
            assert(prefix1.drop_last() =~= prefix);
            assert(prefix1.last() == posts@[idx as int]);
        }
        match find_string_index(subreddit_names, &p.subreddit) {
            None => {
                proof {
                    assert forall|i: int| 0 <= i < r@.len() implies url_posts_view(
                        (#[trigger] r@[i]).1@,
                    ) == sub_url_posts(prefix1, subreddit_names@[i]@) by {
                        assert(subs_view(subreddit_names@)[i] == subreddit_names@[i]@);
                        assert(posts@[idx as int].subreddit@ != subreddit_names@[i]@);
                        assert(sub_url_posts(prefix1, subreddit_names@[i]@) == sub_url_posts(
                            prefix,
                            subreddit_names@[i]@,
                        ));
                    }
                }
            },
            Some(s) => {
                proof {
                    lemma_first_index(subs_view(subreddit_names@), p.subreddit@);
                    assert(subs_view(subreddit_names@)[s as int] == subreddit_names@[s as int]@);
                    assert(subreddit_names@[s as int]@ == p.subreddit@);
                }
                if let Some(url) = p.get_linked_url() {
                    let ghost k0 = subreddit_names@[s as int]@;
                    let ghost tv = url_posts_view(r@[s as int].1@);
                    proof {
                        assert(posts@[idx as int].linked_url() == Some(url@));
                    }
                    match find_url_posts(&r[s].1, &url) {
                        Some(k) => {
                            proof {
                                lemma_key_index(tv, url@);
                                assert(tv[k as int].0 == url@);
                            }
                            let ghost old_list = r@[s as int].1@[k as int].1@;
                            let dup = posts_contain_id(&r[s].1[k].1, &p.id);
                            proof {
                                assert(tv[k as int].1 == old_list);
                                assert(value_of(tv, url@) == old_list);
                                assert(dup == has_post_id(old_list, posts@[idx as int].id@));
                            }
                            if !dup {
                                r[s].1[k].1.push(p.clone());
                            }
                            proof {
                                let newlist = dedup_insert(old_list, posts@[idx as int]);
                                assert(url_posts_view(r@[s as int].1@) =~= tv.update(
                                    k as int,
                                    (url@, newlist),
                                ));
                                lemma_step_found(tv, prefix, prefix1, k0, url@, k as int);
                                lemma_other_rows(rv, r@, subreddit_names@, prefix, prefix1, s as int);
                            }
                        },
                        None => {
                            let mut lst: Vec<RedditPost> = Vec::new();
                            lst.push(p.clone());
                            r[s].1.push((url, lst));
                            proof {
                                let newlist = dedup_insert(
                                    Seq::<RedditPost>::empty(),
                                    posts@[idx as int],
                                );
                                assert(newlist =~= Seq::<RedditPost>::empty().push(
                                    posts@[idx as int],
                                ));
                                assert(url_posts_view(r@[s as int].1@) =~= tv.push((url@, newlist)));
                                assert(sub_url_posts(prefix1, k0) == tv.push((url@, newlist)));
                                lemma_other_rows(rv, r@, subreddit_names@, prefix, prefix1, s as int);
                            }
                        },
                    }
                } else {
                    proof {
                        assert forall|i: int| 0 <= i < r@.len() implies url_posts_view(
                            (#[trigger] r@[i]).1@,
                        ) == sub_url_posts(prefix1, subreddit_names@[i]@) by {
                            assert(sub_url_posts(prefix1, subreddit_names@[i]@) == sub_url_posts(
                                prefix,
                                subreddit_names@[i]@,
                            ));
                        }
                    }
                }
            },
        }
    }
    proof {
        assert(posts@.take(n as int) =~= posts@);
    }
    r
}

/// The updated row at the focal community matches the spec step.
proof fn lemma_step_found(
    tv: Seq<(Seq<char>, Seq<RedditPost>)>,
    prefix: Seq<RedditPost>,
    prefix1: Seq<RedditPost>,
    k0: Seq<char>,
    u: Seq<char>,
    k: int,
)
    requires
        prefix1.len() >= 1,
        prefix1.drop_last() == prefix,
        prefix1.last().subreddit@ == k0,
        prefix1.last().linked_url() == Some(u),
        tv == sub_url_posts(prefix, k0),
        0 <= k < tv.len(),
        key_index(tv, u) == k,
    ensures
        sub_url_posts(prefix1, k0) == tv.update(
            k,
            (u, dedup_insert(value_of(tv, u), prefix1.last())),
        ),
{
    lemma_key_index(tv, u);
    assert(tv[k].0 == u);
    assert(has_key(tv, u));
}

/// Rows of other communities are untouched by a post of the focal one.
proof fn lemma_other_rows(
    rv: Seq<(String, Vec<(String, Vec<RedditPost>)>)>,
    rv2: Seq<(String, Vec<(String, Vec<RedditPost>)>)>,
    names: Seq<String>,
    prefix: Seq<RedditPost>,
    prefix1: Seq<RedditPost>,
    s: int,
)
    requires
        prefix1.len() >= 1,
        prefix1.drop_last() == prefix,
        distinct_seq(subs_view(names)),
        rv.len() == names.len(),
        rv2.len() == rv.len(),
        0 <= s < rv.len(),
        prefix1.last().subreddit@ == names[s]@,
        forall|i: int| 0 <= i < rv.len() ==> (#[trigger] rv[i]).0@ == names[i]@ && url_posts_view(
            rv[i].1@,
        ) == sub_url_posts(prefix, names[i]@),
        forall|i: int| 0 <= i < rv2.len() && i != s ==> (#[trigger] rv2[i]) == rv[i],
        rv2[s].0 == rv[s].0,
        url_posts_view(rv2[s].1@) == sub_url_posts(prefix1, names[s]@),
    ensures
        forall|i: int| 0 <= i < rv2.len() ==> (#[trigger] rv2[i]).0@ == names[i]@
            && url_posts_view(rv2[i].1@) == sub_url_posts(prefix1, names[i]@),
{
    assert forall|i: int| 0 <= i < rv2.len() implies (#[trigger] rv2[i]).0@ == names[i]@
        && url_posts_view(rv2[i].1@) == sub_url_posts(prefix1, names[i]@) by {
        if i != s {
            assert(rv2[i] == rv[i]);
            assert(subs_view(names)[i] == names[i]@);
            assert(subs_view(names)[s] == names[s]@);
            assert(names[i]@ != names[s]@);
            assert(sub_url_posts(prefix1, names[i]@) == sub_url_posts(prefix, names[i]@));
        }
    }
}

} // verus!
