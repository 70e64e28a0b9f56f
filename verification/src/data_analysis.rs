//! The link co-occurrence engine: grouping posts by shared url, attributing
//! reposts, and counting the links shared between communities.

use vstd::prelude::*;
use crate::assoc::{key_index, has_key, value_of, keys_of, distinct_keys, distinct_seq,
    first_index};
use crate::assoc::{lemma_key_index, lemma_key_present, lemma_key_index_push,
    lemma_key_index_update, lemma_has_key_contains, lemma_key_index_distinct, lemma_first_index,
    lemma_first_index_push};
use crate::reddit_post::RedditPost;

verus! {

/// Posts grouped by the url they link to: a list of distinct community
/// names, and per url the occurrences (community index, creation time) in
/// stream order.
#[derive(Debug)]
pub struct SubredditsFromUrls {
    pub urls: Vec<(String, Vec<(usize, i32)>)>,
    pub subreddits: Vec<String>,
}

/// The view of a name list.
pub open spec fn subs_view(v: Seq<String>) -> Seq<Seq<char>> {
    v.map_values(|s: String| s@)
}

/// The view of the url table.
pub open spec fn urls_view(v: Seq<(String, Vec<(usize, i32)>)>) -> Seq<
    (Seq<char>, Seq<(usize, i32)>),
> {
    v.map_values(|e: (String, Vec<(usize, i32)>)| (e.0@, e.1@))
}

impl SubredditsFromUrls {
    /// The community names, in index order.
    pub open spec fn subs(self) -> Seq<Seq<char>> {
        subs_view(self.subreddits@)
    }

    /// The url table: url -> occurrence list.
    pub open spec fn occs(self) -> Seq<(Seq<char>, Seq<(usize, i32)>)> {
        urls_view(self.urls@)
    }

    /// Well-formedness: distinct urls, distinct communities, every
    /// occurrence list nonempty and every recorded index in range.
    pub open spec fn wf(self) -> bool {
        &&& distinct_keys(self.occs())
        &&& distinct_seq(self.subs())
        &&& forall|i: int| 0 <= i < self.occs().len() ==> (#[trigger] self.occs()[i]).1.len() >= 1
        &&& forall|i: int, j: int|
            0 <= i < self.occs().len() && 0 <= j < self.occs()[i].1.len() ==> (
            #[trigger] self.occs()[i].1[j]).0 < self.subs().len()
    }
}

/// Whether a post passes the optional community allow-list.
pub open spec fn allowed(p: RedditPost, allow: Option<Seq<Seq<char>>>) -> bool {
    match allow {
        Option::None => true,
        Option::Some(al) => al.contains(p.subreddit@),
    }
}

/// Whether a post contributes to the url index: it passes the allow-list
/// and carries an external link.
pub open spec fn contributes(p: RedditPost, allow: Option<Seq<Seq<char>>>) -> bool {
    allowed(p, allow) && p.linked_url() is Some
}

/// The communities of the index after a post stream, starting from the
/// pre-seeded names `init`: contributing communities are appended in
/// first-appearance order.
pub open spec fn index_communities(
    posts: Seq<RedditPost>,
    init: Seq<Seq<char>>,
    allow: Option<Seq<Seq<char>>>,
) -> Seq<Seq<char>>
    decreases posts.len(),
{
    if posts.len() == 0 {
        init
    } else {
        let prev = index_communities(posts.drop_last(), init, allow);
        let p = posts.last();
        if contributes(p, allow) && !prev.contains(p.subreddit@) {
            prev.push(p.subreddit@)
        } else {
            prev
        }
    }
}

/// The urls of the index after a post stream, in first-appearance order.
pub open spec fn url_keys(posts: Seq<RedditPost>, allow: Option<Seq<Seq<char>>>) -> Seq<Seq<char>>
    decreases posts.len(),
{
    if posts.len() == 0 {
        Seq::empty()
    } else {
        let prev = url_keys(posts.drop_last(), allow);
        let p = posts.last();
        if contributes(p, allow) && !prev.contains(p.linked_url()->Some_0) {
            prev.push(p.linked_url()->Some_0)
        } else {
            prev
        }
    }
}

/// The occurrence list of url `u`: every contributing post linking `u`, in
/// stream order, as (index of its community in `subs`, creation time).
pub open spec fn url_occurrences(
    posts: Seq<RedditPost>,
    allow: Option<Seq<Seq<char>>>,
    subs: Seq<Seq<char>>,
    u: Seq<char>,
) -> Seq<(usize, i32)>
    decreases posts.len(),
{
    if posts.len() == 0 {
        Seq::empty()
    } else {
        let prev = url_occurrences(posts.drop_last(), allow, subs, u);
        let p = posts.last();
        if contributes(p, allow) && p.linked_url() == Some(u) {
            prev.push((first_index(subs, p.subreddit@) as usize, p.created_utc))
        } else {
            prev
        }
    }
}

/// The pre-seeded names always stay a prefix of the index communities, and
/// every contributing community of the stream is present.
proof fn lemma_index_communities_contains(
    posts: Seq<RedditPost>,
    init: Seq<Seq<char>>,
    allow: Option<Seq<Seq<char>>>,
)
    ensures
        init.len() <= index_communities(posts, init, allow).len(),
        forall|j: int| 0 <= j < init.len() ==> (#[trigger] index_communities(posts, init, allow)[j])
            == init[j],
        forall|i: int|
            0 <= i < posts.len() && contributes(#[trigger] posts[i], allow)
                ==> index_communities(posts, init, allow).contains(posts[i].subreddit@),
    decreases posts.len(),
{
    if posts.len() > 0 {
        let prev = index_communities(posts.drop_last(), init, allow);
        let cur = index_communities(posts, init, allow);
        let p = posts.last();
        lemma_index_communities_contains(posts.drop_last(), init, allow);
        assert forall|i: int|
            0 <= i < posts.len() && contributes(#[trigger] posts[i], allow) implies cur.contains(
            posts[i].subreddit@,
        ) by {
            if i < posts.len() - 1 {
                assert(posts.drop_last()[i] == posts[i]);
                assert(prev.contains(posts[i].subreddit@));
                let w = choose|w: int| 0 <= w < prev.len() && prev[w] == posts[i].subreddit@;
                if contributes(p, allow) && !prev.contains(p.subreddit@) {
                    assert(cur[w] == posts[i].subreddit@);
                } else {
                    assert(cur[w] == posts[i].subreddit@);
                }
            } else {
                if prev.contains(p.subreddit@) {
                    let w = choose|w: int| 0 <= w < prev.len() && prev[w] == p.subreddit@;
                    assert(cur[w] == p.subreddit@);
                } else {
                    assert(cur[cur.len() - 1] == p.subreddit@);
                }
            }
        }
    }
}

/// The index communities stay distinct when the pre-seeded names are.
proof fn lemma_index_communities_distinct(
    posts: Seq<RedditPost>,
    init: Seq<Seq<char>>,
    allow: Option<Seq<Seq<char>>>,
)
    requires
        distinct_seq(init),
    ensures
        distinct_seq(index_communities(posts, init, allow)),
    decreases posts.len(),
{
    if posts.len() > 0 {
        let prev = index_communities(posts.drop_last(), init, allow);
        let p = posts.last();
        lemma_index_communities_distinct(posts.drop_last(), init, allow);
        if contributes(p, allow) && !prev.contains(p.subreddit@) {
            let cur = prev.push(p.subreddit@);
            assert forall|i: int, j: int| 0 <= i < j < cur.len() implies (#[trigger] cur[i]) != (
            #[trigger] cur[j]) by {
                if j < prev.len() {
                    assert(cur[i] == prev[i]);
                    assert(cur[j] == prev[j]);
                } else {
                    assert(cur[j] == p.subreddit@);
                    assert(cur[i] == prev[i]);
                    if prev[i] == p.subreddit@ {
                        assert(prev.contains(p.subreddit@));
                    }
                }
            }
        }
    }
}

/// A url that never appears among the keys has no occurrences.
proof fn lemma_absent_url_empty(
    posts: Seq<RedditPost>,
    allow: Option<Seq<Seq<char>>>,
    subs: Seq<Seq<char>>,
    u: Seq<char>,
)
    requires
        !url_keys(posts, allow).contains(u),
    ensures
        url_occurrences(posts, allow, subs, u) == Seq::<(usize, i32)>::empty(),
    decreases posts.len(),
{
    if posts.len() > 0 {
        let prev = url_keys(posts.drop_last(), allow);
        let p = posts.last();
        assert(!prev.contains(u)) by {
            if prev.contains(u) {
                let i = choose|i: int| 0 <= i < prev.len() && prev[i] == u;
                assert(url_keys(posts, allow)[i] == u);
            }
        }
        lemma_absent_url_empty(posts.drop_last(), allow, subs, u);
        if contributes(p, allow) && p.linked_url() == Some(u) {
            if prev.contains(p.linked_url()->Some_0) {
                assert(url_keys(posts, allow).contains(u));
            } else {
                let ks = url_keys(posts, allow);
                assert(ks[ks.len() - 1] == u);
            }
        }
    }
}

/// Occurrence lists do not depend on communities appended after every
/// referenced community is already present.
proof fn lemma_url_occurrences_extend_subs(
    posts: Seq<RedditPost>,
    allow: Option<Seq<Seq<char>>>,
    subs: Seq<Seq<char>>,
    y: Seq<char>,
    u: Seq<char>,
)
    requires
        forall|i: int|
            0 <= i < posts.len() && contributes(#[trigger] posts[i], allow) ==> subs.contains(
                posts[i].subreddit@,
            ),
    ensures
        url_occurrences(posts, allow, subs.push(y), u) == url_occurrences(posts, allow, subs, u),
    decreases posts.len(),
{
    if posts.len() > 0 {
        let p = posts.last();
        assert forall|i: int|
            0 <= i < posts.drop_last().len() && contributes(
                #[trigger] posts.drop_last()[i],
                allow,
            ) implies subs.contains(posts.drop_last()[i].subreddit@) by {
            assert(posts.drop_last()[i] == posts[i]);
        }
        lemma_url_occurrences_extend_subs(posts.drop_last(), allow, subs, y, u);
        if contributes(p, allow) && p.linked_url() == Some(u) {
            assert(posts[posts.len() - 1] == p);
            assert(subs.contains(p.subreddit@));
            lemma_first_index_push(subs, y, p.subreddit@);
        }
    }
}

/// The allow-list, as the spec sees it.
pub open spec fn links_allow(subreddits: Option<&Vec<String>>) -> Option<Seq<Seq<char>>> {
    match subreddits {
        Option::None => Option::None,
        Option::Some(al) => Option::Some(subs_view(al@)),
    }
}

/// The pre-seeded community names: the allow-list in its own order, or none.
pub open spec fn links_init(subreddits: Option<&Vec<String>>) -> Seq<Seq<char>> {
    match subreddits {
        Option::None => Seq::empty(),
        Option::Some(al) => subs_view(al@),
    }
}

/// Index stability: with an allow-list, the community list of the index is
/// the allow-list itself, in its order, whatever the post stream holds.  Two
/// builds over the same allow-list therefore assign identical indices.
pub proof fn lemma_index_stability(posts: Seq<RedditPost>, al: Seq<Seq<char>>)
    ensures
        index_communities(posts, al, Some(al)) == al,
    decreases posts.len(),
{
    if posts.len() > 0 {
        lemma_index_stability(posts.drop_last(), al);
        let p = posts.last();
        if contributes(p, Some(al)) {
            assert(al.contains(p.subreddit@));
        }
    }
}

/// Whether a post extends an already-built index: its community is not
/// among the original (pre-extension) communities, it carries an external
/// link, and that link is already a key of the index.
pub open spec fn extends_index(p: RedditPost, orig: Seq<Seq<char>>, ks: Seq<Seq<char>>) -> bool {
    !orig.contains(p.subreddit@) && p.linked_url() is Some && ks.contains(p.linked_url()->Some_0)
}

/// The communities of an index extended by a fresh post stream.
pub open spec fn extended_communities(
    posts: Seq<RedditPost>,
    init: Seq<Seq<char>>,
    orig: Seq<Seq<char>>,
    ks: Seq<Seq<char>>,
) -> Seq<Seq<char>>
    decreases posts.len(),
{
    if posts.len() == 0 {
        init
    } else {
        let prev = extended_communities(posts.drop_last(), init, orig, ks);
        let p = posts.last();
        if extends_index(p, orig, ks) && !prev.contains(p.subreddit@) {
            prev.push(p.subreddit@)
        } else {
            prev
        }
    }
}

/// The occurrences appended to url `u` by the extension pass.
pub open spec fn extension_occurrences(
    posts: Seq<RedditPost>,
    orig: Seq<Seq<char>>,
    ks: Seq<Seq<char>>,
    subs: Seq<Seq<char>>,
    u: Seq<char>,
) -> Seq<(usize, i32)>
    decreases posts.len(),
{
    if posts.len() == 0 {
        Seq::empty()
    } else {
        let prev = extension_occurrences(posts.drop_last(), orig, ks, subs, u);
        let p = posts.last();
        if extends_index(p, orig, ks) && p.linked_url() == Some(u) {
            prev.push((first_index(subs, p.subreddit@) as usize, p.created_utc))
        } else {
            prev
        }
    }
}

proof fn lemma_extended_communities_contains(
    posts: Seq<RedditPost>,
    init: Seq<Seq<char>>,
    orig: Seq<Seq<char>>,
    ks: Seq<Seq<char>>,
)
    ensures
        init.len() <= extended_communities(posts, init, orig, ks).len(),
        forall|j: int| 0 <= j < init.len() ==> (#[trigger] extended_communities(
            posts,
            init,
            orig,
            ks,
        )[j]) == init[j],
        forall|i: int|
            0 <= i < posts.len() && extends_index(#[trigger] posts[i], orig, ks)
                ==> extended_communities(posts, init, orig, ks).contains(posts[i].subreddit@),
    decreases posts.len(),
{
    if posts.len() > 0 {
        let prev = extended_communities(posts.drop_last(), init, orig, ks);
        let cur = extended_communities(posts, init, orig, ks);
        let p = posts.last();
        lemma_extended_communities_contains(posts.drop_last(), init, orig, ks);
        assert forall|i: int|
            0 <= i < posts.len() && extends_index(#[trigger] posts[i], orig, ks) implies
            cur.contains(posts[i].subreddit@) by {
            if i < posts.len() - 1 {
                assert(posts.drop_last()[i] == posts[i]);
                assert(prev.contains(posts[i].subreddit@));
                let w = choose|w: int| 0 <= w < prev.len() && prev[w] == posts[i].subreddit@;
                assert(cur[w] == posts[i].subreddit@);
            } else {
                if prev.contains(p.subreddit@) {
                    let w = choose|w: int| 0 <= w < prev.len() && prev[w] == p.subreddit@;
                    assert(cur[w] == p.subreddit@);
                } else {
                    assert(cur[cur.len() - 1] == p.subreddit@);
                }
            }
        }
    }
}

proof fn lemma_extended_communities_distinct(
    posts: Seq<RedditPost>,
    init: Seq<Seq<char>>,
    orig: Seq<Seq<char>>,
    ks: Seq<Seq<char>>,
)
    requires
        distinct_seq(init),
    ensures
        distinct_seq(extended_communities(posts, init, orig, ks)),
    decreases posts.len(),
{
    if posts.len() > 0 {
        let prev = extended_communities(posts.drop_last(), init, orig, ks);
        let p = posts.last();
        lemma_extended_communities_distinct(posts.drop_last(), init, orig, ks);
        if extends_index(p, orig, ks) && !prev.contains(p.subreddit@) {
            let cur = prev.push(p.subreddit@);
            assert forall|i: int, j: int| 0 <= i < j < cur.len() implies (#[trigger] cur[i]) != (
            #[trigger] cur[j]) by {
                if j < prev.len() {
                    assert(cur[i] == prev[i]);
                    assert(cur[j] == prev[j]);
                } else {
                    assert(cur[j] == p.subreddit@);
                    assert(cur[i] == prev[i]);
                    if prev[i] == p.subreddit@ {
                        assert(prev.contains(p.subreddit@));
                    }
                }
            }
        }
    }
}

proof fn lemma_extension_occurrences_extend_subs(
    posts: Seq<RedditPost>,
    orig: Seq<Seq<char>>,
    ks: Seq<Seq<char>>,
    subs: Seq<Seq<char>>,
    y: Seq<char>,
    u: Seq<char>,
)
    requires
        forall|i: int|
            0 <= i < posts.len() && extends_index(#[trigger] posts[i], orig, ks) ==> subs.contains(
                posts[i].subreddit@,
            ),
    ensures
        extension_occurrences(posts, orig, ks, subs.push(y), u) == extension_occurrences(
            posts,
            orig,
            ks,
            subs,
            u,
        ),
    decreases posts.len(),
{
    if posts.len() > 0 {
        let p = posts.last();
        assert forall|i: int|
            0 <= i < posts.drop_last().len() && extends_index(
                #[trigger] posts.drop_last()[i],
                orig,
                ks,
            ) implies subs.contains(posts.drop_last()[i].subreddit@) by {
            assert(posts.drop_last()[i] == posts[i]);
        }
        lemma_extension_occurrences_extend_subs(posts.drop_last(), orig, ks, subs, y, u);
        if extends_index(p, orig, ks) && p.linked_url() == Some(u) {
            assert(posts[posts.len() - 1] == p);
            assert(subs.contains(p.subreddit@));
            lemma_first_index_push(subs, y, p.subreddit@);
        }
    }
}

/// A post that does not extend the index leaves the extension spec
/// unchanged.
proof fn lemma_not_extending_step(
    prefix: Seq<RedditPost>,
    prefix1: Seq<RedditPost>,
    orig: Seq<Seq<char>>,
    ks: Seq<Seq<char>>,
    init: Seq<Seq<char>>,
    subs: Seq<Seq<char>>,
)
    requires
        prefix1.len() >= 1,
        prefix1.drop_last() == prefix,
        !extends_index(prefix1.last(), orig, ks),
    ensures
        extended_communities(prefix1, init, orig, ks) == extended_communities(
            prefix,
            init,
            orig,
            ks,
        ),
        forall|u: Seq<char>| #[trigger] extension_occurrences(prefix1, orig, ks, subs, u)
            == extension_occurrences(prefix, orig, ks, subs, u),
{
}

/// Whether a name list contains the given name.
fn contains_string(v: &Vec<String>, s: &String) -> (r: bool)
    ensures
        r == subs_view(v@).contains(s@),
{
    let n = v.len();
    for i in 0..n
        invariant
            n == v@.len(),
            forall|j: int| 0 <= j < i ==> (#[trigger] subs_view(v@)[j]) != s@,
    {
        assert(subs_view(v@)[i as int] == v@[i as int]@);
        if v[i] == *s {
            assert(subs_view(v@).contains(s@));
            return true;
        }
    }
    proof {
        if subs_view(v@).contains(s@) {
            let i = choose|i: int| 0 <= i < subs_view(v@).len() && subs_view(v@)[i] == s@;
            assert(subs_view(v@)[i] != s@);
        }
    }
    false
}

/// Find the index of a name in a name list.
pub fn find_string_index(v: &Vec<String>, s: &String) -> (r: Option<usize>)
    ensures
        match r {
            Some(i) => i < v@.len() && first_index(subs_view(v@), s@) == i as int,
            None => !subs_view(v@).contains(s@),
        },
{
    let ghost m = subs_view(v@);
    let n = v.len();
    for i in 0..n
        invariant
            n == v@.len(),
            m == subs_view(v@),
            forall|j: int| 0 <= j < i ==> (#[trigger] m[j]) != s@,
    {
        assert(m[i as int] == v@[i as int]@);
        if v[i] == *s {
            proof {
                lemma_first_index(m, s@);
                assert(m.contains(s@));
                let fi = first_index(m, s@);
                if fi > i as int {
                    assert(m[i as int] != s@);
                }
            }
            return Some(i);
        }
    }
    proof {
        if m.contains(s@) {
            let i = choose|i: int| 0 <= i < m.len() && m[i] == s@;
            assert(m[i] != s@);
        }
    }
    None
}

/// Find the position of a url key in the url table.
fn find_url_index(v: &Vec<(String, Vec<(usize, i32)>)>, u: &String) -> (r: Option<usize>)
    ensures
        match r {
            Some(i) => i < v@.len() && key_index(urls_view(v@), u@) == i as int,
            None => !has_key(urls_view(v@), u@),
        },
{
    let ghost m = urls_view(v@);
    let n = v.len();
    for i in 0..n
        invariant
            n == v@.len(),
            m == urls_view(v@),
            forall|j: int| 0 <= j < i ==> (#[trigger] m[j]).0 != u@,
    {
        assert(m[i as int].0 == v@[i as int].0@);
        if v[i].0 == *u {
            proof {
                lemma_key_present(m, i as int);
                lemma_key_index(m, u@);
                let ki = key_index(m, u@);
                if ki > i as int {
                    assert(m[i as int].0 != u@);
                }
            }
            return Some(i);
        }
    }
    proof {
        lemma_key_index(m, u@);
        if has_key(m, u@) {
            assert(m[key_index(m, u@)].0 != u@);
        }
    }
    None
}

/// Build the url index of a post stream.  With an allow-list, only posts of
/// allow-listed communities are considered and the allow-list itself is the
/// community list, in its own order; without one, communities are numbered
/// in first-appearance order.  Each contributing post appends one
/// (community index, creation time) occurrence to its url's list.
pub fn get_links(posts: &Vec<RedditPost>, subreddits: Option<&Vec<String>>) -> (r:
    SubredditsFromUrls)
    requires
        match subreddits {
            Some(al) => distinct_seq(subs_view(al@)),
            None => true,
        },
    ensures
        r.wf(),
        r.subs() == index_communities(posts@, links_init(subreddits), links_allow(subreddits)),
        keys_of(r.occs()) == url_keys(posts@, links_allow(subreddits)),
        forall|u: Seq<char>| #[trigger] has_key(r.occs(), u) ==> value_of(r.occs(), u)
            == url_occurrences(posts@, links_allow(subreddits), r.subs(), u),
{
    let ghost allow = links_allow(subreddits);
    let ghost init = links_init(subreddits);
    let mut subreddits_vec: Vec<String> = Vec::new();
    match subreddits {
        Some(al) => {
            let m = al.len();
            for i in 0..m
                invariant
                    m == al@.len(),
                    subs_view(subreddits_vec@) == subs_view(al@).take(i as int),
            {
                subreddits_vec.push(al[i].clone());
                proof {
                    assert(subs_view(subreddits_vec@) =~= subs_view(al@).take(i as int).push(
                        al@[i as int]@,
                    ));
                    assert(subs_view(al@).take(i as int + 1) =~= subs_view(al@).take(
                        i as int,
                    ).push(subs_view(al@)[i as int]));
                }
            }
            proof {
                assert(subs_view(al@).take(m as int) =~= subs_view(al@));
            }
        },
        None => {
            proof {
                assert(subs_view(subreddits_vec@) =~= Seq::<Seq<char>>::empty());
            }
        },
    }
    let mut map: Vec<(String, Vec<(usize, i32)>)> = Vec::new();
    let n = posts.len();
    proof {
        assert(subs_view(subreddits_vec@) == index_communities(posts@.take(0), init, allow));
        assert(keys_of(urls_view(map@)) =~= url_keys(posts@.take(0), allow));
    }
    for idx in 0..n
        invariant
            n == posts@.len(),
            allow == links_allow(subreddits),
            init == links_init(subreddits),
            match subreddits {
                Some(al) => distinct_seq(subs_view(al@)),
                None => true,
            },
            distinct_seq(subs_view(subreddits_vec@)),
            subs_view(subreddits_vec@) == index_communities(posts@.take(idx as int), init, allow),
            distinct_keys(urls_view(map@)),
            keys_of(urls_view(map@)) == url_keys(posts@.take(idx as int), allow),
            forall|u: Seq<char>| #[trigger] has_key(urls_view(map@), u) ==> value_of(
                urls_view(map@),
                u,
            ) == url_occurrences(posts@.take(idx as int), allow, subs_view(subreddits_vec@), u),
            forall|i: int| 0 <= i < urls_view(map@).len() ==> (#[trigger] urls_view(
                map@,
            )[i]).1.len() >= 1,
            forall|i: int, j: int|
                0 <= i < urls_view(map@).len() && 0 <= j < urls_view(map@)[i].1.len() ==> (
                #[trigger] urls_view(map@)[i].1[j]).0 < subs_view(subreddits_vec@).len(),
    {
        let ghost prefix = posts@.take(idx as int);
        let ghost prefix1 = posts@.take(idx as int + 1);
        let ghost sv = subs_view(subreddits_vec@);
        let ghost uv = urls_view(map@);
        let p = &posts[idx];
        proof {
            assert(prefix1.drop_last() =~= prefix);
            assert(prefix1.last() == posts@[idx as int]);
        }
        let is_allowed = match subreddits {
            Some(al) => contains_string(al, &p.subreddit),
            None => true,
        };
        let linked = p.get_linked_url();
        proof {
            assert(is_allowed == allowed(posts@[idx as int], allow));
        }
        if is_allowed {
            if let Some(url) = linked {
                proof {
                    assert(contributes(posts@[idx as int], allow));
                    assert(posts@[idx as int].linked_url() == Some(url@));
                    lemma_index_communities_contains(prefix, init, allow);
                }
                let sid = match find_string_index(&subreddits_vec, &p.subreddit) {
                    Some(i) => {
                        proof {
                            lemma_first_index(sv, p.subreddit@);
                            assert(sv.contains(p.subreddit@));
                            assert(index_communities(prefix1, init, allow) == sv);
                        }
                        i
                    },
                    None => {
                        subreddits_vec.push(p.subreddit.clone());
                        proof {
                            assert(subs_view(subreddits_vec@) =~= sv.push(p.subreddit@));
                            assert(index_communities(prefix1, init, allow) == sv.push(
                                p.subreddit@,
                            ));
                            lemma_first_index_push(sv, p.subreddit@, p.subreddit@);
                            // distinctness of the extended community list
                            let sv2 = sv.push(p.subreddit@);
                            assert forall|a: int, b: int| 0 <= a < b < sv2.len() implies (
                            #[trigger] sv2[a]) != (#[trigger] sv2[b]) by {
                                if b < sv.len() {
                                    assert(sv2[a] == sv[a]);
                                    assert(sv2[b] == sv[b]);
                                } else {
                                    assert(sv2[b] == p.subreddit@);
                                    assert(sv2[a] == sv[a]);
                                    if sv[a] == p.subreddit@ {
                                        assert(sv.contains(p.subreddit@));
                                    }
                                }
                            }
                            // recorded occurrences keep their meaning
                            assert forall|i: int|
                                0 <= i < prefix.len() && contributes(
                                    #[trigger] prefix[i],
                                    allow,
                                ) implies sv.contains(prefix[i].subreddit@) by {}
                            assert forall|u: Seq<char>| #[trigger] has_key(uv, u) implies value_of(
                                uv,
                                u,
                            ) == url_occurrences(prefix, allow, sv2, u) by {
                                lemma_url_occurrences_extend_subs(
                                    prefix,
                                    allow,
                                    sv,
                                    p.subreddit@,
                                    u,
                                );
                            }
                        }
                        subreddits_vec.len() - 1
                    },
                };
                let ghost sv2 = subs_view(subreddits_vec@);
                proof {
                    assert(sid as int == first_index(sv2, p.subreddit@));
                    assert(sv2 == index_communities(prefix1, init, allow));
                    lemma_first_index(sv2, p.subreddit@);
                    assert((sid as int) < sv2.len());
                    assert forall|u: Seq<char>| #[trigger] has_key(uv, u) implies value_of(uv, u)
                        == url_occurrences(prefix, allow, sv2, u) by {}
                    lemma_has_key_contains(uv, url@);
                }
                let entry = (sid, p.created_utc);
                match find_url_index(&map, &url) {
                    Some(k) => {
                        proof {
                            lemma_key_index(uv, url@);
                            assert(uv[k as int].0 == url@);
                            assert(url_keys(prefix, allow).contains(url@));
                            assert(url_keys(prefix1, allow) == url_keys(prefix, allow));
                            assert(uv[k as int] == urls_view(map@)[k as int]);
                        }
                        let ghost old_list = map@[k as int].1@;
                        proof {
                            assert(uv[k as int].1 == old_list);
                            assert(value_of(uv, url@) == old_list);
                            assert(has_key(uv, url@));
                            assert(old_list == url_occurrences(prefix, allow, sv2, url@));
                            assert(entry == (
                                first_index(sv2, posts@[idx as int].subreddit@) as usize,
                                posts@[idx as int].created_utc,
                            ));
                        }
                        map[k].1.push(entry);
                        proof {
                            let uv2 = urls_view(map@);
                            assert(uv2 =~= uv.update(k as int, (url@, old_list.push(entry))));
                            crate::assoc::lemma_distinct_update(uv, k as int, old_list.push(entry));
                            assert(keys_of(uv2) =~= keys_of(uv));
                            assert forall|u: Seq<char>| #[trigger] has_key(uv2, u) implies value_of(
                                uv2,
                                u,
                            ) == url_occurrences(prefix1, allow, sv2, u) by {
                                lemma_key_index_update(uv, k as int, old_list.push(entry), u);
                                lemma_key_index(uv, u);
                                assert(key_index(uv2, u) == key_index(uv, u));
                                assert(has_key(uv, u));
                                assert(value_of(uv, u) == url_occurrences(prefix, allow, sv2, u));
                                if u == url@ {
                                    assert(key_index(uv, u) == k as int);
                                    assert(value_of(uv2, u) == old_list.push(entry));
                                    assert(value_of(uv, u) == old_list);
                                    assert(url_occurrences(prefix1, allow, sv2, u)
                                        == url_occurrences(prefix, allow, sv2, u).push(
                                        (first_index(sv2, posts@[idx as int].subreddit@) as usize, posts@[idx as int].created_utc),
                                    ));
                                } else {
                                    assert(key_index(uv, u) != k as int);
                                    assert(uv2[key_index(uv, u)] == uv[key_index(uv, u)]);
                                    assert(value_of(uv2, u) == value_of(uv, u));
                                    assert(url_occurrences(prefix1, allow, sv2, u)
                                        == url_occurrences(prefix, allow, sv2, u));
                                }
                            }
                            assert forall|i: int, j: int|
                                0 <= i < uv2.len() && 0 <= j < uv2[i].1.len() implies (
                            #[trigger] uv2[i].1[j]).0 < sv2.len() by {
                                if i == k as int && j == uv2[i].1.len() - 1 {
                                } else if i == k as int {
                                    assert(uv2[i].1[j] == uv[i].1[j]);
                                } else {
                                    assert(uv2[i] == uv[i]);
                                }
                            }
                        }
                    },
                    None => {
                        let mut lst: Vec<(usize, i32)> = Vec::new();
                        lst.push(entry);
                        map.push((url, lst));
                        proof {
                            let uv2 = urls_view(map@);
                            let ghost e = (prefix1.last().linked_url()->Some_0, seq![entry]);
                            assert(uv2 =~= uv.push(e));
                            crate::assoc::lemma_distinct_push(uv, e);
                            assert(!url_keys(prefix, allow).contains(url@));
                            assert(url_keys(prefix1, allow) == url_keys(prefix, allow).push(url@));
                            assert(keys_of(uv2) =~= keys_of(uv).push(url@));
                            lemma_absent_url_empty(prefix, allow, sv2, url@);
                            assert forall|u: Seq<char>| #[trigger] has_key(uv2, u) implies value_of(
                                uv2,
                                u,
                            ) == url_occurrences(prefix1, allow, sv2, u) by {
                                lemma_key_index_push(uv, e, u);
                                lemma_key_index(uv, u);
                                if has_key(uv, u) {
                                    assert(uv2[key_index(uv, u)] == uv[key_index(uv, u)]);
                                    assert(value_of(uv2, u) == value_of(uv, u));
                                    assert(u != url@);
                                    assert(url_occurrences(prefix1, allow, sv2, u)
                                        == url_occurrences(prefix, allow, sv2, u));
                                } else {
                                    assert(u == url@);
                                    assert(key_index(uv2, u) == uv.len());
                                    assert(uv2[uv.len() as int] == e);
                                    assert(value_of(uv2, u) == seq![entry]);
                                    assert(url_occurrences(prefix1, allow, sv2, u)
                                        == url_occurrences(prefix, allow, sv2, u).push(entry));
                                    assert(url_occurrences(prefix, allow, sv2, u) =~= Seq::<
                                        (usize, i32),
                                    >::empty());
                                    assert(seq![entry] =~= Seq::<(usize, i32)>::empty().push(
                                        entry,
                                    ));
                                }
                            }
                            assert forall|i: int, j: int|
                                0 <= i < uv2.len() && 0 <= j < uv2[i].1.len() implies (
                            #[trigger] uv2[i].1[j]).0 < sv2.len() by {
                                if i < uv.len() {
                                    assert(uv2[i] == uv[i]);
                                } else {
                                    assert(uv2[i] == e);
                                }
                            }
                            assert forall|i: int| 0 <= i < uv2.len() implies (
                            #[trigger] uv2[i]).1.len() >= 1 by {
                                if i < uv.len() {
                                    assert(uv2[i] == uv[i]);
                                } else {
                                    assert(uv2[i] == e);
                                }
                            }
                        }
                    },
                }
            } else {
                proof {
                    lemma_not_contributing_step(prefix, prefix1, allow, subs_view(subreddits_vec@), init);
                }
            }
        } else {
            proof {
                lemma_not_contributing_step(prefix, prefix1, allow, subs_view(subreddits_vec@), init);
            }
        }
    }
    proof {
        assert(posts@.take(n as int) =~= posts@);
    }
    SubredditsFromUrls { urls: map, subreddits: subreddits_vec }
}

/// Extend an already-built index with other communities' posts to known
/// urls: a post whose community is outside the index's original community
/// list and whose url is already a key appends one occurrence, communities
/// gaining fresh indices in first-appearance order.  Urls never gain or
/// lose keys, and existing occurrences are kept unchanged.
pub fn get_posts_with_urls(posts: &Vec<RedditPost>, urls: &mut SubredditsFromUrls)
    requires
        old(urls).wf(),
    ensures
        final(urls).wf(),
        final(urls).subs() == extended_communities(
            posts@,
            old(urls).subs(),
            old(urls).subs(),
            keys_of(old(urls).occs()),
        ),
        keys_of(final(urls).occs()) == keys_of(old(urls).occs()),
        forall|u: Seq<char>| #[trigger] has_key(final(urls).occs(), u) ==> value_of(
            final(urls).occs(),
            u,
        ) == value_of(old(urls).occs(), u) + extension_occurrences(
            posts@,
            old(urls).subs(),
            keys_of(old(urls).occs()),
            final(urls).subs(),
            u,
        ),
{
    let ghost orig = old(urls).subs();
    let ghost ks = keys_of(old(urls).occs());
    let ghost old_occs = old(urls).occs();
    let mut original_names: Vec<String> = Vec::new();
    let m = urls.subreddits.len();
    for i in 0..m
        invariant
            *urls == *old(urls),
            m == urls.subreddits@.len(),
            orig == old(urls).subs(),
            subs_view(original_names@) == orig.take(i as int),
    {
        original_names.push(urls.subreddits[i].clone());
        proof {
            assert(subs_view(original_names@) =~= orig.take(i as int).push(orig[i as int]));
            assert(orig.take(i as int + 1) =~= orig.take(i as int).push(orig[i as int]));
        }
    }
    proof {
        assert(orig.take(m as int) =~= orig);
        assert forall|u: Seq<char>| #[trigger] has_key(old_occs, u) implies value_of(old_occs, u)
            == value_of(old_occs, u) + extension_occurrences(
            posts@.take(0),
            orig,
            ks,
            orig,
            u,
        ) by {
            assert(extension_occurrences(posts@.take(0), orig, ks, orig, u) == Seq::<
                (usize, i32),
            >::empty());
            assert(value_of(old_occs, u) + Seq::<(usize, i32)>::empty() =~= value_of(old_occs, u));
        }
    }
    let n = posts.len();
    for idx in 0..n
        invariant
            n == posts@.len(),
            orig == old(urls).subs(),
            ks == keys_of(old(urls).occs()),
            old_occs == old(urls).occs(),
            old(urls).wf(),
            subs_view(original_names@) == orig,
            distinct_seq(urls.subs()),
            urls.subs() == extended_communities(posts@.take(idx as int), orig, orig, ks),
            distinct_keys(urls.occs()),
            keys_of(urls.occs()) == ks,
            urls.occs().len() == old_occs.len(),
            forall|u: Seq<char>| #[trigger] has_key(urls.occs(), u) ==> value_of(urls.occs(), u)
                == value_of(old_occs, u) + extension_occurrences(
                posts@.take(idx as int),
                orig,
                ks,
                urls.subs(),
                u,
            ),
            forall|i: int| 0 <= i < urls.occs().len() ==> (#[trigger] urls.occs()[i]).1.len() >= 1,
            forall|i: int, j: int|
                0 <= i < urls.occs().len() && 0 <= j < urls.occs()[i].1.len() ==> (
                #[trigger] urls.occs()[i].1[j]).0 < urls.subs().len(),
    {
        let ghost prefix = posts@.take(idx as int);
        let ghost prefix1 = posts@.take(idx as int + 1);
        let ghost sv = urls.subs();
        let ghost uv = urls.occs();
        let p = &posts[idx];
        proof {
            assert(prefix1.drop_last() =~= prefix);
            assert(prefix1.last() == posts@[idx as int]);
        }
        let in_orig = contains_string(&original_names, &p.subreddit);
        if in_orig {
            proof {
                lemma_not_extending_step(prefix, prefix1, orig, ks, orig, sv);
            }
        } else if let Some(url) = p.get_linked_url() {
            proof {
                assert(posts@[idx as int].linked_url() == Some(url@));
            }
            match find_url_index(&urls.urls, &url) {
                Some(k) => {
                    proof {
                        lemma_key_index(uv, url@);
                        assert(uv[k as int].0 == url@);
                        lemma_has_key_contains(uv, url@);
                        assert(ks.contains(url@));
                        assert(extends_index(posts@[idx as int], orig, ks));
                        lemma_extended_communities_contains(prefix, orig, orig, ks);
                    }
                    let sid = match find_string_index(&urls.subreddits, &p.subreddit) {
                        Some(i) => {
                            proof {
                                lemma_first_index(sv, p.subreddit@);
                                assert(sv.contains(p.subreddit@));
                                assert(extended_communities(prefix1, orig, orig, ks) == sv);
                            }
                            i
                        },
                        None => {
                            urls.subreddits.push(p.subreddit.clone());
                            proof {
                                assert(urls.subs() =~= sv.push(p.subreddit@));
                                assert(extended_communities(prefix1, orig, orig, ks) == sv.push(
                                    p.subreddit@,
                                ));
                                lemma_first_index_push(sv, p.subreddit@, p.subreddit@);
                                let sv2 = sv.push(p.subreddit@);
                                assert forall|a: int, b: int| 0 <= a < b < sv2.len() implies (
                                #[trigger] sv2[a]) != (#[trigger] sv2[b]) by {
                                    if b < sv.len() {
                                        assert(sv2[a] == sv[a]);
                                        assert(sv2[b] == sv[b]);
                                    } else {
                                        assert(sv2[b] == p.subreddit@);
                                        assert(sv2[a] == sv[a]);
                                        if sv[a] == p.subreddit@ {
                                            assert(sv.contains(p.subreddit@));
                                        }
                                    }
                                }
                                assert forall|u: Seq<char>| #[trigger] has_key(uv, u) implies
                                    value_of(uv, u) == value_of(old_occs, u)
                                    + extension_occurrences(prefix, orig, ks, sv2, u) by {
                                    lemma_extension_occurrences_extend_subs(
                                        prefix,
                                        orig,
                                        ks,
                                        sv,
                                        p.subreddit@,
                                        u,
                                    );
                                }
                            }
                            urls.subreddits.len() - 1
                        },
                    };
                    let ghost sv2 = urls.subs();
                    proof {
                        assert(sid as int == first_index(sv2, p.subreddit@));
                        assert(sv2 == extended_communities(prefix1, orig, orig, ks));
                        lemma_first_index(sv2, p.subreddit@);
                        assert((sid as int) < sv2.len());
                        assert forall|u: Seq<char>| #[trigger] has_key(uv, u) implies value_of(
                            uv,
                            u,
                        ) == value_of(old_occs, u) + extension_occurrences(
                            prefix,
                            orig,
                            ks,
                            sv2,
                            u,
                        ) by {}
                    }
                    let entry = (sid, p.created_utc);
                    let ghost old_list = urls.urls@[k as int].1@;
                    proof {
                        assert(uv[k as int].1 == old_list);
                        assert(value_of(uv, url@) == old_list);
                        assert(has_key(uv, url@));
                        assert(entry == (
                            first_index(sv2, posts@[idx as int].subreddit@) as usize,
                            posts@[idx as int].created_utc,
                        ));
                    }
                    urls.urls[k].1.push(entry);
                    proof {
                        let uv2 = urls.occs();
                        assert(uv2 =~= uv.update(k as int, (url@, old_list.push(entry))));
                        crate::assoc::lemma_distinct_update(uv, k as int, old_list.push(entry));
                        assert(keys_of(uv2) =~= keys_of(uv));
                        assert forall|u: Seq<char>| #[trigger] has_key(uv2, u) implies value_of(
                            uv2,
                            u,
                        ) == value_of(old_occs, u) + extension_occurrences(
                            prefix1,
                            orig,
                            ks,
                            sv2,
                            u,
                        ) by {
                            lemma_key_index_update(uv, k as int, old_list.push(entry), u);
                            lemma_key_index(uv, u);
                            assert(key_index(uv2, u) == key_index(uv, u));
                            assert(has_key(uv, u));
                            assert(value_of(uv, u) == value_of(old_occs, u)
                                + extension_occurrences(prefix, orig, ks, sv2, u));
                            if u == url@ {
                                assert(key_index(uv, u) == k as int);
                                assert(value_of(uv2, u) == old_list.push(entry));
                                assert(extension_occurrences(prefix1, orig, ks, sv2, u)
                                    == extension_occurrences(prefix, orig, ks, sv2, u).push(
                                    entry,
                                ));
                                assert(value_of(old_occs, u) + extension_occurrences(
                                    prefix,
                                    orig,
                                    ks,
                                    sv2,
                                    u,
                                ).push(entry) =~= (value_of(old_occs, u) + extension_occurrences(
                                    prefix,
                                    orig,
                                    ks,
                                    sv2,
                                    u,
                                )).push(entry));
                            } else {
                                assert(key_index(uv, u) != k as int);
                                assert(uv2[key_index(uv, u)] == uv[key_index(uv, u)]);
                                assert(value_of(uv2, u) == value_of(uv, u));
                                assert(extension_occurrences(prefix1, orig, ks, sv2, u)
                                    == extension_occurrences(prefix, orig, ks, sv2, u));
                            }
                        }
                        assert forall|i: int, j: int|
                            0 <= i < uv2.len() && 0 <= j < uv2[i].1.len() implies (
                        #[trigger] uv2[i].1[j]).0 < sv2.len() by {
                            if i == k as int && j == uv2[i].1.len() - 1 {
                            } else if i == k as int {
                                assert(uv2[i].1[j] == uv[i].1[j]);
                            } else {
                                assert(uv2[i] == uv[i]);
                            }
                        }
                        assert forall|i: int| 0 <= i < uv2.len() implies (
                        #[trigger] uv2[i]).1.len() >= 1 by {
                            if i == k as int {
                            } else {
                                assert(uv2[i] == uv[i]);
                            }
                        }
                    }
                },
                None => {
                    proof {
                        lemma_has_key_contains(uv, url@);
                        assert(!ks.contains(url@));
                        assert(!extends_index(posts@[idx as int], orig, ks));
                        lemma_not_extending_step(prefix, prefix1, orig, ks, orig, sv);
                    }
                },
            }
        } else {
            proof {
                assert(!extends_index(posts@[idx as int], orig, ks));
                lemma_not_extending_step(prefix, prefix1, orig, ks, orig, sv);
            }
        }
    }
    proof {
        assert(posts@.take(n as int) =~= posts@);
    }
}

// ---------------------------------------------------------------------
// Repost attribution
// ---------------------------------------------------------------------

/// Repost statistics of one focal community.
#[derive(Debug)]
pub struct RepostStats {
    pub n_posts: u32,
    pub n_reposts_from_others: u32,
    pub n_reposted_by_others: u32,
    pub n_reposts_from_self: u32,
    pub reposts_from_others: Vec<(usize, u32)>,
    pub reposts_by_others: Vec<(usize, u32)>,
}

/// The mathematical value of a `RepostStats`.
pub ghost struct RepostModel {
    pub n_posts: int,
    pub n_reposts_from_others: int,
    pub n_reposted_by_others: int,
    pub n_reposts_from_self: int,
    pub reposts_from_others: Seq<(usize, int)>,
    pub reposts_by_others: Seq<(usize, int)>,
}

/// The view of a per-community counter table.
pub open spec fn counts_view(v: Seq<(usize, u32)>) -> Seq<(usize, int)> {
    v.map_values(|e: (usize, u32)| (e.0, e.1 as int))
}

impl RepostStats {
    pub open spec fn model(self) -> RepostModel {
        RepostModel {
            n_posts: self.n_posts as int,
            n_reposts_from_others: self.n_reposts_from_others as int,
            n_reposted_by_others: self.n_reposted_by_others as int,
            n_reposts_from_self: self.n_reposts_from_self as int,
            reposts_from_others: counts_view(self.reposts_from_others@),
            reposts_by_others: counts_view(self.reposts_by_others@),
        }
    }
}

pub open spec fn repost_zero() -> RepostModel {
    RepostModel {
        n_posts: 0,
        n_reposts_from_others: 0,
        n_reposted_by_others: 0,
        n_reposts_from_self: 0,
        reposts_from_others: Seq::empty(),
        reposts_by_others: Seq::empty(),
    }
}

/// Add one to the counter of `c`, creating it at one on first sight.
pub open spec fn bump(m: Seq<(usize, int)>, c: usize) -> Seq<(usize, int)> {
    if has_key(m, c) {
        m.update(key_index(m, c), (c, m[key_index(m, c)].1 + 1))
    } else {
        m.push((c, 1))
    }
}

/// Ascending stable insertion by creation time: the occurrence lands after
/// every occurrence with an equal or earlier time.
pub open spec fn insert_by_time(x: (usize, i32), s: Seq<(usize, i32)>) -> Seq<(usize, i32)>
    decreases s.len(),
{
    if s.len() == 0 {
        seq![x]
    } else if x.1 < s[0].1 {
        seq![x] + s
    } else {
        seq![s[0]] + insert_by_time(x, s.drop_first())
    }
}

/// The stable ascending sort of an occurrence list by creation time: ties
/// keep their stream order, so the first-seen post wins a tie.
pub open spec fn sort_by_time(s: Seq<(usize, i32)>) -> Seq<(usize, i32)>
    decreases s.len(),
{
    if s.len() == 0 {
        Seq::empty()
    } else {
        insert_by_time(s.last(), sort_by_time(s.drop_last()))
    }
}

/// Whether the focal community appears among the occurrences.
pub open spec fn focal_appears(s: Seq<(usize, i32)>, f: usize) -> bool {
    exists|j: int| 0 <= j < s.len() && (#[trigger] s[j]).0 == f
}

/// The walk state over one url's sorted occurrence list.
pub ghost struct WalkState {
    pub stats: RepostModel,
    pub has_posted: bool,
    pub seen: Seq<usize>,
}

/// One step of the repost walk, looking at occurrence `i` (i >= 1) of the
/// sorted list `s`: a repeated non-focal community is skipped; a later
/// occurrence while the focal community was first credits that community in
/// `reposts_by_others`; the focal community's own first later occurrence,
/// when it was not first, credits the first poster in `reposts_from_others`.
pub open spec fn walk_step(st: WalkState, s: Seq<(usize, i32)>, f: usize, i: int) -> WalkState {
    let c = s[i].0;
    let first = s[0].0;
    if c != f && st.seen.contains(c) {
        st
    } else {
        let seen2 = if c != f {
            st.seen.push(c)
        } else {
            st.seen
        };
        let stats1 = if first == f && c != f {
            RepostModel {
                n_reposted_by_others: st.stats.n_reposted_by_others + 1,
                reposts_by_others: bump(st.stats.reposts_by_others, c),
                ..st.stats
            }
        } else {
            st.stats
        };
        let stats2 = if !st.has_posted && first != f && c == f {
            RepostModel {
                n_reposts_from_others: stats1.n_reposts_from_others + 1,
                reposts_from_others: bump(stats1.reposts_from_others, first),
                ..stats1
            }
        } else {
            stats1
        };
        WalkState { stats: stats2, has_posted: st.has_posted || c == f, seen: seen2 }
    }
}

/// The walk state after the occurrences `1 .. i` of the sorted list.
pub open spec fn walk_upto(st0: WalkState, s: Seq<(usize, i32)>, f: usize, i: int) -> WalkState
    decreases i,
{
    if i <= 1 {
        st0
    } else {
        walk_step(walk_upto(st0, s, f, i - 1), s, f, i - 1)
    }
}

/// The contribution of one url to the focal community's statistics: a url
/// with fewer than two occurrences contributes nothing; otherwise the
/// occurrences are sorted by time (stable), the focal community earns one
/// `n_posts` unit when it appears at all and one `n_reposts_from_self` unit
/// when it appears but not first, and the walk from the second occurrence on
/// attributes the repost counters.
pub open spec fn process_url(stats: RepostModel, occs: Seq<(usize, i32)>, f: usize) -> RepostModel {
    let sorted = sort_by_time(occs);
    if sorted.len() <= 1 {
        stats
    } else {
        let stats1 = RepostModel {
            n_posts: stats.n_posts + if focal_appears(sorted, f) {
                1int
            } else {
                0int
            },
            n_reposts_from_self: stats.n_reposts_from_self + if focal_appears(sorted, f)
                && sorted[0].0 != f {
                1int
            } else {
                0int
            },
            ..stats
        };
        let st0 = WalkState { stats: stats1, has_posted: sorted[0].0 == f, seen: Seq::empty() };
        walk_upto(st0, sorted, f, sorted.len() as int).stats
    }
}

/// The repost statistics of the focal community `f` over a url table.
pub open spec fn reposts_model(table: Seq<(Seq<char>, Seq<(usize, i32)>)>, f: usize) -> RepostModel
    decreases table.len(),
{
    if table.len() == 0 {
        repost_zero()
    } else {
        process_url(reposts_model(table.drop_last(), f), table.last().1, f)
    }
}

/// Total number of occurrences in a url table.
pub open spec fn total_occurrences(table: Seq<(Seq<char>, Seq<(usize, i32)>)>) -> int
    decreases table.len(),
{
    if table.len() == 0 {
        0
    } else {
        total_occurrences(table.drop_last()) + table.last().1.len()
    }
}

proof fn lemma_insert_time_at(x: (usize, i32), s: Seq<(usize, i32)>, j: int)
    requires
        0 <= j <= s.len(),
        forall|jj: int| 0 <= jj < j ==> !(x.1 < (#[trigger] s[jj]).1),
        j < s.len() ==> x.1 < s[j].1,
    ensures
        insert_by_time(x, s) == s.insert(j, x),
    decreases s.len(),
{
    if s.len() == 0 {
        assert(insert_by_time(x, s) =~= s.insert(0, x));
    } else if x.1 < s[0].1 {
        assert(j == 0) by {
            if j > 0 {
                assert(!(x.1 < s[0].1));
            }
        }
        assert(seq![x] + s =~= s.insert(0, x));
    } else {
        assert(j >= 1) by {
            if j == 0 {
                assert(x.1 < s[0].1);
            }
        }
        let s2 = s.drop_first();
        assert forall|jj: int| 0 <= jj < j - 1 implies !(x.1 < (#[trigger] s2[jj]).1) by {
            assert(s2[jj] == s[jj + 1]);
        }
        assert(j - 1 < s2.len() ==> x.1 < s2[j - 1].1);
        lemma_insert_time_at(x, s2, j - 1);
        assert(seq![s[0]] + s2.insert(j - 1, x) =~= s.insert(j, x));
    }
}

proof fn lemma_insert_time_len(x: (usize, i32), s: Seq<(usize, i32)>)
    ensures
        insert_by_time(x, s).len() == s.len() + 1,
    decreases s.len(),
{
    if s.len() > 0 && !(x.1 < s[0].1) {
        lemma_insert_time_len(x, s.drop_first());
    }
}

/// Sort an occurrence list ascending by creation time, stably.
fn sort_occurrences(occs: &Vec<(usize, i32)>) -> (r: Vec<(usize, i32)>)
    ensures
        r@ == sort_by_time(occs@),
        r@.len() == occs@.len(),
{
    let mut out: Vec<(usize, i32)> = Vec::new();
    let n = occs.len();
    assert(occs@.take(0) =~= Seq::<(usize, i32)>::empty());
    for i in 0..n
        invariant
            n == occs@.len(),
            out@ == sort_by_time(occs@.take(i as int)),
            out@.len() == i,
    {
        let x = occs[i];
        let mut j: usize = 0;
        while j < out.len() && !(x.1 < out[j].1)
            invariant
                0 <= j <= out@.len(),
                forall|jj: int| 0 <= jj < j ==> !(x.1 < (#[trigger] out@[jj]).1),
            decreases out@.len() - j,
        {
            j += 1;
        }
        let ghost old_out = out@;
        out.insert(j, x);
        proof {
            lemma_insert_time_at(x, old_out, j as int);
            lemma_insert_time_len(x, old_out);
            assert(occs@.take(i as int + 1).drop_last() =~= occs@.take(i as int));
            assert(occs@.take(i as int + 1).last() == occs@[i as int]);
        }
    }
    proof {
        assert(occs@.take(n as int) =~= occs@);
    }
    out
}

/// Counter sanity: distinct keys and every per-community count between one
/// and the matching total.
pub open spec fn repost_counts_ok(m: RepostModel) -> bool {
    &&& 0 <= m.n_posts
    &&& 0 <= m.n_reposts_from_others
    &&& 0 <= m.n_reposted_by_others
    &&& 0 <= m.n_reposts_from_self
    &&& distinct_keys(m.reposts_by_others)
    &&& distinct_keys(m.reposts_from_others)
    &&& forall|i: int| 0 <= i < m.reposts_by_others.len() ==> 1 <= (
    #[trigger] m.reposts_by_others[i]).1 <= m.n_reposted_by_others
    &&& forall|i: int| 0 <= i < m.reposts_from_others.len() ==> 1 <= (
    #[trigger] m.reposts_from_others[i]).1 <= m.n_reposts_from_others
}

proof fn lemma_bump(m: Seq<(usize, int)>, c: usize, n: int)
    requires
        n >= 0,
        distinct_keys(m),
        forall|i: int| 0 <= i < m.len() ==> 1 <= (#[trigger] m[i]).1 <= n,
    ensures
        distinct_keys(bump(m, c)),
        forall|i: int| 0 <= i < bump(m, c).len() ==> 1 <= (#[trigger] bump(m, c)[i]).1 <= n + 1,
{
    lemma_key_index(m, c);
    if has_key(m, c) {
        let ki = key_index(m, c);
        crate::assoc::lemma_distinct_update(m, ki, m[ki].1 + 1);
        assert forall|i: int| 0 <= i < bump(m, c).len() implies 1 <= (#[trigger] bump(m, c)[i]).1
            <= n + 1 by {
            if i != ki {
                assert(bump(m, c)[i] == m[i]);
                assert(1 <= m[i].1 <= n);
                assert(1 <= bump(m, c)[i].1);
                assert(bump(m, c)[i].1 <= n + 1);
            } else {
                assert(bump(m, c)[i] == (c, m[ki].1 + 1));
                assert(1 <= m[ki].1 <= n);
                assert(bump(m, c)[i].1 == m[ki].1 + 1);
                assert(1 <= bump(m, c)[i].1);
                assert(bump(m, c)[i].1 <= n + 1);
            }
        }
    } else {
        crate::assoc::lemma_distinct_push(m, (c, 1));
        assert forall|i: int| 0 <= i < bump(m, c).len() implies 1 <= (#[trigger] bump(m, c)[i]).1
            <= n + 1 by {
            if i < m.len() {
                assert(bump(m, c)[i] == m[i]);
            } else {
                assert(bump(m, c)[i] == (c, 1int));
            }
        }
    }
}

proof fn lemma_walk_upto_bounds(st0: WalkState, s: Seq<(usize, i32)>, f: usize, i: int)
    requires
        1 <= i <= s.len(),
        s.len() >= 1,
        repost_counts_ok(st0.stats),
    ensures
        repost_counts_ok(walk_upto(st0, s, f, i).stats),
        walk_upto(st0, s, f, i).stats.n_posts == st0.stats.n_posts,
        walk_upto(st0, s, f, i).stats.n_reposts_from_self == st0.stats.n_reposts_from_self,
        st0.stats.n_reposted_by_others <= walk_upto(st0, s, f, i).stats.n_reposted_by_others
            <= st0.stats.n_reposted_by_others + (i - 1),
        st0.stats.n_reposts_from_others <= walk_upto(st0, s, f, i).stats.n_reposts_from_others
            <= st0.stats.n_reposts_from_others + (i - 1),
    decreases i,
{
    if i > 1 {
        lemma_walk_upto_bounds(st0, s, f, i - 1);
        let st = walk_upto(st0, s, f, i - 1);
        let c = s[i - 1].0;
        let first = s[0].0;
        if !(c != f && st.seen.contains(c)) {
            if first == f && c != f {
                lemma_bump(st.stats.reposts_by_others, c, st.stats.n_reposted_by_others);
            }
            let stats1 = walk_step(st, s, f, i - 1).stats;
            if !st.has_posted && first != f && c == f {
                lemma_bump(
                    st.stats.reposts_from_others,
                    first,
                    st.stats.n_reposts_from_others,
                );
            }
        }
    }
}

proof fn lemma_sort_time_len(s: Seq<(usize, i32)>)
    ensures
        sort_by_time(s).len() == s.len(),
    decreases s.len(),
{
    if s.len() > 0 {
        lemma_sort_time_len(s.drop_last());
        lemma_insert_time_len(s.last(), sort_by_time(s.drop_last()));
    }
}

/// Bounds of the repost fold: per-url the counters grow by at most the
/// url's occurrence count, and each per-community count stays under its
/// total.
proof fn lemma_reposts_model_bounds(table: Seq<(Seq<char>, Seq<(usize, i32)>)>, f: usize)
    requires
        forall|i: int| 0 <= i < table.len() ==> (#[trigger] table[i]).1.len() >= 1,
    ensures
        repost_counts_ok(reposts_model(table, f)),
        0 <= reposts_model(table, f).n_posts <= table.len(),
        0 <= reposts_model(table, f).n_reposts_from_self <= table.len(),
        0 <= reposts_model(table, f).n_reposted_by_others <= total_occurrences(table),
        0 <= reposts_model(table, f).n_reposts_from_others <= total_occurrences(table),
        table.len() <= total_occurrences(table),
    decreases table.len(),
{
    if table.len() > 0 {
        assert forall|i: int| 0 <= i < table.drop_last().len() implies (
        #[trigger] table.drop_last()[i]).1.len() >= 1 by {
            assert(table.drop_last()[i] == table[i]);
        }
        lemma_reposts_model_bounds(table.drop_last(), f);
        let prev = reposts_model(table.drop_last(), f);
        let occs = table.last().1;
        let sorted = sort_by_time(occs);
        lemma_sort_time_len(occs);
        if sorted.len() > 1 {
            let stats1 = RepostModel {
                n_posts: prev.n_posts + if focal_appears(sorted, f) {
                    1int
                } else {
                    0int
                },
                n_reposts_from_self: prev.n_reposts_from_self + if focal_appears(sorted, f)
                    && sorted[0].0 != f {
                    1int
                } else {
                    0int
                },
                ..prev
            };
            let st0 = WalkState { stats: stats1, has_posted: sorted[0].0 == f, seen: Seq::empty() };
            lemma_walk_upto_bounds(st0, sorted, f, sorted.len() as int);
        }
        assert(total_occurrences(table) == total_occurrences(table.drop_last())
            + table.last().1.len());
    }
}

/// The occurrence total over a prefix never exceeds the whole table's.
proof fn lemma_total_occs_prefix(table: Seq<(Seq<char>, Seq<(usize, i32)>)>, t: int)
    requires
        0 <= t <= table.len(),
    ensures
        total_occurrences(table.take(t)) <= total_occurrences(table),
    decreases table.len(),
{
    if t == table.len() {
        assert(table.take(t) =~= table);
    } else {
        assert(table.take(t) =~= table.drop_last().take(t));
        lemma_total_occs_prefix(table.drop_last(), t);
    }
}

/// Whether a community id list contains the given id.
fn contains_usize(v: &Vec<usize>, c: usize) -> (r: bool)
    ensures
        r == v@.contains(c),
{
    let n = v.len();
    for i in 0..n
        invariant
            n == v@.len(),
            forall|j: int| 0 <= j < i ==> (#[trigger] v@[j]) != c,
    {
        if v[i] == c {
            assert(v@[i as int] == c);
            return true;
        }
    }
    proof {
        if v@.contains(c) {
            let i = choose|i: int| 0 <= i < v@.len() && v@[i] == c;
            assert(v@[i] != c);
        }
    }
    false
}

/// Whether the focal community appears in an occurrence list.
fn occurrences_have_community(v: &Vec<(usize, i32)>, f: usize) -> (r: bool)
    ensures
        r == focal_appears(v@, f),
{
    let n = v.len();
    for i in 0..n
        invariant
            n == v@.len(),
            forall|j: int| 0 <= j < i ==> (#[trigger] v@[j]).0 != f,
    {
        if v[i].0 == f {
            assert(v@[i as int].0 == f);
            return true;
        }
    }
    proof {
        if focal_appears(v@, f) {
            let i = choose|i: int| 0 <= i < v@.len() && v@[i].0 == f;
            assert(v@[i].0 != f);
        }
    }
    false
}

/// Add one to the counter of community `c` in an executable counter table.
fn bump_count(v: &mut Vec<(usize, u32)>, c: usize)
    requires
        distinct_keys(counts_view(old(v)@)),
        forall|i: int| 0 <= i < old(v)@.len() ==> (#[trigger] old(v)@[i]).1 < u32::MAX,
    ensures
        counts_view(final(v)@) == bump(counts_view(old(v)@), c),
{
    let ghost m = counts_view(v@);
    let n = v.len();
    for i in 0..n
        invariant
            n == v@.len(),
            *v == *old(v),
            m == counts_view(v@),
            forall|j: int| 0 <= j < i ==> (#[trigger] m[j]).0 != c,
            distinct_keys(m),
            forall|j: int| 0 <= j < old(v)@.len() ==> (#[trigger] old(v)@[j]).1 < u32::MAX,
    {
        assert(m[i as int].0 == v@[i as int].0);
        if v[i].0 == c {
            proof {
                lemma_key_present(m, i as int);
                lemma_key_index(m, c);
                if key_index(m, c) > i as int {
                    assert(m[i as int].0 != c);
                }
                assert(key_index(m, c) == i as int);
                assert(v@[i as int].1 < u32::MAX);
            }
            let cur = v[i].1;
            v[i] = (c, cur + 1);
            proof {
                assert(counts_view(v@) =~= m.update(i as int, (c, m[i as int].1 + 1)));
            }
            return ;
        }
    }
    proof {
        lemma_key_index(m, c);
        if has_key(m, c) {
            assert(m[key_index(m, c)].0 != c);
        }
    }
    v.push((c, 1));
    proof {
        assert(counts_view(v@) =~= m.push((c, 1int)));
    }
}

/// The requested focal community does not appear in the index.
#[derive(Clone, Copy, Debug, PartialEq, Eq, Structural)]
pub struct NotFoundError;

/// Repost statistics for a focal community over a url index.  Per url with
/// at least two occurrences, the occurrences are sorted by creation time
/// (stable: stream order breaks ties) and walked as `process_url` says;
/// urls are folded in table order.  Fails with `NotFoundError` exactly when
/// the community is absent from the index's community list.
#[verifier::loop_isolation(false)]
pub fn get_reposts_stats(subreddit: &String, urls: &SubredditsFromUrls) -> (r: Result<
    RepostStats,
    NotFoundError,
>)
    requires
        urls.wf(),
        total_occurrences(urls.occs()) <= u32::MAX as int,
    ensures
        match r {
            Ok(st) => urls.subs().contains(subreddit@) && st.model() == reposts_model(
                urls.occs(),
                first_index(urls.subs(), subreddit@) as usize,
            ),
            Err(_) => !urls.subs().contains(subreddit@),
        },
{
    let sid = match find_string_index(&urls.subreddits, subreddit) {
        Some(i) => i,
        None => {
            return Err(NotFoundError);
        },
    };
    proof {
        lemma_first_index(urls.subs(), subreddit@);
        assert(urls.subs().contains(subreddit@));
        assert(sid as int == first_index(urls.subs(), subreddit@));
    }
    let ghost table = urls.occs();
    proof {
        lemma_reposts_model_bounds(table, sid);
    }
    let mut n_posts: u32 = 0;
    let mut n_reposts_from_others: u32 = 0;
    let mut n_reposted_by_others: u32 = 0;
    let mut n_reposts_from_self: u32 = 0;
    let mut reposts_from_others: Vec<(usize, u32)> = Vec::new();
    let mut reposts_by_others: Vec<(usize, u32)> = Vec::new();
    let n = urls.urls.len();
    for t in 0..n
        invariant
            n_posts as int == reposts_model(table.take(t as int), sid).n_posts,
            n_reposts_from_others as int == reposts_model(
                table.take(t as int),
                sid,
            ).n_reposts_from_others,
            n_reposted_by_others as int == reposts_model(
                table.take(t as int),
                sid,
            ).n_reposted_by_others,
            n_reposts_from_self as int == reposts_model(
                table.take(t as int),
                sid,
            ).n_reposts_from_self,
            counts_view(reposts_from_others@) == reposts_model(
                table.take(t as int),
                sid,
            ).reposts_from_others,
            counts_view(reposts_by_others@) == reposts_model(
                table.take(t as int),
                sid,
            ).reposts_by_others,
    {
        let ghost prefix = table.take(t as int);
        let ghost prefix1 = table.take(t as int + 1);
        let ghost pm = reposts_model(prefix, sid);
        proof {
            assert(prefix1.drop_last() =~= prefix);
            assert(prefix1.last() == table[t as int]);
            assert(reposts_model(prefix1, sid) == process_url(pm, table[t as int].1, sid));
            assert forall|i: int| 0 <= i < prefix.len() implies (#[trigger] prefix[i]).1.len()
                >= 1 by {
                assert(prefix[i] == table[i]);
            }
            lemma_reposts_model_bounds(prefix, sid);
            lemma_total_occs_prefix(table, t as int);
            lemma_total_occs_prefix(table, t as int + 1);
            assert(total_occurrences(prefix1) == total_occurrences(prefix)
                + table[t as int].1.len());
            assert(table[t as int].1 == urls.urls@[t as int].1@);
        }
        let sorted = sort_occurrences(&urls.urls[t].1);
        proof {
            lemma_sort_time_len(table[t as int].1);
        }
        if sorted.len() <= 1 {
            proof {
                assert(process_url(pm, table[t as int].1, sid) == pm);
            }
        } else {
            let ghost socc = sort_by_time(table[t as int].1);
            let focal_in = occurrences_have_community(&sorted, sid);
            if focal_in {
                proof {
                    assert(pm.n_posts <= prefix.len());
                    assert(prefix.len() == t as int);
                    assert((t as int) < table.len());
                    assert(table.len() <= total_occurrences(table));
                }
                n_posts = n_posts + 1;
                if sorted[0].0 != sid {
                    n_reposts_from_self = n_reposts_from_self + 1;
                }
            }
            let ghost stats1 = RepostModel {
                n_posts: pm.n_posts + if focal_appears(socc, sid) {
                    1int
                } else {
                    0int
                },
                n_reposts_from_self: pm.n_reposts_from_self + if focal_appears(socc, sid)
                    && socc[0].0 != sid {
                    1int
                } else {
                    0int
                },
                ..pm
            };
            let ghost st0 = WalkState {
                stats: stats1,
                has_posted: socc[0].0 == sid,
                seen: Seq::empty(),
            };
            proof {
                assert(repost_counts_ok(stats1));
                assert(n_posts as int == stats1.n_posts);
                assert(n_reposts_from_self as int == stats1.n_reposts_from_self);
            }
            let mut has_posted = sorted[0].0 == sid;
            let mut already_seen: Vec<usize> = Vec::new();
            let slen = sorted.len();
            for i in 1..slen
                invariant
                    n_posts as int == walk_upto(st0, socc, sid, i as int).stats.n_posts,
                    n_reposts_from_others as int == walk_upto(
                        st0,
                        socc,
                        sid,
                        i as int,
                    ).stats.n_reposts_from_others,
                    n_reposted_by_others as int == walk_upto(
                        st0,
                        socc,
                        sid,
                        i as int,
                    ).stats.n_reposted_by_others,
                    n_reposts_from_self as int == walk_upto(
                        st0,
                        socc,
                        sid,
                        i as int,
                    ).stats.n_reposts_from_self,
                    counts_view(reposts_from_others@) == walk_upto(
                        st0,
                        socc,
                        sid,
                        i as int,
                    ).stats.reposts_from_others,
                    counts_view(reposts_by_others@) == walk_upto(
                        st0,
                        socc,
                        sid,
                        i as int,
                    ).stats.reposts_by_others,
                    has_posted == walk_upto(st0, socc, sid, i as int).has_posted,
                    already_seen@ == walk_upto(st0, socc, sid, i as int).seen,
            {
                let ghost w = walk_upto(st0, socc, sid, i as int);
                proof {
                    lemma_walk_upto_bounds(st0, socc, sid, i as int);
                    assert(w.stats.n_reposted_by_others <= stats1.n_reposted_by_others + (
                    i as int - 1));
                    assert(stats1.n_reposted_by_others <= total_occurrences(prefix));
                    assert((i as int - 1) < socc.len());
                    assert(w.stats.n_reposted_by_others < total_occurrences(prefix1));
                    assert(w.stats.n_reposts_from_others < total_occurrences(prefix1));
                    assert(walk_upto(st0, socc, sid, i as int + 1) == walk_step(
                        w,
                        socc,
                        sid,
                        i as int,
                    ));
                }
                let c = sorted[i].0;
                let skip = c != sid && contains_usize(&already_seen, c);
                if !skip {
                    if c != sid {
                        already_seen.push(c);
                    }
                    if sorted[0].0 == sid && c != sid {
                        n_reposted_by_others = n_reposted_by_others + 1;
                        proof {
                            assert forall|j: int| 0 <= j < reposts_by_others@.len() implies (
                            #[trigger] reposts_by_others@[j]).1 < u32::MAX by {
                                assert(counts_view(reposts_by_others@)[j]
                                    == (reposts_by_others@[j].0, reposts_by_others@[j].1 as int));
                                assert(counts_view(reposts_by_others@)[j].1
                                    <= w.stats.n_reposted_by_others);
                            }
                        }
                        bump_count(&mut reposts_by_others, c);
                    }
                    if !has_posted && sorted[0].0 != sid && c == sid {
                        n_reposts_from_others = n_reposts_from_others + 1;
                        proof {
                            assert forall|j: int| 0 <= j < reposts_from_others@.len() implies (
                            #[trigger] reposts_from_others@[j]).1 < u32::MAX by {
                                assert(counts_view(reposts_from_others@)[j]
                                    == (reposts_from_others@[j].0, reposts_from_others@[j].1 as int));
                                assert(counts_view(reposts_from_others@)[j].1
                                    <= w.stats.n_reposts_from_others);
                            }
                        }
                        bump_count(&mut reposts_from_others, sorted[0].0);
                    }
                    if c == sid {
                        has_posted = true;
                    }
                }
            }
            proof {
                assert(process_url(pm, table[t as int].1, sid) == walk_upto(
                    st0,
                    socc,
                    sid,
                    socc.len() as int,
                ).stats);
            }
        }
    }
    proof {
        assert(table.take(n as int) =~= table);
    }
    Ok(
        RepostStats {
            n_posts,
            n_reposts_from_others,
            n_reposted_by_others,
            n_reposts_from_self,
            reposts_from_others,
            reposts_by_others,
        },
    )
}

/// Descending stable insertion by count.
pub open spec fn insert_desc_by_count(x: (usize, u32), s: Seq<(usize, u32)>) -> Seq<(usize, u32)>
    decreases s.len(),
{
    if s.len() == 0 {
        seq![x]
    } else if x.1 > s[0].1 {
        seq![x] + s
    } else {
        seq![s[0]] + insert_desc_by_count(x, s.drop_first())
    }
}

/// The stable descending sort of a counter table by count: ties keep their
/// first-credit order.
pub open spec fn sort_desc_by_count(s: Seq<(usize, u32)>) -> Seq<(usize, u32)>
    decreases s.len(),
{
    if s.len() == 0 {
        Seq::empty()
    } else {
        insert_desc_by_count(s.last(), sort_desc_by_count(s.drop_last()))
    }
}

proof fn lemma_insert_count_at(x: (usize, u32), s: Seq<(usize, u32)>, j: int)
    requires
        0 <= j <= s.len(),
        forall|jj: int| 0 <= jj < j ==> !(x.1 > (#[trigger] s[jj]).1),
        j < s.len() ==> x.1 > s[j].1,
    ensures
        insert_desc_by_count(x, s) == s.insert(j, x),
    decreases s.len(),
{
    if s.len() == 0 {
        assert(insert_desc_by_count(x, s) =~= s.insert(0, x));
    } else if x.1 > s[0].1 {
        assert(j == 0) by {
            if j > 0 {
                assert(!(x.1 > s[0].1));
            }
        }
        assert(seq![x] + s =~= s.insert(0, x));
    } else {
        assert(j >= 1) by {
            if j == 0 {
                assert(x.1 > s[0].1);
            }
        }
        let s2 = s.drop_first();
        assert forall|jj: int| 0 <= jj < j - 1 implies !(x.1 > (#[trigger] s2[jj]).1) by {
            assert(s2[jj] == s[jj + 1]);
        }
        assert(j - 1 < s2.len() ==> x.1 > s2[j - 1].1);
        lemma_insert_count_at(x, s2, j - 1);
        assert(seq![s[0]] + s2.insert(j - 1, x) =~= s.insert(j, x));
    }
}

proof fn lemma_insert_count_len(x: (usize, u32), s: Seq<(usize, u32)>)
    ensures
        insert_desc_by_count(x, s).len() == s.len() + 1,
    decreases s.len(),
{
    if s.len() > 0 && !(x.1 > s[0].1) {
        lemma_insert_count_len(x, s.drop_first());
    }
}

/// Sort a counter table descending by count (stable) and keep the first
/// `limit` entries.
fn sort_counts_desc(v: &Vec<(usize, u32)>, limit: usize) -> (r: Vec<(usize, u32)>)
    ensures
        r@ == sort_desc_by_count(v@).take(
            if limit as int <= v@.len() {
                limit as int
            } else {
                v@.len() as int
            },
        ),
{
    let mut sorted: Vec<(usize, u32)> = Vec::new();
    let len = v.len();
    assert(v@.take(0) =~= Seq::<(usize, u32)>::empty());
    for i in 0..len
        invariant
            len == v@.len(),
            sorted@ == sort_desc_by_count(v@.take(i as int)),
            sorted@.len() == i,
    {
        let x = v[i];
        let mut j: usize = 0;
        while j < sorted.len() && !(x.1 > sorted[j].1)
            invariant
                0 <= j <= sorted@.len(),
                forall|jj: int| 0 <= jj < j ==> !(x.1 > (#[trigger] sorted@[jj]).1),
            decreases sorted@.len() - j,
        {
            j += 1;
        }
        let ghost old_sorted = sorted@;
        sorted.insert(j, x);
        proof {
            lemma_insert_count_at(x, old_sorted, j as int);
            lemma_insert_count_len(x, old_sorted);
            assert(v@.take(i as int + 1).drop_last() =~= v@.take(i as int));
            assert(v@.take(i as int + 1).last() == v@[i as int]);
        }
    }
    proof {
        assert(v@.take(len as int) =~= v@);
    }
    if limit < len {
        sorted.truncate(limit);
    } else {
        proof {
            assert(sorted@.take(len as int) =~= sorted@);
        }
    }
    sorted
}

/// Repost statistics with both counter tables sorted and truncated.
#[derive(Debug)]
pub struct RepostStatsSorted {
    pub n_posts: u32,
    pub n_reposts_from_others: u32,
    pub n_reposted_by_others: u32,
    pub n_reposts_from_self: u32,
    pub reposts_from_others: Vec<(usize, u32)>,
    pub reposts_by_others: Vec<(usize, u32)>,
}

impl RepostStats {
    /// Keep only the `n_samples` highest per-community counts, descending;
    /// ties keep their first-credit order.  The four totals are unchanged.
    pub fn sort(self, n_samples: usize) -> (r: RepostStatsSorted)
        ensures
            r.n_posts == self.n_posts,
            r.n_reposts_from_others == self.n_reposts_from_others,
            r.n_reposted_by_others == self.n_reposted_by_others,
            r.n_reposts_from_self == self.n_reposts_from_self,
            r.reposts_from_others@ == sort_desc_by_count(self.reposts_from_others@).take(
                if n_samples as int <= self.reposts_from_others@.len() {
                    n_samples as int
                } else {
                    self.reposts_from_others@.len() as int
                },
            ),
            r.reposts_by_others@ == sort_desc_by_count(self.reposts_by_others@).take(
                if n_samples as int <= self.reposts_by_others@.len() {
                    n_samples as int
                } else {
                    self.reposts_by_others@.len() as int
                },
            ),
    {
        let reposts_from_others = sort_counts_desc(&self.reposts_from_others, n_samples);
        let reposts_by_others = sort_counts_desc(&self.reposts_by_others, n_samples);
        RepostStatsSorted {
            n_posts: self.n_posts,
            n_reposts_from_others: self.n_reposts_from_others,
            n_reposted_by_others: self.n_reposted_by_others,
            n_reposts_from_self: self.n_reposts_from_self,
            reposts_from_others,
            reposts_by_others,
        }
    }
}

/// Sorted repost statistics with community indices resolved to names.
#[derive(Debug)]
pub struct RepostStatsSortedDisplay {
    pub n_posts: u32,
    pub n_reposts_from_others: u32,
    pub n_reposted_by_others: u32,
    pub n_reposts_from_self: u32,
    pub reposts_from_others: Vec<(String, u32)>,
    pub reposts_by_others: Vec<(String, u32)>,
}

/// Resolve a sorted counter table's indices to community names.
fn resolve_names(v: &Vec<(usize, u32)>, subreddits: &Vec<String>) -> (r: Vec<(String, u32)>)
    requires
        forall|i: int| 0 <= i < v@.len() ==> (#[trigger] v@[i]).0 < subreddits@.len(),
    ensures
        r@.len() == v@.len(),
        forall|i: int| 0 <= i < v@.len() ==> (#[trigger] r@[i]).0@ == subreddits@[v@[i].0 as int]@
            && r@[i].1 == v@[i].1,
{
    let mut r: Vec<(String, u32)> = Vec::new();
    let n = v.len();
    for i in 0..n
        invariant
            n == v@.len(),
            forall|j: int| 0 <= j < v@.len() ==> (#[trigger] v@[j]).0 < subreddits@.len(),
            r@.len() == i,
            forall|j: int| 0 <= j < i ==> (#[trigger] r@[j]).0@ == subreddits@[v@[j].0 as int]@
                && r@[j].1 == v@[j].1,
    {
        let e = v[i];
        r.push((subreddits[e.0].clone(), e.1));
    }
    r
}

impl RepostStatsSorted {
    /// Resolve community indices to names for presentation.  Every index
    /// must be in range of the given community list.
    pub fn display(self, subreddits: Vec<String>) -> (r: RepostStatsSortedDisplay)
        requires
            forall|i: int| 0 <= i < self.reposts_from_others@.len() ==> (
            #[trigger] self.reposts_from_others@[i]).0 < subreddits@.len(),
            forall|i: int| 0 <= i < self.reposts_by_others@.len() ==> (
            #[trigger] self.reposts_by_others@[i]).0 < subreddits@.len(),
        ensures
            r.n_posts == self.n_posts,
            r.n_reposts_from_others == self.n_reposts_from_others,
            r.n_reposted_by_others == self.n_reposted_by_others,
            r.n_reposts_from_self == self.n_reposts_from_self,
            r.reposts_from_others@.len() == self.reposts_from_others@.len(),
            forall|i: int| 0 <= i < self.reposts_from_others@.len() ==> (
            #[trigger] r.reposts_from_others@[i]).0@ == subreddits@[self.reposts_from_others@[i].0 as int]@
                && r.reposts_from_others@[i].1 == self.reposts_from_others@[i].1,
            r.reposts_by_others@.len() == self.reposts_by_others@.len(),
            forall|i: int| 0 <= i < self.reposts_by_others@.len() ==> (
            #[trigger] r.reposts_by_others@[i]).0@ == subreddits@[self.reposts_by_others@[i].0 as int]@
                && r.reposts_by_others@[i].1 == self.reposts_by_others@[i].1,
    {
        let reposts_from_others = resolve_names(&self.reposts_from_others, &subreddits);
        let reposts_by_others = resolve_names(&self.reposts_by_others, &subreddits);
        RepostStatsSortedDisplay {
            n_posts: self.n_posts,
            n_reposts_from_others: self.n_reposts_from_others,
            n_reposted_by_others: self.n_reposted_by_others,
            n_reposts_from_self: self.n_reposts_from_self,
            reposts_from_others,
            reposts_by_others,
        }
    }
}

// ---------------------------------------------------------------------
// Shared-link matrix
// ---------------------------------------------------------------------

/// Number of urls shared between pairs of communities.
#[derive(Debug)]
pub struct UrlsBetweenSubreddits {
    pub subreddits: Vec<String>,
    pub n_shared_urls: Vec<(usize, Vec<(usize, u32)>)>,
}

/// The model of the executable sparse matrix.
pub open spec fn matrix_view(v: Seq<(usize, Vec<(usize, u32)>)>) -> Seq<(usize, Seq<(usize, int)>)> {
    v.map_values(|e: (usize, Vec<(usize, u32)>)| (e.0, counts_view(e.1@)))
}

/// Distinct keys at both levels.
pub open spec fn matrix_distinct(m: Seq<(usize, Seq<(usize, int)>)>) -> bool {
    distinct_keys(m) && forall|i: int| 0 <= i < m.len() ==> distinct_keys((#[trigger] m[i]).1)
}

/// The cell (a, b), zero when absent.
pub open spec fn matrix_lookup(m: Seq<(usize, Seq<(usize, int)>)>, a: usize, b: usize) -> int {
    if has_key(m, a) && has_key(value_of(m, a), b) {
        value_of(value_of(m, a), b)
    } else {
        0
    }
}

/// Add one to cell (a, b).
pub open spec fn matrix_bump(m: Seq<(usize, Seq<(usize, int)>)>, a: usize, b: usize) -> Seq<
    (usize, Seq<(usize, int)>),
> {
    if has_key(m, a) {
        m.update(key_index(m, a), (a, bump(value_of(m, a), b)))
    } else {
        m.push((a, seq![(b, 1int)]))
    }
}

/// The distinct communities of an occurrence list, in first-appearance
/// order.
pub open spec fn distinct_communities(occs: Seq<(usize, i32)>) -> Seq<usize>
    decreases occs.len(),
{
    if occs.len() == 0 {
        Seq::empty()
    } else {
        let prev = distinct_communities(occs.drop_last());
        if prev.contains(occs.last().0) {
            prev
        } else {
            prev.push(occs.last().0)
        }
    }
}

/// Cells (a, d[0]) .. (a, d[j-1]) bumped, the diagonal skipped.
pub open spec fn add_pairs_for(
    m: Seq<(usize, Seq<(usize, int)>)>,
    d: Seq<usize>,
    a: usize,
    j: int,
) -> Seq<(usize, Seq<(usize, int)>)>
    decreases j,
{
    if j <= 0 {
        m
    } else {
        let prev = add_pairs_for(m, d, a, j - 1);
        if d[j - 1] != a {
            matrix_bump(prev, a, d[j - 1])
        } else {
            prev
        }
    }
}

/// Rows for d[0] .. d[i-1], each paired against every other element of `d`.
pub open spec fn add_all_pairs(m: Seq<(usize, Seq<(usize, int)>)>, d: Seq<usize>, i: int) -> Seq<
    (usize, Seq<(usize, int)>),
>
    decreases i,
{
    if i <= 0 {
        m
    } else {
        add_pairs_for(add_all_pairs(m, d, i - 1), d, d[i - 1], d.len() as int)
    }
}

/// The shared-link matrix of a url table: every url with at least two
/// occurrences bumps the cell of every ordered pair of distinct communities
/// that posted it.
pub open spec fn shared_links_fold(table: Seq<(Seq<char>, Seq<(usize, i32)>)>) -> Seq<
    (usize, Seq<(usize, int)>),
>
    decreases table.len(),
{
    if table.len() == 0 {
        Seq::empty()
    } else {
        let prev = shared_links_fold(table.drop_last());
        let occs = table.last().1;
        if occs.len() <= 1 {
            prev
        } else {
            add_all_pairs(prev, distinct_communities(occs), distinct_communities(occs).len() as int)
        }
    }
}

proof fn lemma_distinct_communities_distinct(occs: Seq<(usize, i32)>)
    ensures
        distinct_seq(distinct_communities(occs)),
    decreases occs.len(),
{
    if occs.len() > 0 {
        let prev = distinct_communities(occs.drop_last());
        lemma_distinct_communities_distinct(occs.drop_last());
        if !prev.contains(occs.last().0) {
            let cur = prev.push(occs.last().0);
            assert forall|i: int, j: int| 0 <= i < j < cur.len() implies (#[trigger] cur[i]) != (
            #[trigger] cur[j]) by {
                if j < prev.len() {
                    assert(cur[i] == prev[i]);
                    assert(cur[j] == prev[j]);
                } else {
                    assert(cur[j] == occs.last().0);
                    assert(cur[i] == prev[i]);
                    if prev[i] == occs.last().0 {
                        assert(prev.contains(occs.last().0));
                    }
                }
            }
        }
    }
}

/// Bumping one cell changes exactly that lookup, by one.
proof fn lemma_matrix_bump_lookup(m: Seq<(usize, Seq<(usize, int)>)>, a: usize, b: usize)
    requires
        matrix_distinct(m),
    ensures
        matrix_distinct(matrix_bump(m, a, b)),
        forall|x: usize, y: usize| #[trigger] matrix_lookup(matrix_bump(m, a, b), x, y)
            == matrix_lookup(m, x, y) + if x == a && y == b {
            1int
        } else {
            0int
        },
{
    lemma_key_index(m, a);
    let m1 = matrix_bump(m, a, b);
    if has_key(m, a) {
        let ki = key_index(m, a);
        let row = value_of(m, a);
        lemma_key_index(row, b);
        crate::assoc::lemma_distinct_update(m, ki, bump(row, b));
        assert(m[ki].1 == row);
        if has_key(row, b) {
            crate::assoc::lemma_distinct_update(row, key_index(row, b), row[key_index(row, b)].1 + 1);
        } else {
            crate::assoc::lemma_distinct_push(row, (b, 1int));
        }
        assert forall|i: int| 0 <= i < m1.len() implies distinct_keys((#[trigger] m1[i]).1) by {
            if i != ki {
                assert(m1[i] == m[i]);
            }
        }
        assert forall|x: usize, y: usize| #[trigger] matrix_lookup(m1, x, y) == matrix_lookup(
            m,
            x,
            y,
        ) + if x == a && y == b {
            1int
        } else {
            0int
        } by {
            lemma_key_index_update(m, ki, bump(row, b), x);
            lemma_key_index(m, x);
            if x == a {
                assert(key_index(m1, x) == ki);
                assert(m1[ki] == (a, bump(row, b)));
                assert(value_of(m1, x) == bump(row, b));
                lemma_key_index(row, y);
                if has_key(row, b) {
                    let kb = key_index(row, b);
                    lemma_key_index_update(row, kb, row[kb].1 + 1, y);
                    lemma_key_index(bump(row, b), y);
                    if y == b {
                        assert(value_of(bump(row, b), y) == row[kb].1 + 1);
                        assert(value_of(row, b) == row[kb].1);
                    } else {
                        if has_key(row, y) {
                            assert(key_index(row, y) != kb);
                            assert(bump(row, b)[key_index(row, y)] == row[key_index(row, y)]);
                        }
                    }
                } else {
                    lemma_key_index_push(row, (b, 1int), y);
                    if y == b {
                        assert(key_index(bump(row, b), y) == row.len());
                        assert(bump(row, b)[row.len() as int] == (b, 1int));
                    } else {
                        if has_key(row, y) {
                            assert(bump(row, b)[key_index(row, y)] == row[key_index(row, y)]);
                        }
                    }
                }
            } else {
                if has_key(m, x) {
                    assert(key_index(m, x) != ki);
                    assert(m1[key_index(m, x)] == m[key_index(m, x)]);
                    assert(value_of(m1, x) == value_of(m, x));
                }
            }
        }
    } else {
        crate::assoc::lemma_distinct_push(m, (a, seq![(b, 1int)]));
        assert forall|i: int| 0 <= i < m1.len() implies distinct_keys((#[trigger] m1[i]).1) by {
            if i < m.len() {
                assert(m1[i] == m[i]);
            } else {
                assert(m1[i] == (a, seq![(b, 1int)]));
                let row = seq![(b, 1int)];
                assert(distinct_keys(row));
            }
        }
        assert forall|x: usize, y: usize| #[trigger] matrix_lookup(m1, x, y) == matrix_lookup(
            m,
            x,
            y,
        ) + if x == a && y == b {
            1int
        } else {
            0int
        } by {
            lemma_key_index_push(m, (a, seq![(b, 1int)]), x);
            lemma_key_index(m, x);
            if x == a {
                assert(!has_key(m, x));
                assert(key_index(m1, x) == m.len());
                assert(m1[m.len() as int] == (a, seq![(b, 1int)]));
                assert(value_of(m1, x) == seq![(b, 1int)]);
                let row = seq![(b, 1int)];
                lemma_key_index(row, y);
                if y == b {
                    assert(row[0] == (b, 1int));
                    crate::assoc::lemma_key_present(row, 0);
                    assert(key_index(row, y) == 0);
                    assert(value_of(row, y) == 1);
                } else {
                    if has_key(row, y) {
                        assert(row[key_index(row, y)].0 == y);
                        assert(row[key_index(row, y)] == (b, 1int));
                    }
                }
            } else {
                if has_key(m, x) {
                    assert(m1[key_index(m, x)] == m[key_index(m, x)]);
                    assert(value_of(m1, x) == value_of(m, x));
                }
            }
        }
    }
}

proof fn lemma_add_pairs_for_lookup(
    m: Seq<(usize, Seq<(usize, int)>)>,
    d: Seq<usize>,
    a: usize,
    j: int,
)
    requires
        matrix_distinct(m),
        distinct_seq(d),
        0 <= j <= d.len(),
    ensures
        matrix_distinct(add_pairs_for(m, d, a, j)),
        forall|x: usize, y: usize| #[trigger] matrix_lookup(add_pairs_for(m, d, a, j), x, y)
            == matrix_lookup(m, x, y) + if x == a && y != a && d.take(j).contains(y) {
            1int
        } else {
            0int
        },
    decreases j,
{
    if j <= 0 {
        assert forall|x: usize, y: usize| #[trigger] matrix_lookup(add_pairs_for(m, d, a, j), x, y)
            == matrix_lookup(m, x, y) + if x == a && y != a && d.take(j).contains(y) {
            1int
        } else {
            0int
        } by {
            assert(!d.take(j).contains(y)) by {
                if d.take(j).contains(y) {
                    let w = choose|w: int| 0 <= w < d.take(j).len() && #[trigger] d.take(j)[w] == y;
                }
            }
        }
    } else {
        lemma_add_pairs_for_lookup(m, d, a, j - 1);
        let prev = add_pairs_for(m, d, a, j - 1);
        if d[j - 1] != a {
            lemma_matrix_bump_lookup(prev, a, d[j - 1]);
        }
        assert forall|x: usize, y: usize| #[trigger] matrix_lookup(add_pairs_for(m, d, a, j), x, y)
            == matrix_lookup(m, x, y) + if x == a && y != a && d.take(j).contains(y) {
            1int
        } else {
            0int
        } by {
            assert(d.take(j) =~= d.take(j - 1).push(d[j - 1]));
            assert(d.take(j).contains(y) <==> (d.take(j - 1).contains(y) || y == d[j - 1])) by {
                if d.take(j - 1).contains(y) {
                    let w = choose|w: int| 0 <= w < d.take(j - 1).len() && #[trigger] d.take(j - 1)[w] == y;
                    assert(d.take(j)[w] == y);
                }
                if y == d[j - 1] {
                    assert(d.take(j)[j - 1] == y);
                }
                if d.take(j).contains(y) {
                    let w = choose|w: int| 0 <= w < d.take(j).len() && #[trigger] d.take(j)[w] == y;
                    if w < j - 1 {
                        assert(d.take(j - 1)[w] == y);
                    }
                }
            }
            if d.take(j - 1).contains(y) && y == d[j - 1] {
                let w = choose|w: int| 0 <= w < d.take(j - 1).len() && #[trigger] d.take(j - 1)[w] == y;
                assert(d[w] == y);
                assert(d[w] != d[j - 1]);
            }
        }
    }
}

proof fn lemma_add_all_pairs_lookup(m: Seq<(usize, Seq<(usize, int)>)>, d: Seq<usize>, i: int)
    requires
        matrix_distinct(m),
        distinct_seq(d),
        0 <= i <= d.len(),
    ensures
        matrix_distinct(add_all_pairs(m, d, i)),
        forall|x: usize, y: usize| #[trigger] matrix_lookup(add_all_pairs(m, d, i), x, y)
            == matrix_lookup(m, x, y) + if x != y && d.take(i).contains(x) && d.contains(y) {
            1int
        } else {
            0int
        },
    decreases i,
{
    if i <= 0 {
        assert forall|x: usize, y: usize| #[trigger] matrix_lookup(add_all_pairs(m, d, i), x, y)
            == matrix_lookup(m, x, y) + if x != y && d.take(i).contains(x) && d.contains(y) {
            1int
        } else {
            0int
        } by {
            assert(!d.take(i).contains(x)) by {
                if d.take(i).contains(x) {
                    let w = choose|w: int| 0 <= w < d.take(i).len() && #[trigger] d.take(i)[w] == x;
                }
            }
        }
    } else {
        lemma_add_all_pairs_lookup(m, d, i - 1);
        let prev = add_all_pairs(m, d, i - 1);
        assert(d.take(d.len() as int) =~= d);
        lemma_add_pairs_for_lookup(prev, d, d[i - 1], d.len() as int);
        assert forall|x: usize, y: usize| #[trigger] matrix_lookup(add_all_pairs(m, d, i), x, y)
            == matrix_lookup(m, x, y) + if x != y && d.take(i).contains(x) && d.contains(y) {
            1int
        } else {
            0int
        } by {
            assert(matrix_lookup(add_all_pairs(m, d, i), x, y) == matrix_lookup(prev, x, y) + if x
                == d[i - 1] && y != d[i - 1] && d.contains(y) {
                1int
            } else {
                0int
            });
            assert(d.take(i).contains(x) <==> (d.take(i - 1).contains(x) || x == d[i - 1])) by {
                assert(d.take(i) =~= d.take(i - 1).push(d[i - 1]));
                if d.take(i - 1).contains(x) {
                    let w = choose|w: int| 0 <= w < d.take(i - 1).len() && #[trigger] d.take(i - 1)[w] == x;
                    assert(d.take(i)[w] == x);
                }
                if x == d[i - 1] {
                    assert(d.take(i)[i - 1] == x);
                }
                if d.take(i).contains(x) {
                    let w = choose|w: int| 0 <= w < d.take(i).len() && #[trigger] d.take(i)[w] == x;
                    if w < i - 1 {
                        assert(d.take(i - 1)[w] == x);
                    }
                }
            }
            if d.take(i - 1).contains(x) && x == d[i - 1] {
                let w = choose|w: int| 0 <= w < d.take(i - 1).len() && #[trigger] d.take(i - 1)[w] == x;
                assert(d[w] == x);
                assert(d[w] != d[i - 1]);
            }
        }
    }
}

/// The communities of an occurrence list and its first-appearance dedup
/// agree on membership.
proof fn lemma_distinct_communities_contains(occs: Seq<(usize, i32)>, c: usize)
    ensures
        distinct_communities(occs).contains(c) <==> exists|j: int|
            0 <= j < occs.len() && (#[trigger] occs[j]).0 == c,
    decreases occs.len(),
{
    if occs.len() > 0 {
        let prev = distinct_communities(occs.drop_last());
        let cur = distinct_communities(occs);
        lemma_distinct_communities_contains(occs.drop_last(), c);
        if prev.contains(c) {
            let w = choose|w: int| 0 <= w < prev.len() && prev[w] == c;
            assert(cur[w] == c);
            let j = choose|j: int|
                0 <= j < occs.drop_last().len() && (#[trigger] occs.drop_last()[j]).0 == c;
            assert(occs[j].0 == c);
        } else if occs.last().0 == c {
            assert(cur[cur.len() - 1] == c);
            assert(occs[occs.len() - 1].0 == c);
        } else {
            if cur.contains(c) {
                let w = choose|w: int| 0 <= w < cur.len() && cur[w] == c;
                assert(prev[w] == c);
            }
            if exists|j: int| 0 <= j < occs.len() && (#[trigger] occs[j]).0 == c {
                let j = choose|j: int| 0 <= j < occs.len() && (#[trigger] occs[j]).0 == c;
                assert(j < occs.len() - 1);
                assert(occs.drop_last()[j].0 == c);
            }
        }
    }
}

/// Symmetry and zero diagonal of the shared-link matrix: cell (a, b) always
/// equals cell (b, a), a community never shares with itself, and no cell
/// exceeds the number of urls.
pub proof fn lemma_shared_links_symmetric(table: Seq<(Seq<char>, Seq<(usize, i32)>)>)
    ensures
        matrix_distinct(shared_links_fold(table)),
        forall|a: usize, b: usize| #[trigger] matrix_lookup(shared_links_fold(table), a, b)
            == matrix_lookup(shared_links_fold(table), b, a),
        forall|a: usize| #[trigger] matrix_lookup(shared_links_fold(table), a, a) == 0,
        forall|a: usize, b: usize| 0 <= #[trigger] matrix_lookup(shared_links_fold(table), a, b)
            <= table.len(),
    decreases table.len(),
{
    if table.len() == 0 {
        assert forall|a: usize, b: usize| #[trigger] matrix_lookup(
            shared_links_fold(table),
            a,
            b,
        ) == 0 by {
            lemma_key_index(shared_links_fold(table), a);
        }
    } else {
        lemma_shared_links_symmetric(table.drop_last());
        let prev = shared_links_fold(table.drop_last());
        let occs = table.last().1;
        if occs.len() <= 1 {
        } else {
            let d = distinct_communities(occs);
            lemma_distinct_communities_distinct(occs);
            assert(d.take(d.len() as int) =~= d);
            lemma_add_all_pairs_lookup(prev, d, d.len() as int);
        }
    }
}

/// With distinct keys, every stored cell is its own lookup.
proof fn lemma_matrix_cells_are_lookups(m: Seq<(usize, Seq<(usize, int)>)>)
    requires
        matrix_distinct(m),
    ensures
        forall|i: int, j: int|
            0 <= i < m.len() && 0 <= j < m[i].1.len() ==> (#[trigger] m[i].1[j]).1
                == matrix_lookup(m, m[i].0, m[i].1[j].0),
{
    assert forall|i: int, j: int| 0 <= i < m.len() && 0 <= j < m[i].1.len() implies (
    #[trigger] m[i].1[j]).1 == matrix_lookup(m, m[i].0, m[i].1[j].0) by {
        lemma_key_index_distinct(m, i);
        lemma_key_present(m, i);
        assert(value_of(m, m[i].0) == m[i].1);
        lemma_key_index_distinct(m[i].1, j);
        lemma_key_present(m[i].1, j);
        assert(value_of(m[i].1, m[i].1[j].0) == m[i].1[j].1);
    }
}

/// Add one to cell (a, b) of the executable matrix.
#[verifier::loop_isolation(false)]
fn bump_matrix_cell(v: &mut Vec<(usize, Vec<(usize, u32)>)>, a: usize, b: usize)
    requires
        matrix_distinct(matrix_view(old(v)@)),
        forall|i: int, j: int|
            0 <= i < matrix_view(old(v)@).len() && 0 <= j < matrix_view(old(v)@)[i].1.len() ==> (
            #[trigger] matrix_view(old(v)@)[i].1[j]).1 < u32::MAX as int,
    ensures
        matrix_view(final(v)@) == matrix_bump(matrix_view(old(v)@), a, b),
{
    let ghost m = matrix_view(v@);
    let n = v.len();
    for i in 0..n
        invariant
            n == v@.len(),
            *v == *old(v),
            m == matrix_view(v@),
            forall|jj: int| 0 <= jj < i ==> (#[trigger] m[jj]).0 != a,
    {
        assert(m[i as int].0 == v@[i as int].0);
        if v[i].0 == a {
            proof {
                lemma_key_present(m, i as int);
                lemma_key_index(m, a);
                if key_index(m, a) > i as int {
                    assert(m[i as int].0 != a);
                }
                assert(key_index(m, a) == i as int);
                assert(counts_view(v@[i as int].1@) == m[i as int].1);
                assert(distinct_keys(m[i as int].1));
                assert forall|j: int| 0 <= j < v@[i as int].1@.len() implies (
                #[trigger] v@[i as int].1@[j]).1 < u32::MAX by {
                    assert(m[i as int].1[j] == (v@[i as int].1@[j].0, v@[i as int].1@[j].1 as int));
                }
            }
            bump_count(&mut v[i].1, b);
            proof {
                assert(matrix_view(v@) =~= m.update(i as int, (a, bump(m[i as int].1, b))));
                assert(value_of(m, a) == m[i as int].1);
            }
            return ;
        }
    }
    proof {
        lemma_key_index(m, a);
        if has_key(m, a) {
            assert(m[key_index(m, a)].0 != a);
        }
    }
    let mut row: Vec<(usize, u32)> = Vec::new();
    row.push((b, 1));
    v.push((a, row));
    proof {
        assert(counts_view(v@[m.len() as int].1@) =~= seq![(b, 1int)]);
        assert(matrix_view(v@) =~= m.push((a, seq![(b, 1int)])));
    }
}

/// The number of urls shared between communities: for every url with at
/// least two occurrences, the cell of every ordered pair of distinct
/// communities that posted it grows by one.  The result is symmetric with a
/// zero diagonal (`lemma_shared_links_symmetric`).
#[verifier::loop_isolation(false)]
pub fn get_shared_links_between_subreddits(urls: SubredditsFromUrls) -> (r: UrlsBetweenSubreddits)
    requires
        urls.wf(),
        urls.occs().len() < u32::MAX as int,
    ensures
        r.subreddits@ == urls.subreddits@,
        matrix_view(r.n_shared_urls@) == shared_links_fold(urls.occs()),
{
    let ghost table = urls.occs();
    let mut matrix: Vec<(usize, Vec<(usize, u32)>)> = Vec::new();
    let n = urls.urls.len();
    proof {
        assert(matrix_view(matrix@) =~= shared_links_fold(table.take(0)));
    }
    for t in 0..n
        invariant
            matrix_view(matrix@) == shared_links_fold(table.take(t as int)),
    {
        let ghost prefix = table.take(t as int);
        let ghost prefix1 = table.take(t as int + 1);
        let ghost m0 = shared_links_fold(prefix);
        proof {
            assert(prefix1.drop_last() =~= prefix);
            assert(prefix1.last() == table[t as int]);
            assert(table[t as int].1 == urls.urls@[t as int].1@);
            lemma_shared_links_symmetric(prefix);
        }
        let occs_n = urls.urls[t].1.len();
        if occs_n <= 1 {
            proof {
                assert(shared_links_fold(prefix1) == m0);
            }
        } else {
            let mut d: Vec<usize> = Vec::new();
            proof {
                assert(d@ =~= distinct_communities(table[t as int].1.take(0)));
            }
            for j in 0..occs_n
                invariant
                    d@ == distinct_communities(table[t as int].1.take(j as int)),
            {
                let c = urls.urls[t].1[j].0;
                proof {
                    assert(table[t as int].1.take(j as int + 1).drop_last() =~= table[
                        t as int
                    ].1.take(j as int));
                    assert(table[t as int].1.take(j as int + 1).last() == table[t as int].1[
                        j as int
                    ]);
                }
                if !contains_usize(&d, c) {
                    d.push(c);
                }
            }
            proof {
                assert(table[t as int].1.take(occs_n as int) =~= table[t as int].1);
                lemma_distinct_communities_distinct(table[t as int].1);
            }
            let dl = d.len();
            proof {
                assert(add_all_pairs(m0, d@, 0) == m0);
            }
            for i in 0..dl
                invariant
                    dl == d@.len(),
                    matrix_view(matrix@) == add_all_pairs(m0, d@, i as int),
            {
                let ghost mi = add_all_pairs(m0, d@, i as int);
                proof {
                    lemma_add_all_pairs_lookup(m0, d@, i as int);
                    assert(add_pairs_for(mi, d@, d@[i as int], 0) == mi);
                }
                for j in 0..dl
                    invariant
                        matrix_view(matrix@) == add_pairs_for(mi, d@, d@[i as int], j as int),
                {
                    proof {
                        lemma_add_pairs_for_lookup(mi, d@, d[i as int], j as int);
                    }
                    if d[i] != d[j] {
                        let ghost mj = add_pairs_for(mi, d@, d@[i as int], j as int);
                        proof {
                            lemma_matrix_cells_are_lookups(mj);
                            assert forall|x: int, y: int|
                                0 <= x < mj.len() && 0 <= y < mj[x].1.len() implies (
                            #[trigger] mj[x].1[y]).1 < u32::MAX as int by {
                                let cx = mj[x].0;
                                let cy = mj[x].1[y].0;
                                assert(mj[x].1[y].1 == matrix_lookup(mj, cx, cy));
                                assert(matrix_lookup(mj, cx, cy) == matrix_lookup(mi, cx, cy)
                                    + if cx == d@[i as int] && cy != d@[i as int] && d@.take(
                                    j as int,
                                ).contains(cy) {
                                    1int
                                } else {
                                    0int
                                });
                                assert(matrix_lookup(mi, cx, cy) == matrix_lookup(m0, cx, cy)
                                    + if cx != cy && d@.take(i as int).contains(cx) && d@.contains(
                                    cy,
                                ) {
                                    1int
                                } else {
                                    0int
                                });
                                assert(matrix_lookup(m0, cx, cy) <= prefix.len());
                                if cx == d@[i as int] && d@.take(i as int).contains(cx) {
                                    let w = choose|w: int|
                                        0 <= w < d@.take(i as int).len() && #[trigger] d@.take(
                                            i as int,
                                        )[w] == cx;
                                    assert(d@[w] == cx);
                                    assert(d@[w] != d@[i as int]);
                                }
                            }
                        }
                        bump_matrix_cell(&mut matrix, d[i], d[j]);
                        proof {
                            assert(add_pairs_for(mi, d@, d@[i as int], j as int + 1)
                                == matrix_bump(mj, d@[i as int], d@[j as int]));
                        }
                    } else {
                        proof {
                            assert(add_pairs_for(mi, d@, d@[i as int], j as int + 1)
                                == add_pairs_for(mi, d@, d@[i as int], j as int));
                        }
                    }
                }
                proof {
                    assert(add_all_pairs(m0, d@, i as int + 1) == add_pairs_for(
                        mi,
                        d@,
                        d@[i as int],
                        dl as int,
                    ));
                }
            }
            proof {
                assert(shared_links_fold(prefix1) == add_all_pairs(m0, d@, d@.len() as int));
            }
        }
    }
    proof {
        assert(table.take(n as int) =~= table);
    }
    UrlsBetweenSubreddits { subreddits: urls.subreddits, n_shared_urls: matrix }
}

// ---------------------------------------------------------------------
// All-pairs repost matrix
// ---------------------------------------------------------------------

/// How often a link first posted in one community was later reposted in
/// another, over all community pairs.
#[derive(Debug)]
pub struct RepostsAcrossSubreddits {
    pub subreddits: Vec<String>,
    pub matrix: Vec<(usize, Vec<(usize, u32)>)>,
}

/// The all-pairs repost matrix of a url table: per url with at least two
/// occurrences, sorted by time (stable), the first poster's cell grows by
/// one for every distinct later community other than itself.
pub open spec fn reposts_across_fold(table: Seq<(Seq<char>, Seq<(usize, i32)>)>) -> Seq<
    (usize, Seq<(usize, int)>),
>
    decreases table.len(),
{
    if table.len() == 0 {
        Seq::empty()
    } else {
        let prev = reposts_across_fold(table.drop_last());
        let sorted = sort_by_time(table.last().1);
        if sorted.len() <= 1 {
            prev
        } else {
            let d = distinct_communities(sorted.drop_first());
            add_pairs_for(prev, d, sorted[0].0, d.len() as int)
        }
    }
}

/// The all-pairs matrix is distinct-keyed and each cell is bounded by the
/// number of urls.
pub proof fn lemma_reposts_across_bounds(table: Seq<(Seq<char>, Seq<(usize, i32)>)>)
    ensures
        matrix_distinct(reposts_across_fold(table)),
        forall|a: usize, b: usize| 0 <= #[trigger] matrix_lookup(reposts_across_fold(table), a, b)
            <= table.len(),
    decreases table.len(),
{
    if table.len() == 0 {
        assert forall|a: usize, b: usize| #[trigger] matrix_lookup(
            reposts_across_fold(table),
            a,
            b,
        ) == 0 by {
            lemma_key_index(reposts_across_fold(table), a);
        }
    } else {
        lemma_reposts_across_bounds(table.drop_last());
        let prev = reposts_across_fold(table.drop_last());
        let sorted = sort_by_time(table.last().1);
        if sorted.len() > 1 {
            let d = distinct_communities(sorted.drop_first());
            lemma_distinct_communities_distinct(sorted.drop_first());
            lemma_add_pairs_for_lookup(prev, d, sorted[0].0, d.len() as int);
        }
    }
}

/// Build the all-pairs repost matrix of a url index.
#[verifier::loop_isolation(false)]
pub fn get_reposts_across_subreddits(urls: &SubredditsFromUrls) -> (r: RepostsAcrossSubreddits)
    requires
        urls.wf(),
        urls.occs().len() < u32::MAX as int,
    ensures
        subs_view(r.subreddits@) == urls.subs(),
        matrix_view(r.matrix@) == reposts_across_fold(urls.occs()),
{
    let ghost table = urls.occs();
    let mut subreddits: Vec<String> = Vec::new();
    let sn = urls.subreddits.len();
    for i in 0..sn
        invariant
            subs_view(subreddits@) == urls.subs().take(i as int),
    {
        subreddits.push(urls.subreddits[i].clone());
        proof {
            assert(subs_view(subreddits@) =~= urls.subs().take(i as int).push(
                urls.subs()[i as int],
            ));
            assert(urls.subs().take(i as int + 1) =~= urls.subs().take(i as int).push(
                urls.subs()[i as int],
            ));
        }
    }
    proof {
        assert(urls.subs().take(sn as int) =~= urls.subs());
    }
    let mut matrix: Vec<(usize, Vec<(usize, u32)>)> = Vec::new();
    let n = urls.urls.len();
    proof {
        assert(matrix_view(matrix@) =~= reposts_across_fold(table.take(0)));
    }
    for t in 0..n
        invariant
            matrix_view(matrix@) == reposts_across_fold(table.take(t as int)),
    {
        let ghost prefix = table.take(t as int);
        let ghost prefix1 = table.take(t as int + 1);
        let ghost m0 = reposts_across_fold(prefix);
        proof {
            assert(prefix1.drop_last() =~= prefix);
            assert(prefix1.last() == table[t as int]);
            assert(table[t as int].1 == urls.urls@[t as int].1@);
            lemma_reposts_across_bounds(prefix);
        }
        let sorted = sort_occurrences(&urls.urls[t].1);
        proof {
            lemma_sort_time_len(table[t as int].1);
        }
        if sorted.len() <= 1 {
            proof {
                assert(reposts_across_fold(prefix1) == m0);
            }
        } else {
            let ghost socc = sort_by_time(table[t as int].1);
            let first = sorted[0].0;
            let mut d: Vec<usize> = Vec::new();
            let slen = sorted.len();
            proof {
                assert(socc.drop_first().take(0) =~= Seq::<(usize, i32)>::empty());
                assert(d@ =~= distinct_communities(socc.drop_first().take(0)));
            }
            for j in 1..slen
                invariant
                    d@ == distinct_communities(socc.drop_first().take(j as int - 1)),
            {
                let c = sorted[j].0;
                proof {
                    assert(socc.drop_first().take(j as int).drop_last() =~= socc.drop_first().take(
                        j as int - 1,
                    ));
                    assert(socc.drop_first().take(j as int).last() == socc.drop_first()[j as int
                        - 1]);
                    assert(socc.drop_first()[j as int - 1] == socc[j as int]);
                }
                if !contains_usize(&d, c) {
                    d.push(c);
                }
            }
            proof {
                assert(socc.drop_first().take(slen as int - 1) =~= socc.drop_first());
                lemma_distinct_communities_distinct(socc.drop_first());
            }
            let dl = d.len();
            proof {
                assert(add_pairs_for(m0, d@, first, 0) == m0);
            }
            for j in 0..dl
                invariant
                    matrix_view(matrix@) == add_pairs_for(m0, d@, first, j as int),
            {
                proof {
                    lemma_add_pairs_for_lookup(m0, d@, first, j as int);
                }
                if d[j] != first {
                    let ghost mj = add_pairs_for(m0, d@, first, j as int);
                    proof {
                        lemma_matrix_cells_are_lookups(mj);
                        assert forall|x: int, y: int|
                            0 <= x < mj.len() && 0 <= y < mj[x].1.len() implies (
                        #[trigger] mj[x].1[y]).1 < u32::MAX as int by {
                            let cx = mj[x].0;
                            let cy = mj[x].1[y].0;
                            assert(mj[x].1[y].1 == matrix_lookup(mj, cx, cy));
                            assert(matrix_lookup(mj, cx, cy) == matrix_lookup(m0, cx, cy) + if cx
                                == first && cy != first && d@.take(j as int).contains(cy) {
                                1int
                            } else {
                                0int
                            });
                            assert(matrix_lookup(m0, cx, cy) <= prefix.len());
                        }
                    }
                    bump_matrix_cell(&mut matrix, first, d[j]);
                    proof {
                        assert(add_pairs_for(m0, d@, first, j as int + 1) == matrix_bump(
                            mj,
                            first,
                            d@[j as int],
                        ));
                    }
                } else {
                    proof {
                        assert(add_pairs_for(m0, d@, first, j as int + 1) == add_pairs_for(
                            m0,
                            d@,
                            first,
                            j as int,
                        ));
                    }
                }
            }
            proof {
                assert(reposts_across_fold(prefix1) == add_pairs_for(
                    m0,
                    d@,
                    socc[0].0,
                    d@.len() as int,
                ));
            }
        }
    }
    proof {
        assert(table.take(n as int) =~= table);
    }
    RepostsAcrossSubreddits { subreddits, matrix }
}

/// The projected cell for positions `a`, `b` of the restricted community
/// list: the old cell at the old indices of the two names, or zero when a
/// name is absent from the old community list.
pub open spec fn projected_cell(
    old_m: Seq<(usize, Seq<(usize, int)>)>,
    oldsubs: Seq<Seq<char>>,
    names: Seq<Seq<char>>,
    a: int,
    b: int,
) -> int {
    if oldsubs.contains(names[a]) && oldsubs.contains(names[b]) {
        matrix_lookup(
            old_m,
            first_index(oldsubs, names[a]) as usize,
            first_index(oldsubs, names[b]) as usize,
        )
    } else {
        0
    }
}

/// One projected row: the nonzero cells of source `a` against the first
/// `b` restricted communities, in index order.
pub open spec fn project_row(
    old_m: Seq<(usize, Seq<(usize, int)>)>,
    oldsubs: Seq<Seq<char>>,
    names: Seq<Seq<char>>,
    a: int,
    b: int,
) -> Seq<(usize, int)>
    decreases b,
{
    if b <= 0 {
        Seq::empty()
    } else {
        let prev = project_row(old_m, oldsubs, names, a, b - 1);
        let cell = projected_cell(old_m, oldsubs, names, a, b - 1);
        if cell > 0 {
            prev.push(((b - 1) as usize, cell))
        } else {
            prev
        }
    }
}

/// The projected matrix: rows for the first `a` restricted communities, in
/// index order, dropping every source row left without destinations.
pub open spec fn project_fold(
    old_m: Seq<(usize, Seq<(usize, int)>)>,
    oldsubs: Seq<Seq<char>>,
    names: Seq<Seq<char>>,
    a: int,
) -> Seq<(usize, Seq<(usize, int)>)>
    decreases a,
{
    if a <= 0 {
        Seq::empty()
    } else {
        let prev = project_fold(old_m, oldsubs, names, a - 1);
        let row = project_row(old_m, oldsubs, names, a - 1, names.len() as int);
        if row.len() > 0 {
            prev.push(((a - 1) as usize, row))
        } else {
            prev
        }
    }
}

/// Read cell (a, b) of an executable matrix.
#[verifier::loop_isolation(false)]
fn matrix_cell(v: &Vec<(usize, Vec<(usize, u32)>)>, a: usize, b: usize) -> (r: u32)
    ensures
        r as int == matrix_lookup(matrix_view(v@), a, b),
{
    let ghost m = matrix_view(v@);
    let n = v.len();
    for i in 0..n
        invariant
            n == v@.len(),
            m == matrix_view(v@),
            forall|j: int| 0 <= j < i ==> (#[trigger] m[j]).0 != a,
    {
        assert(m[i as int].0 == v@[i as int].0);
        if v[i].0 == a {
            proof {
                lemma_key_present(m, i as int);
                lemma_key_index(m, a);
                if key_index(m, a) > i as int {
                    assert(m[i as int].0 != a);
                }
                assert(key_index(m, a) == i as int);
                assert(value_of(m, a) == m[i as int].1);
                assert(m[i as int].1 == counts_view(v@[i as int].1@));
            }
            let ghost row = m[i as int].1;
            let row_vec = &v[i].1;
            let rn = row_vec.len();
            for j in 0..rn
                invariant
                    rn == row_vec@.len(),
                    row == counts_view(row_vec@),
                    row == value_of(m, a),
                    key_index(m, a) == i as int,
                    has_key(m, a),
                    forall|jj: int| 0 <= jj < j ==> (#[trigger] row[jj]).0 != b,
            {
                assert(row[j as int] == (row_vec@[j as int].0, row_vec@[j as int].1 as int));
                if row_vec[j].0 == b {
                    proof {
                        lemma_key_present(row, j as int);
                        lemma_key_index(row, b);
                        if key_index(row, b) > j as int {
                            assert(row[j as int].0 != b);
                        }
                        assert(key_index(row, b) == j as int);
                    }
                    return row_vec[j].1;
                }
            }
            proof {
                lemma_key_index(row, b);
                if has_key(row, b) {
                    assert(row[key_index(row, b)].0 != b);
                }
            }
            return 0;
        }
    }
    proof {
        lemma_key_index(m, a);
        if has_key(m, a) {
            assert(m[key_index(m, a)].0 != a);
        }
    }
    0
}

impl RepostsAcrossSubreddits {
    /// Restrict both axes to the given community names: the result is
    /// re-indexed by position in `names`, keeps only nonzero cells, and
    /// drops every source row left without destinations.  A name absent
    /// from the original community list has no cells.
    #[verifier::loop_isolation(false)]
    pub fn project(&self, names: &Vec<String>) -> (r: RepostsAcrossSubreddits)
        ensures
            subs_view(r.subreddits@) == subs_view(names@),
            matrix_view(r.matrix@) == project_fold(
                matrix_view(self.matrix@),
                subs_view(self.subreddits@),
                subs_view(names@),
                names@.len() as int,
            ),
    {
        let ghost old_m = matrix_view(self.matrix@);
        let ghost oldsubs = subs_view(self.subreddits@);
        let ghost nv = subs_view(names@);
        let mut subreddits: Vec<String> = Vec::new();
        let nn = names.len();
        for i in 0..nn
            invariant
                subs_view(subreddits@) == nv.take(i as int),
        {
            subreddits.push(names[i].clone());
            proof {
                assert(subs_view(subreddits@) =~= nv.take(i as int).push(nv[i as int]));
                assert(nv.take(i as int + 1) =~= nv.take(i as int).push(nv[i as int]));
            }
        }
        proof {
            assert(nv.take(nn as int) =~= nv);
        }
        let mut matrix: Vec<(usize, Vec<(usize, u32)>)> = Vec::new();
        proof {
            assert(matrix_view(matrix@) =~= project_fold(old_m, oldsubs, nv, 0));
        }
        for a in 0..nn
            invariant
                matrix_view(matrix@) == project_fold(old_m, oldsubs, nv, a as int),
        {
            let oa = find_string_index(&self.subreddits, &names[a]);
            let mut row: Vec<(usize, u32)> = Vec::new();
            proof {
                assert(counts_view(row@) =~= project_row(old_m, oldsubs, nv, a as int, 0));
            }
            for b in 0..nn
                invariant
                    counts_view(row@) == project_row(old_m, oldsubs, nv, a as int, b as int),
            {
                let cell: u32 = match oa {
                    None => 0,
                    Some(ia) => {
                        match find_string_index(&self.subreddits, &names[b]) {
                            None => 0,
                            Some(ib) => matrix_cell(&self.matrix, ia, ib),
                        }
                    },
                };
                proof {
                    match oa {
                        None => {
                            assert(!oldsubs.contains(nv[a as int])) by {
                                lemma_first_index(oldsubs, nv[a as int]);
                            }
                            assert(cell as int == projected_cell(old_m, oldsubs, nv, a as int, b as int));
                        },
                        Some(ia) => {
                            lemma_first_index(oldsubs, nv[a as int]);
                            assert(oldsubs.contains(nv[a as int]));
                            lemma_first_index(oldsubs, nv[b as int]);
                            assert(cell as int == projected_cell(old_m, oldsubs, nv, a as int, b as int));
                        },
                    }
                }
                if cell > 0 {
                    row.push((b, cell));
                    proof {
                        assert(counts_view(row@) =~= project_row(old_m, oldsubs, nv, a as int, b as int).push((b, cell as int)));
                    }
                }
            }
            if row.len() > 0 {
                proof {
                    assert(project_row(old_m, oldsubs, nv, a as int, nv.len() as int).len() > 0) by {
                        assert(counts_view(row@).len() == row@.len());
                    }
                }
                matrix.push((a, row));
                proof {
                    assert(matrix_view(matrix@) =~= project_fold(old_m, oldsubs, nv, a as int).push(
                        (a, project_row(old_m, oldsubs, nv, a as int, nv.len() as int)),
                    ));
                }
            } else {
                proof {
                    assert(project_row(old_m, oldsubs, nv, a as int, nv.len() as int).len() == 0) by {
                        assert(counts_view(row@).len() == row@.len());
                    }
                }
            }
        }
        RepostsAcrossSubreddits { subreddits, matrix }
    }
}

// ---------------------------------------------------------------------
// PPMI groundwork
// ---------------------------------------------------------------------

/// Sum of one row's shared-url counts.
pub open spec fn row_total(row: Seq<(usize, u32)>) -> int
    decreases row.len(),
{
    if row.len() == 0 {
        0
    } else {
        row_total(row.drop_last()) + row.last().1
    }
}

/// Sum of all cells of the matrix.
pub open spec fn matrix_total(m: Seq<(usize, Vec<(usize, u32)>)>) -> int
    decreases m.len(),
{
    if m.len() == 0 {
        0
    } else {
        matrix_total(m.drop_last()) + row_total(m.last().1@)
    }
}

proof fn lemma_row_total_nonneg(row: Seq<(usize, u32)>)
    ensures
        row_total(row) >= 0,
    decreases row.len(),
{
    if row.len() > 0 {
        lemma_row_total_nonneg(row.drop_last());
    }
}

proof fn lemma_row_total_prefix(row: Seq<(usize, u32)>, j: int)
    requires
        0 <= j <= row.len(),
    ensures
        row_total(row.take(j)) <= row_total(row),
    decreases row.len(),
{
    if j == row.len() {
        assert(row.take(j) =~= row);
    } else {
        assert(row.take(j) =~= row.drop_last().take(j));
        lemma_row_total_prefix(row.drop_last(), j);
    }
}

proof fn lemma_matrix_total_nonneg(m: Seq<(usize, Vec<(usize, u32)>)>)
    ensures
        matrix_total(m) >= 0,
    decreases m.len(),
{
    if m.len() > 0 {
        lemma_matrix_total_nonneg(m.drop_last());
        lemma_row_total_nonneg(m.last().1@);
    }
}

proof fn lemma_matrix_total_prefix(m: Seq<(usize, Vec<(usize, u32)>)>, i: int)
    requires
        0 <= i <= m.len(),
    ensures
        matrix_total(m.take(i)) <= matrix_total(m),
    decreases m.len(),
{
    if i == m.len() {
        assert(m.take(i) =~= m);
    } else {
        assert(m.take(i) =~= m.drop_last().take(i));
        lemma_matrix_total_prefix(m.drop_last(), i);
        lemma_row_total_nonneg(m.last().1@);
    }
}

/// The marginal sums of the PPMI transform: per row key the sum of that
/// row's counts, in row order, and the grand total of all cells.  The
/// floating-point part of the transform reads these sums.
#[verifier::loop_isolation(false)]
pub fn compute_ppmi_marginals(urls: &UrlsBetweenSubreddits) -> (r: (Vec<(usize, u64)>, u64))
    requires
        matrix_total(urls.n_shared_urls@) <= u64::MAX as int,
    ensures
        r.0@.len() == urls.n_shared_urls@.len(),
        forall|i: int| 0 <= i < r.0@.len() ==> (#[trigger] r.0@[i]).0 == urls.n_shared_urls@[i].0
            && r.0@[i].1 as int == row_total(urls.n_shared_urls@[i].1@),
        r.1 as int == matrix_total(urls.n_shared_urls@),
{
    let ghost m = urls.n_shared_urls@;
    let mut sums: Vec<(usize, u64)> = Vec::new();
    let mut total: u64 = 0;
    let n = urls.n_shared_urls.len();
    for i in 0..n
        invariant
            sums@.len() == i,
            forall|k: int| 0 <= k < i ==> (#[trigger] sums@[k]).0 == m[k].0 && sums@[k].1 as int
                == row_total(m[k].1@),
            total as int == matrix_total(m.take(i as int)),
    {
        let row = &urls.n_shared_urls[i].1;
        let rl = row.len();
        let mut s: u64 = 0;
        proof {
            assert(row@.take(0) =~= Seq::<(usize, u32)>::empty());
        }
        for j in 0..rl
            invariant
                rl == row@.len(),
                s as int == row_total(row@.take(j as int)),
        {
            proof {
                assert(row@.take(j as int + 1).drop_last() =~= row@.take(j as int));
                assert(row@.take(j as int + 1).last() == row@[j as int]);
                lemma_row_total_prefix(row@, j as int + 1);
                lemma_matrix_total_prefix(m, i as int);
                lemma_matrix_total_nonneg(m.take(i as int));
                assert(m.take(i as int + 1).drop_last() =~= m.take(i as int));
                assert(m.take(i as int + 1).last() == m[i as int]);
                lemma_matrix_total_prefix(m, i as int + 1);
                lemma_row_total_nonneg(row@.take(j as int));
            }
            s = s + (row[j].1 as u64);
        }
        proof {
            assert(row@.take(rl as int) =~= row@);
            assert(m.take(i as int + 1).drop_last() =~= m.take(i as int));
            assert(m.take(i as int + 1).last() == m[i as int]);
            lemma_matrix_total_prefix(m, i as int + 1);
            lemma_matrix_total_nonneg(m.take(i as int));
            lemma_row_total_nonneg(row@);
        }
        sums.push((urls.n_shared_urls[i].0, s));
        total = total + s;
    }
    proof {
        assert(m.take(n as int) =~= m);
    }
    (sums, total)
}

/// The over-18 marker of the export: 1 for a community whose post count is
/// below twice its over-18 count, else 0.  Every community must have an
/// entry in the statistics mapping.
pub fn over_18_flags(
    subreddits: &Vec<String>,
    stats: &Vec<(String, crate::subreddit_stats::SubredditStats)>,
) -> (r: Vec<u8>)
    requires
        forall|i: int| 0 <= i < subreddits@.len() ==> has_key(
            crate::subreddit_stats::stats_view(stats@),
            (#[trigger] subreddits@[i])@,
        ),
    ensures
        r@.len() == subreddits@.len(),
        forall|i: int| 0 <= i < subreddits@.len() ==> (#[trigger] r@[i]) == {
            let st = value_of(
                crate::subreddit_stats::stats_view(stats@),
                subreddits@[i]@,
            );
            if st.n_posts < 2 * st.n_posts_over_18 {
                1u8
            } else {
                0u8
            }
        },
{
    let ghost sm = crate::subreddit_stats::stats_view(stats@);
    let mut r: Vec<u8> = Vec::new();
    let n = subreddits.len();
    for i in 0..n
        invariant
            n == subreddits@.len(),
            sm == crate::subreddit_stats::stats_view(stats@),
            forall|k: int| 0 <= k < subreddits@.len() ==> has_key(
                sm,
                (#[trigger] subreddits@[k])@,
            ),
            r@.len() == i,
            forall|k: int| 0 <= k < i ==> (#[trigger] r@[k]) == {
                let st = value_of(sm, subreddits@[k]@);
                if st.n_posts < 2 * st.n_posts_over_18 {
                    1u8
                } else {
                    0u8
                }
            },
    {
        let pos = crate::subreddit_stats::stats_find(stats, &subreddits[i]);
        let k = match pos {
            Some(k) => k,
            None => {
                proof {
                    assert(has_key(sm, subreddits@[i as int]@));
                }
                assert(false);
                0
            },
        };
        proof {
            lemma_key_index(sm, subreddits@[i as int]@);
            assert(sm[k as int].1 == value_of(sm, subreddits@[i as int]@));
            assert(sm[k as int].1 == stats@[k as int].1.model());
        }
        let st = stats[k].1;
        let flag: u8 = if (st.n_posts as i64) < 2 * (st.n_posts_over_18 as i64) {
            1
        } else {
            0
        };
        r.push(flag);
    }
    r
}

/// A post that does not contribute leaves every part of the index spec
/// unchanged.
proof fn lemma_not_contributing_step(
    prefix: Seq<RedditPost>,
    prefix1: Seq<RedditPost>,
    allow: Option<Seq<Seq<char>>>,
    subs: Seq<Seq<char>>,
    init: Seq<Seq<char>>,
)
    requires
        prefix1.len() >= 1,
        prefix1.drop_last() == prefix,
        !contributes(prefix1.last(), allow),
    ensures
        index_communities(prefix1, init, allow) == index_communities(prefix, init, allow),
        url_keys(prefix1, allow) == url_keys(prefix, allow),
        forall|u: Seq<char>| #[trigger] url_occurrences(prefix1, allow, subs, u)
            == url_occurrences(prefix, allow, subs, u),
{
}

} // verus!
