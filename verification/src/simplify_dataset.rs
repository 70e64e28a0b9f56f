//! Turning raw, already-parsed json post records into post records, dropping
//! the ones the analysis never wants.

use vstd::prelude::*;
use crate::reddit_post::RedditPost;

verus! {

/// A raw json post record, already typed: the shape the simplification step
/// inspects before deciding which posts to keep.
#[derive(Debug)]
pub struct RedditPostJSON {
    pub href_url: Option<String>,
    pub num_comments: i32,
    pub promoted_url: Option<String>,
    pub score: i32,
    pub hidden: Option<bool>,
    pub gilded: i32,
    pub subreddit: Option<String>,
    pub id: String,
    pub title: String,
    pub url: String,
    pub over_18: bool,
    pub author_cakeday: Option<bool>,
    pub permalink: String,
    pub author: String,
    pub created_utc: i32,
}

impl RedditPostJSON {
    /// Turn a raw record into a post.  Records without a community, promoted
    /// records and hidden records are dropped; the fields the raw record
    /// does not carry are left empty.
    pub fn into_reddit_post(self) -> (r: Option<RedditPost>)
        ensures
            r is None <==> (self.subreddit is None || self.promoted_url is Some || self.hidden
                == Some(true)),
            r matches Some(p) ==> {
                &&& p.href_url == self.href_url
                &&& p.num_comments == self.num_comments
                &&& p.promoted_url is None
                &&& p.score == self.score
                &&& p.gilded == self.gilded
                &&& p.subreddit == self.subreddit->Some_0
                &&& p.id == self.id
                &&& p.original_link is None
                &&& p.title == self.title
                &&& !p.is_self
                &&& p.selftext@ == Seq::<char>::empty()
                &&& p.domain@ == Seq::<char>::empty()
                &&& p.url == self.url
                &&& p.over_18 == self.over_18
                &&& p.author_cakeday == self.author_cakeday
                &&& p.permalink == self.permalink
                &&& p.author == self.author
                &&& p.subreddit_id@ == Seq::<char>::empty()
                &&& p.created_utc == self.created_utc
            },
    {
        let hidden_set = match self.hidden {
            Some(h) => h,
            None => false,
        };
        if self.promoted_url.is_some() || hidden_set {
            return None;
        }
        match self.subreddit {
            None => None,
            Some(sub) => Some(
                RedditPost {
                    href_url: self.href_url,
                    num_comments: self.num_comments,
                    promoted_url: None,
                    score: self.score,
                    gilded: self.gilded,
                    subreddit: sub,
                    id: self.id,
                    original_link: None,
                    title: self.title,
                    is_self: false,
                    selftext: String::new(),
                    domain: String::new(),
                    url: self.url,
                    over_18: self.over_18,
                    author_cakeday: self.author_cakeday,
                    permalink: self.permalink,
                    author: self.author,
                    subreddit_id: String::new(),
                    created_utc: self.created_utc,
                },
            ),
        }
    }
}

} // verus!
