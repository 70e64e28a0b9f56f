//! The post record consumed by every aggregation pass.

use vstd::prelude::*;

verus! {

/// The interesting fields of a post record.  Posts are produced by an outside
/// source (JSON or CSV files); only plain values reach the library.
#[derive(Debug)]
pub struct RedditPost {
    pub href_url: Option<String>,
    pub num_comments: i32,
    pub promoted_url: Option<String>,
    pub score: i32,
    pub gilded: i32,
    pub subreddit: String,
    pub id: String,
    pub original_link: Option<String>,
    pub title: String,
    pub is_self: bool,
    pub selftext: String,
    pub domain: String,
    pub url: String,
    pub over_18: bool,
    pub author_cakeday: Option<bool>,
    pub permalink: String,
    pub author: String,
    pub subreddit_id: String,
    pub created_utc: i32,
}

impl Clone for RedditPost {
    /// A clone is the same record.
    fn clone(&self) -> (r: Self)
        ensures
            r == *self,
    {
        RedditPost {
            href_url: clone_opt_string(&self.href_url),
            num_comments: self.num_comments,
            promoted_url: clone_opt_string(&self.promoted_url),
            score: self.score,
            gilded: self.gilded,
            subreddit: self.subreddit.clone(),
            id: self.id.clone(),
            original_link: clone_opt_string(&self.original_link),
            title: self.title.clone(),
            is_self: self.is_self,
            selftext: self.selftext.clone(),
            domain: self.domain.clone(),
            url: self.url.clone(),
            over_18: self.over_18,
            author_cakeday: self.author_cakeday,
            permalink: self.permalink.clone(),
            author: self.author.clone(),
            subreddit_id: self.subreddit_id.clone(),
            created_utc: self.created_utc,
        }
    }
}

/// Clone an optional string, field for field.
fn clone_opt_string(o: &Option<String>) -> (r: Option<String>)
    ensures
        r == *o,
{
    match o {
        None => None,
        Some(s) => Some(s.clone()),
    }
}

impl RedditPost {
    /// The externally linked url of a post, if any: a post links out exactly
    /// when its `url` differs from its own `permalink`.  A self-referential
    /// post stores its own discussion page as its url, so direct string
    /// equality is the whole test once urls are kept as full strings; no
    /// internal-domain prefix needs stripping.
    pub open spec fn linked_url(&self) -> Option<Seq<char>> {
        if self.url@ == self.permalink@ {
            None
        } else {
            Some(self.url@)
        }
    }

    /// Return the externally linked url, or `None` for a self-referential post.
    pub fn get_linked_url(&self) -> (r: Option<String>)
        ensures
            self.url@ == self.permalink@ ==> r is None,
            self.url@ != self.permalink@ ==> (r matches Some(u) && u@ == self.url@),
    {
        if self.url == self.permalink {
            None
        } else {
            Some(self.url.clone())
        }
    }
}

} // verus!
