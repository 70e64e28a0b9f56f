//! The comment record consumed read-only by exploratory passes.

use vstd::prelude::*;
use crate::edit_state::EditState;

verus! {

/// The interesting fields of a comment record.
#[derive(Debug)]
pub struct RedditComment {
    pub author: String,
    pub subreddit_id: String,
    pub parent_id: String,
    pub gilded: i32,
    pub created_utc: String,
    pub edited: EditState,
    pub archived: bool,
    pub link_id: String,
    pub body: String,
    pub author_flair_text: Option<String>,
    pub distinguished: Option<String>,
    pub controversiality: i32,
    pub ups: i32,
    pub score_hidden: bool,
    pub name: String,
    pub subreddit: String,
    pub downs: i32,
    pub score: i32,
    pub author_flair_css_class: Option<String>,
    pub retrieved_on: i32,
    pub id: String,
}

} // verus!
