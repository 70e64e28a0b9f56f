//! Cross-community link analysis over batches of social-media posts.
//!
//! The crate turns a sequence of post records into per-community statistics,
//! a url -> (community, timestamp) index, repost attributions, a shared-link
//! matrix between communities, and the integer groundwork of its PPMI
//! transform.  All aggregation logic is verified; file formats, argument
//! parsing and floating-point post-processing live outside the library.

pub mod assoc;
pub mod data_analysis;
pub mod edit_state;
pub mod possible_types;
pub mod reddit_comment;
pub mod reddit_post;
pub mod simplify_dataset;
pub mod subreddit_posts;
pub mod subreddit_stats;
pub mod utils;
