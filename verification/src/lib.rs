//! A small podcast-feed pipeline: a streaming RSS parser that turns a feed
//! document into episode records while tolerating malformed items, a
//! deterministic filename policy, and the decision logic of a
//! bounded-concurrency download pipeline with atomic commits.

pub mod ascii;
pub mod episode;
pub mod feed;
pub mod item;
pub mod names;
pub mod pipeline;
pub mod runmodel;
pub mod scan;
