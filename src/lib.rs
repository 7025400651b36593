//! Near-real-time transit arrivals for configured stops: the feed's journeys,
//! their per-agency snapshots, and the grouped, sorted arrival model built from them.
pub mod time;
pub mod text;
pub mod config;
pub mod feed;
pub mod cache;
pub mod transform;
pub mod lemmas;
pub mod refresh;
pub mod pipeline;
pub mod layout;
