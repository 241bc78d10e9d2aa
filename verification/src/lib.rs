//! The decision-making core of a terminal downloader for owned Udemy courses.

pub mod api;
pub mod app;
pub mod config;
pub mod cookie;
pub mod crypto;
pub mod direct;
pub mod events;
pub mod groups;
pub mod hls;
pub mod json;
pub mod keys;
pub mod lecture;
pub mod plan;
pub mod queue;
pub mod retry;
pub mod screen;
pub mod segment;
pub mod text;
pub mod ts;
pub mod types;
