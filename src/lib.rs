//! Short links: compact codes for long URLs, kept unique in a link table.
pub mod codec;
pub mod db;
pub mod laws;
pub mod web;
