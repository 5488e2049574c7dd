pub mod text;
pub mod utf8;
pub mod multipart;
pub mod app_state;
pub mod http;
pub mod search;
pub mod tasks;
pub mod graph;
pub mod chat;
pub mod reviews;
pub mod server;
pub mod watcher;
pub mod config;
pub mod params;
pub mod archive;
