//! An RSS-driven torrent automation library: feeds are parsed into
//! subscription items, matching torrents are dispatched at most once each,
//! their progress is reconciled into a task table, and completed downloads
//! are renamed into a media-library layout.
//!
//! Everything here is verified. The daemon around it — command line,
//! database, HTTP, torrent client and notifier plumbing — lives outside and
//! calls in with plain values.
pub mod bencode;
pub mod cache;
pub mod filter;
pub mod manager;
pub mod mikan;
pub mod notification;
pub mod renamer;
pub mod rss;
pub mod sub_store;
pub mod task_store;
pub mod text;
pub mod torrent;
