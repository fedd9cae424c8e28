//! A download manager's decisions: argument parsing, byte-range planning,
//! header parsing and progress bookkeeping.
pub mod cli;
pub mod downloader;
pub mod error;
pub mod http;
pub mod outside;
pub mod recover;
pub mod text;
