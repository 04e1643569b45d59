//! File sharing between known users over encrypted connections.
pub mod app_aggregator;
pub mod base64;
pub mod bytes;
pub mod config;
pub mod core_consts;
pub mod crypto;
pub mod encrypted_stream;
pub mod incoming;
pub mod incoming_uploader;
pub mod logger;
pub mod name_map;
pub mod order;
pub mod outgoing;
pub mod outgoing_downloader;
pub mod secure_stream;
pub mod shared_file;
pub mod text;
pub mod transmitic_core;
pub mod transmitic_stream;
pub mod utils;
