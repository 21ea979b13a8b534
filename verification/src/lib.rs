//! Verified core of a peer-to-peer video streaming client.

pub mod error;
pub mod types;
pub mod text;
pub mod strings;
pub mod seqs;
pub mod util;
pub mod uri;
pub mod rpc;
pub mod media;
pub mod media_probe;
pub mod server;
pub mod stream;
pub mod buffer;
pub mod tracker;
pub mod gui;
pub mod bencode;
pub mod bencode_laws;
pub mod simple_bencode;
pub mod qvs_file;
pub mod routing;
pub mod address;
pub mod token;
pub mod krpc;
pub mod dht_node;
pub mod cache;
pub mod playback;
pub mod handler;
pub mod middleware;
pub mod engine;
pub mod controls;
pub mod client;
