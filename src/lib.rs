pub mod bencode;
pub mod digest;
pub mod download;
pub mod magnet;
pub mod metainfo;
pub mod session;
pub mod text;
pub mod tracker;
pub mod wire;
