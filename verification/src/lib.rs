//! A verified core for an S3 object-store client: stored connections and their
//! encrypted secrets, object-key and download-path arithmetic, update checks and
//! transfer bookkeeping.
pub mod chunking;
pub mod config;
pub mod keys;
pub mod local_path;
pub mod models;
pub mod oss;
pub mod secret;
pub mod settings;
pub mod text;
pub mod transfer;
pub mod update;
