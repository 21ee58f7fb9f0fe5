//! A block device kept as objects in a remote message channel.

pub mod ahead_laws;
pub mod backend;
pub mod block;
pub mod cache;
pub mod channel_laws;
pub mod clock;
pub mod command_laws;
pub mod commands;
pub mod commit;
pub mod commit_laws;
pub mod content_laws;
pub mod config;
pub mod damage_laws;
pub mod device;
pub mod device_laws;
pub mod digest;
pub mod envelope;
pub mod envfile;
pub mod flush_laws;
pub mod index;
pub mod index_laws;
pub mod lifetime_laws;
pub mod manifest;
pub mod manifest_laws;
pub mod nbd;
pub mod nbd_laws;
pub mod nbd_server;
pub mod progress_laws;
pub mod reading_laws;
pub mod recovery;
pub mod recovery_laws;
pub mod requests;
pub mod row_laws;
pub mod session;
pub mod settings_laws;
pub mod staging_laws;
pub mod store;
pub mod superblock;
pub mod telegram;
pub mod text;
pub mod text_laws;
pub mod wire;
pub mod write_laws;
