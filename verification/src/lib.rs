//! Verified core of a downloader for Epic Games build manifests: the
//! manifest listing returned by the launcher service, the file and chunk
//! model, tag selection, chunk addressing, file assembly and the
//! bookkeeping of a download run.

pub mod model;
pub mod hashing;
pub mod text;
pub mod manifest_api;
pub mod order;
pub mod text_map;
pub mod tags;
pub mod application;
pub mod chunks;
pub mod assembly;
pub mod downloader;
pub mod tags_ignore;
pub mod worker;
