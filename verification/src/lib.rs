//! File and directory transfer over HTTP: the verified core.
//!
//! `util` joins client-supplied paths onto the storage root, `archive`
//! packs directory entries into zip archives and reads them back, `server`
//! holds the directory listing and the rules by which each request is
//! answered, and `client` builds request URLs and judges the answers.
pub mod util;
pub mod archive;
pub mod server;
pub mod client;
