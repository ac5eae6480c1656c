//! Archive manipulation engine.
//!
//! A request names an archive and one operation on it: add, extract, list,
//! test, delete, rename or hash. The dispatcher resolves the request to a
//! codec, by the archive's name or by the signature in its leading bytes,
//! and to the one call that serves it. A container is held in memory as
//! its entries in directory order; the operations change or read that, and
//! the codecs turn it into the bytes of a file and back.
//!
//! * `format`, `signature`: what names and leading bytes identify
//! * `request`, `dispatch`, `execute`: from flags to the one codec call
//! * `archive`, `add`, `delete`, `rename`, `extract`, `integrity`: the
//!   container and its operations; `laws`: what holds across them
//! * `codec`, `tar`, `zip`, `gzip`: containers as bytes; `tar_laws`,
//!   `zip_laws`, `gzip_laws`: what is written reads back
//! * `hasher`, `path`, `bytes`, `octal`, `little_endian`, `calendar`,
//!   `dos_time`, `error`: the parts they are built from

pub mod add;
pub mod archive;
pub mod bytes;
pub mod calendar;
pub mod codec;
pub mod delete;
pub mod dispatch;
pub mod dos_time;
pub mod error;
pub mod execute;
pub mod extract;
pub mod format;
pub mod gzip;
pub mod gzip_laws;
pub mod hasher;
pub mod integrity;
pub mod laws;
pub mod little_endian;
pub mod octal;
pub mod path;
pub mod rename;
pub mod request;
pub mod signature;
pub mod tar;
pub mod tar_laws;
pub mod zip;
pub mod zip_laws;
