//! Sharp PC-1500 / PC-1600 data exchange: serial file headers, the BCD number and
//! variable codecs, the CE-1600F floppy filesystem and its image container, content
//! detection and the transfer rules shared by `get` and `put`.

pub mod cp437;
pub mod textbuf;
pub mod header;
pub mod registry;
pub mod scanner;
pub mod pocket_device;
pub mod detect;
pub mod variables;
pub mod sdav_reread;
pub mod variable_records;
pub mod reserve;
pub mod reserve_reread;
pub mod floppy_image;
pub mod bcd;
pub mod diskfs;
pub mod filename;
pub mod config;
pub mod serial;
pub mod sender;
pub mod receiver;
pub mod verbosity;
pub mod transfer;
pub mod disk_cmd;
pub mod put_cmd;
pub mod get_cmd;
pub mod convert;
