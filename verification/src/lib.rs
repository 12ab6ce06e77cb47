//! The logic of a client of the Android Debug Bridge (adb).
//!
//! Nothing here touches a socket or a file. What a client says to the adb
//! server is a list of [`Exchange`]s; what comes back is handed to a reader,
//! which says how many bytes it wants next; and a transfer of several steps is a
//! machine that turns what happened into what to do next. The caller connects,
//! reads and writes.

pub mod adb;
pub mod conversation;
pub mod device;
pub mod error;
pub mod exchange;
pub mod host;
pub mod info;
pub mod numbers;
pub mod path;
pub mod pull;
pub mod push;
pub mod response;
pub mod shell;
pub mod storage;
pub mod sync;
pub mod text;
pub mod tree;
pub mod walk;
pub mod wire;

pub use crate::adb::{DeviceSerial, SyncCommand};
pub use crate::device::Device;
pub use crate::error::{DeviceError, Result};
pub use crate::exchange::Exchange;
pub use crate::host::{DeviceInfo, Host};
pub use crate::path::UnixPath;
pub use crate::storage::{AndroidStorage, AndroidStorageInput};
pub use crate::sync::{RemoteDirEntry, RemoteFileMetadata, RemoteMetadata};
