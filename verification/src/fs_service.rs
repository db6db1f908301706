//! Messages between a client and the file-system service.
//!
//! A client sends [`FsRequest`]s on [`CHANNEL_NAME`] and receives [`FsResponse`]s on
//! [`REPLY_CHANNEL_NAME`], both in the wire encoding. A message fits one 4 KiB packet.

use vstd::prelude::*;

verus! {

/// Name of the request channel of the service.
pub const CHANNEL_NAME: &'static str = "ncfs";

/// Name of the reply channel of the service.
pub const REPLY_CHANNEL_NAME: &'static str = "ncfs-reply";

/// Maximum inline file payload (bytes) of a [`FsRequest::Write`] or [`FsResponse::Data`].
pub const FS_MAX_INLINE_BYTES: usize = 3072;

/// Maximum path length the service accepts (bytes).
pub const FS_MAX_PATH: usize = 256;

/// Error categories returned by the service.
#[derive(Debug, Clone, Copy, PartialEq, Eq, Hash, Structural)]
#[non_exhaustive]
pub enum FsErrno {
    /// No such file or directory.
    NotFound,
    /// The file already exists.
    AlreadyExists,
    /// Malformed request.
    InvalidArgument,
    /// Payload exceeds [`FS_MAX_INLINE_BYTES`].
    TooLarge,
    /// Integrity check failed.
    Integrity,
    /// Underlying block I/O failed.
    Io,
    /// No valid volume is mounted.
    NotMounted,
    /// The directory to delete is not empty.
    DirectoryNotEmpty,
}

/// A request from a client to the service.
#[derive(Debug, Clone, PartialEq, Eq)]
#[non_exhaustive]
pub enum FsRequest {
    /// Create an empty regular file.
    Create {
        /// Absolute path.
        path: String,
    },
    /// Write bytes into a file. Only a later [`FsRequest::Sync`] makes them durable.
    Write {
        /// Absolute path.
        path: String,
        /// Byte offset to write at.
        offset: u64,
        /// Bytes to write (at most [`FS_MAX_INLINE_BYTES`]).
        data: Vec<u8>,
    },
    /// Read bytes from a file; answered by [`FsResponse::Data`].
    Read {
        /// Absolute path.
        path: String,
        /// Byte offset to read from.
        offset: u64,
        /// Number of bytes to read (at most [`FS_MAX_INLINE_BYTES`]).
        len: u64,
    },
    /// Create a directory.
    Mkdir {
        /// Absolute path.
        path: String,
    },
    /// Delete a file or an empty directory.
    Delete {
        /// Absolute path.
        path: String,
    },
    /// List a directory; answered by [`FsResponse::Listing`].
    ListDir {
        /// Absolute path.
        path: String,
    },
    /// Metadata of a path; answered by [`FsResponse::Stat`].
    Stat {
        /// Absolute path.
        path: String,
    },
    /// Flush the volume to the disk.
    Sync,
}

/// A response from the service.
#[derive(Debug, Clone, PartialEq, Eq)]
#[non_exhaustive]
pub enum FsResponse {
    /// Success with no payload.
    Done,
    /// The file was created.
    Created,
    /// Data that was read.
    Data {
        /// The bytes read, fewer than asked for at the end of the file.
        bytes: Vec<u8>,
    },
    /// Directory listing.
    Listing {
        /// Entry names, not full paths.
        names: Vec<String>,
    },
    /// File metadata.
    Stat {
        /// Size in bytes.
        size: u64,
        /// `true` for a directory.
        is_dir: bool,
    },
    /// The request failed.
    Error(FsErrno),
}

} // verus!
