//! The file-service messages and their encodings.

use nexacore_ui::fs_service::{FsErrno, FsRequest, FsResponse, FS_MAX_INLINE_BYTES, FS_MAX_PATH};
use nexacore_ui::wire::{decode_canonical, encode_canonical};

#[test]
fn write_request_round_trips() {
    let req = FsRequest::Write {
        path: String::from("/notes.txt"),
        offset: 0,
        data: vec![1, 2, 3, 4, 5],
    };
    let bytes = encode_canonical(&req).expect("encode");
    let back: FsRequest = decode_canonical(&bytes).expect("decode");
    assert_eq!(back, req);
}

#[test]
fn read_request_round_trips() {
    let req = FsRequest::Read {
        path: String::from("/notes.txt"),
        offset: 16,
        len: 256,
    };
    let bytes = encode_canonical(&req).expect("encode");
    assert_eq!(decode_canonical::<FsRequest>(&bytes).expect("decode"), req);
}

#[test]
fn sync_and_responses_round_trip() {
    for req in [FsRequest::Sync, FsRequest::ListDir { path: "/".into() }] {
        let bytes = encode_canonical(&req).expect("encode");
        assert_eq!(decode_canonical::<FsRequest>(&bytes).expect("decode"), req);
    }
    let resp = FsResponse::Data {
        bytes: vec![9u8; 100],
    };
    let bytes = encode_canonical(&resp).expect("encode");
    assert_eq!(
        decode_canonical::<FsResponse>(&bytes).expect("decode"),
        resp
    );
    let err = FsResponse::Error(FsErrno::NotFound);
    let bytes = encode_canonical(&err).expect("encode");
    assert_eq!(decode_canonical::<FsResponse>(&bytes).expect("decode"), err);
}

#[test]
fn max_inline_write_fits_one_ipc_message() {
    // A maximal Write must encode within the 4 KiB IPC envelope.
    let req = FsRequest::Write {
        path: String::from("/some/reasonably/deep/path/notes.txt"),
        offset: u64::MAX,
        data: vec![0xABu8; FS_MAX_INLINE_BYTES],
    };
    let bytes = encode_canonical(&req).expect("encode");
    assert!(
        bytes.len() <= 4096,
        "max inline write encodes to {} B, must be <= 4096",
        bytes.len()
    );
}

#[test]
fn longest_accepted_write_fits_one_packet() {
    let req = FsRequest::Write {
        path: "p".repeat(FS_MAX_PATH),
        offset: u64::MAX,
        data: vec![0xCDu8; FS_MAX_INLINE_BYTES],
    };
    let bytes = encode_canonical(&req).expect("encode");
    assert!(bytes.len() <= 4096);
    let resp = FsResponse::Data {
        bytes: vec![0xCDu8; FS_MAX_INLINE_BYTES],
    };
    assert!(encode_canonical(&resp).expect("encode").len() <= 4096);
}

#[test]
fn every_request_and_response_round_trips() {
    let path = || String::from("/à.txt");
    for req in [
        FsRequest::Create { path: path() },
        FsRequest::Mkdir { path: path() },
        FsRequest::Delete { path: path() },
        FsRequest::Stat { path: path() },
    ] {
        let bytes = encode_canonical(&req).expect("encode");
        assert_eq!(decode_canonical::<FsRequest>(&bytes), Ok(req));
    }
    for resp in [
        FsResponse::Done,
        FsResponse::Created,
        FsResponse::Listing {
            names: vec![String::from("a"), String::from("b.txt")],
        },
        FsResponse::Stat {
            size: 70_000,
            is_dir: true,
        },
        FsResponse::Error(FsErrno::DirectoryNotEmpty),
    ] {
        let bytes = encode_canonical(&resp).expect("encode");
        assert_eq!(decode_canonical::<FsResponse>(&bytes), Ok(resp));
    }
}
