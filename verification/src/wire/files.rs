//! Encodings of the file-service messages.

use vstd::prelude::*;

use crate::codec::ByteReader;
use crate::fs_service::{FsErrno, FsRequest, FsResponse};
use crate::wire::{put_varint, take_varint, Wire};

verus! {

impl FsErrno {
    /// The number of the variant.
    pub open spec fn tag(&self) -> nat {
        match self {
            FsErrno::NotFound => 0,
            FsErrno::AlreadyExists => 1,
            FsErrno::InvalidArgument => 2,
            FsErrno::TooLarge => 3,
            FsErrno::Integrity => 4,
            FsErrno::Io => 5,
            FsErrno::NotMounted => 6,
            FsErrno::DirectoryNotEmpty => 7,
        }
    }
}

impl Wire for FsErrno {
    open spec fn bytes(&self) -> Seq<u8> {
        crate::wire::varint(self.tag())
    }

    open spec fn same(&self, other: &Self) -> bool {
        *self == *other
    }

    proof fn prefix_free(&self, other: &Self, b: Seq<u8>) {
        crate::wire::lemma_varint_prefix(self.tag(), other.tag(), b);
    }

    fn put(&self, out: &mut Vec<u8>) {
        let n: u64 = match self {
            FsErrno::NotFound => 0,
            FsErrno::AlreadyExists => 1,
            FsErrno::InvalidArgument => 2,
            FsErrno::TooLarge => 3,
            FsErrno::Integrity => 4,
            FsErrno::Io => 5,
            FsErrno::NotMounted => 6,
            FsErrno::DirectoryNotEmpty => 7,
        };
        put_varint(out, n);
    }

    fn take(r: &mut ByteReader) -> (v: Option<Self>) {
        match take_varint(r, 7) {
            Some(0) => Some(FsErrno::NotFound),
            Some(1) => Some(FsErrno::AlreadyExists),
            Some(2) => Some(FsErrno::InvalidArgument),
            Some(3) => Some(FsErrno::TooLarge),
            Some(4) => Some(FsErrno::Integrity),
            Some(5) => Some(FsErrno::Io),
            Some(6) => Some(FsErrno::NotMounted),
            Some(_) => Some(FsErrno::DirectoryNotEmpty),
            None => None,
        }
    }
}

impl FsRequest {
    /// The number of the variant.
    pub open spec fn tag(&self) -> nat {
        match self {
            FsRequest::Create { .. } => 0,
            FsRequest::Write { .. } => 1,
            FsRequest::Read { .. } => 2,
            FsRequest::Mkdir { .. } => 3,
            FsRequest::Delete { .. } => 4,
            FsRequest::ListDir { .. } => 5,
            FsRequest::Stat { .. } => 6,
            FsRequest::Sync => 7,
        }
    }

    /// The encoding of what the variant holds.
    pub open spec fn payload(&self) -> Seq<u8> {
        match self {
            FsRequest::Create { path } => path.bytes(),
            FsRequest::Write { path, offset, data } => (*path, (*offset, *data)).bytes(),
            FsRequest::Read { path, offset, len } => (*path, (*offset, *len)).bytes(),
            FsRequest::Mkdir { path } => path.bytes(),
            FsRequest::Delete { path } => path.bytes(),
            FsRequest::ListDir { path } => path.bytes(),
            FsRequest::Stat { path } => path.bytes(),
            FsRequest::Sync => Seq::empty(),
        }
    }
}

impl Wire for FsRequest {
    open spec fn bytes(&self) -> Seq<u8> {
        crate::wire::varint(self.tag()) + self.payload()
    }

    open spec fn same(&self, other: &Self) -> bool {
        match (self, other) {
            (FsRequest::Create { path }, FsRequest::Create { path: path_ }) => {
                path.same(path_)
            },
            (
                FsRequest::Write { path, offset, data },
                FsRequest::Write { path: path_, offset: offset_, data: data_ },
            ) => {
                path.same(path_) && offset.same(offset_) && data.same(data_)
            },
            (
                FsRequest::Read { path, offset, len },
                FsRequest::Read { path: path_, offset: offset_, len: len_ },
            ) => {
                path.same(path_) && offset.same(offset_) && len.same(len_)
            },
            (FsRequest::Mkdir { path }, FsRequest::Mkdir { path: path_ }) => {
                path.same(path_)
            },
            (FsRequest::Delete { path }, FsRequest::Delete { path: path_ }) => {
                path.same(path_)
            },
            (FsRequest::ListDir { path }, FsRequest::ListDir { path: path_ }) => {
                path.same(path_)
            },
            (FsRequest::Stat { path }, FsRequest::Stat { path: path_ }) => {
                path.same(path_)
            },
            (FsRequest::Sync, FsRequest::Sync) => true,
            _ => false,
        }
    }

    proof fn prefix_free(&self, other: &Self, b: Seq<u8>) {
        crate::wire::lemma_tags(b, self.tag(), self.payload(), other.tag(), other.payload());
        let c = b.skip(crate::wire::varint(self.tag()).len() as int);
        match (self, other) {
            (FsRequest::Create { path }, FsRequest::Create { path: path_ }) => {
                path.prefix_free(path_, c);
            },
            (
                FsRequest::Write { path, offset, data },
                FsRequest::Write { path: path_, offset: offset_, data: data_ },
            ) => {
                (*path, (*offset, *data)).prefix_free(&(*path_, (*offset_, *data_)), c);
            },
            (
                FsRequest::Read { path, offset, len },
                FsRequest::Read { path: path_, offset: offset_, len: len_ },
            ) => {
                (*path, (*offset, *len)).prefix_free(&(*path_, (*offset_, *len_)), c);
            },
            (FsRequest::Mkdir { path }, FsRequest::Mkdir { path: path_ }) => {
                path.prefix_free(path_, c);
            },
            (FsRequest::Delete { path }, FsRequest::Delete { path: path_ }) => {
                path.prefix_free(path_, c);
            },
            (FsRequest::ListDir { path }, FsRequest::ListDir { path: path_ }) => {
                path.prefix_free(path_, c);
            },
            (FsRequest::Stat { path }, FsRequest::Stat { path: path_ }) => {
                path.prefix_free(path_, c);
            },
            _ => {},
        }
    }

    fn put(&self, out: &mut Vec<u8>) {
        let ghost start = out@;
        match self {
            FsRequest::Create { path } => {
                put_varint(out, 0);
                path.put(out);
                assert(out@ =~= start + self.bytes());
            },
            FsRequest::Write { path, offset, data } => {
                put_varint(out, 1);
                path.put(out);
                offset.put(out);
                data.put(out);
                assert(out@ =~= start + self.bytes());
            },
            FsRequest::Read { path, offset, len } => {
                put_varint(out, 2);
                path.put(out);
                offset.put(out);
                len.put(out);
                assert(out@ =~= start + self.bytes());
            },
            FsRequest::Mkdir { path } => {
                put_varint(out, 3);
                path.put(out);
                assert(out@ =~= start + self.bytes());
            },
            FsRequest::Delete { path } => {
                put_varint(out, 4);
                path.put(out);
                assert(out@ =~= start + self.bytes());
            },
            FsRequest::ListDir { path } => {
                put_varint(out, 5);
                path.put(out);
                assert(out@ =~= start + self.bytes());
            },
            FsRequest::Stat { path } => {
                put_varint(out, 6);
                path.put(out);
                assert(out@ =~= start + self.bytes());
            },
            FsRequest::Sync => {
                put_varint(out, 7);
                assert(crate::wire::varint(7) + Seq::<u8>::empty() =~= crate::wire::varint(7));
            },
        }
    }

    fn take(r: &mut ByteReader) -> (v: Option<Self>) {
        let ghost rest = r.rest();
        let n: u64 = match take_varint(r, 7) {
            Some(n) => n,
            None => {
                proof {
                    assert forall|x: Self| !crate::wire::starts(rest, #[trigger] x.bytes()) by {
                        crate::wire::lemma_starts_both(rest, crate::wire::varint(x.tag()), x.payload());
                    }
                }
                return None;
            },
        };
        let ghost rest1 = r.rest();
        proof {
            assert forall|x: Self| crate::wire::starts(rest, #[trigger] x.bytes()) implies x.tag() == n
                && crate::wire::starts(rest1, x.payload()) by {
                crate::wire::lemma_tag(rest, n as nat, rest1, x.tag(), x.payload());
            }
        }
        match n {
            0 => match String::take(r) {
                Some(path) => {
                    let v = FsRequest::Create { path };
                    proof {
                        crate::lists::lemma_assoc(crate::wire::varint(0), v.payload(), r.rest());
                    }
                    Some(v)
                },
                None => None,
            },
            1 => match <(String, (u64, Vec<u8>))>::take(r) {
                Some((path, (offset, data))) => {
                    let v = FsRequest::Write { path, offset, data };
                    proof {
                        crate::lists::lemma_assoc(crate::wire::varint(1), v.payload(), r.rest());
                    }
                    Some(v)
                },
                None => None,
            },
            2 => match <(String, (u64, u64))>::take(r) {
                Some((path, (offset, len))) => {
                    let v = FsRequest::Read { path, offset, len };
                    proof {
                        crate::lists::lemma_assoc(crate::wire::varint(2), v.payload(), r.rest());
                    }
                    Some(v)
                },
                None => None,
            },
            3 => match String::take(r) {
                Some(path) => {
                    let v = FsRequest::Mkdir { path };
                    proof {
                        crate::lists::lemma_assoc(crate::wire::varint(3), v.payload(), r.rest());
                    }
                    Some(v)
                },
                None => None,
            },
            4 => match String::take(r) {
                Some(path) => {
                    let v = FsRequest::Delete { path };
                    proof {
                        crate::lists::lemma_assoc(crate::wire::varint(4), v.payload(), r.rest());
                    }
                    Some(v)
                },
                None => None,
            },
            5 => match String::take(r) {
                Some(path) => {
                    let v = FsRequest::ListDir { path };
                    proof {
                        crate::lists::lemma_assoc(crate::wire::varint(5), v.payload(), r.rest());
                    }
                    Some(v)
                },
                None => None,
            },
            6 => match String::take(r) {
                Some(path) => {
                    let v = FsRequest::Stat { path };
                    proof {
                        crate::lists::lemma_assoc(crate::wire::varint(6), v.payload(), r.rest());
                    }
                    Some(v)
                },
                None => None,
            },
            _ => {
                assert(crate::wire::varint(7) + Seq::<u8>::empty() =~= crate::wire::varint(7));
                Some(FsRequest::Sync)
            },
        }
    }
}

impl FsResponse {
    /// The number of the variant.
    pub open spec fn tag(&self) -> nat {
        match self {
            FsResponse::Done => 0,
            FsResponse::Created => 1,
            FsResponse::Data { .. } => 2,
            FsResponse::Listing { .. } => 3,
            FsResponse::Stat { .. } => 4,
            FsResponse::Error(..) => 5,
        }
    }

    /// The encoding of what the variant holds.
    pub open spec fn payload(&self) -> Seq<u8> {
        match self {
            FsResponse::Done => Seq::empty(),
            FsResponse::Created => Seq::empty(),
            FsResponse::Data { bytes } => bytes.bytes(),
            FsResponse::Listing { names } => names.bytes(),
            FsResponse::Stat { size, is_dir } => (*size, *is_dir).bytes(),
            FsResponse::Error(errno) => errno.bytes(),
        }
    }
}

impl Wire for FsResponse {
    open spec fn bytes(&self) -> Seq<u8> {
        crate::wire::varint(self.tag()) + self.payload()
    }

    open spec fn same(&self, other: &Self) -> bool {
        match (self, other) {
            (FsResponse::Done, FsResponse::Done) => true,
            (FsResponse::Created, FsResponse::Created) => true,
            (FsResponse::Data { bytes }, FsResponse::Data { bytes: bytes_ }) => {
                bytes.same(bytes_)
            },
            (FsResponse::Listing { names }, FsResponse::Listing { names: names_ }) => {
                names.same(names_)
            },
            (
                FsResponse::Stat { size, is_dir },
                FsResponse::Stat { size: size_, is_dir: is_dir_ },
            ) => {
                size.same(size_) && is_dir.same(is_dir_)
            },
            (FsResponse::Error(errno), FsResponse::Error(errno_)) => {
                errno.same(errno_)
            },
            _ => false,
        }
    }

    proof fn prefix_free(&self, other: &Self, b: Seq<u8>) {
        crate::wire::lemma_tags(b, self.tag(), self.payload(), other.tag(), other.payload());
        let c = b.skip(crate::wire::varint(self.tag()).len() as int);
        match (self, other) {
            (FsResponse::Data { bytes }, FsResponse::Data { bytes: bytes_ }) => {
                bytes.prefix_free(bytes_, c);
            },
            (FsResponse::Listing { names }, FsResponse::Listing { names: names_ }) => {
                names.prefix_free(names_, c);
            },
            (
                FsResponse::Stat { size, is_dir },
                FsResponse::Stat { size: size_, is_dir: is_dir_ },
            ) => {
                (*size, *is_dir).prefix_free(&(*size_, *is_dir_), c);
            },
            (FsResponse::Error(errno), FsResponse::Error(errno_)) => {
                errno.prefix_free(errno_, c);
            },
            _ => {},
        }
    }

    fn put(&self, out: &mut Vec<u8>) {
        let ghost start = out@;
        match self {
            FsResponse::Done => {
                put_varint(out, 0);
                assert(crate::wire::varint(0) + Seq::<u8>::empty() =~= crate::wire::varint(0));
            },
            FsResponse::Created => {
                put_varint(out, 1);
                assert(crate::wire::varint(1) + Seq::<u8>::empty() =~= crate::wire::varint(1));
            },
            FsResponse::Data { bytes } => {
                put_varint(out, 2);
                bytes.put(out);
                assert(out@ =~= start + self.bytes());
            },
            FsResponse::Listing { names } => {
                put_varint(out, 3);
                names.put(out);
                assert(out@ =~= start + self.bytes());
            },
            FsResponse::Stat { size, is_dir } => {
                put_varint(out, 4);
                size.put(out);
                is_dir.put(out);
                assert(out@ =~= start + self.bytes());
            },
            FsResponse::Error(errno) => {
                put_varint(out, 5);
                errno.put(out);
                assert(out@ =~= start + self.bytes());
            },
        }
    }

    fn take(r: &mut ByteReader) -> (v: Option<Self>) {
        let ghost rest = r.rest();
        let n: u64 = match take_varint(r, 5) {
            Some(n) => n,
            None => {
                proof {
                    assert forall|x: Self| !crate::wire::starts(rest, #[trigger] x.bytes()) by {
                        crate::wire::lemma_starts_both(rest, crate::wire::varint(x.tag()), x.payload());
                    }
                }
                return None;
            },
        };
        let ghost rest1 = r.rest();
        proof {
            assert forall|x: Self| crate::wire::starts(rest, #[trigger] x.bytes()) implies x.tag() == n
                && crate::wire::starts(rest1, x.payload()) by {
                crate::wire::lemma_tag(rest, n as nat, rest1, x.tag(), x.payload());
            }
        }
        match n {
            0 => {
                assert(crate::wire::varint(0) + Seq::<u8>::empty() =~= crate::wire::varint(0));
                Some(FsResponse::Done)
            },
            1 => {
                assert(crate::wire::varint(1) + Seq::<u8>::empty() =~= crate::wire::varint(1));
                Some(FsResponse::Created)
            },
            2 => match <Vec<u8>>::take(r) {
                Some(bytes) => {
                    let v = FsResponse::Data { bytes };
                    proof {
                        crate::lists::lemma_assoc(crate::wire::varint(2), v.payload(), r.rest());
                    }
                    Some(v)
                },
                None => None,
            },
            3 => match <Vec<String>>::take(r) {
                Some(names) => {
                    let v = FsResponse::Listing { names };
                    proof {
                        crate::lists::lemma_assoc(crate::wire::varint(3), v.payload(), r.rest());
                    }
                    Some(v)
                },
                None => None,
            },
            4 => match <(u64, bool)>::take(r) {
                Some((size, is_dir)) => {
                    let v = FsResponse::Stat { size, is_dir };
                    proof {
                        crate::lists::lemma_assoc(crate::wire::varint(4), v.payload(), r.rest());
                    }
                    Some(v)
                },
                None => None,
            },
            _ => match FsErrno::take(r) {
                Some(errno) => {
                    let v = FsResponse::Error(errno);
                    proof {
                        crate::lists::lemma_assoc(crate::wire::varint(5), v.payload(), r.rest());
                    }
                    Some(v)
                },
                None => None,
            },
        }
    }
}

/// A request whose path and payload the service accepts fits one 4 KiB packet.
pub proof fn law_requests_fit_a_packet(q: FsRequest)
    requires
        match q {
            FsRequest::Create { path } | FsRequest::Mkdir { path } | FsRequest::Delete { path }
            | FsRequest::ListDir { path } | FsRequest::Stat { path } | FsRequest::Read {
                path,
                ..
            } => crate::strings::utf8(path@).len() <= crate::fs_service::FS_MAX_PATH,
            FsRequest::Write { path, data, .. } => crate::strings::utf8(path@).len()
                <= crate::fs_service::FS_MAX_PATH && data@.len()
                <= crate::fs_service::FS_MAX_INLINE_BYTES,
            FsRequest::Sync => true,
        },
    ensures
        q.bytes().len() <= 4096,
{
    crate::wire::lemma_varint_sizes();
    if let FsRequest::Write { data, .. } = q {
        crate::wire::lemma_all_bytes_len(data@, 1);
    }
}

/// Read data that the service hands out at once fits one 4 KiB packet.
pub proof fn law_read_data_fits_a_packet(p: FsResponse)
    requires
        p matches FsResponse::Data { bytes } && bytes@.len()
            <= crate::fs_service::FS_MAX_INLINE_BYTES,
    ensures
        p.bytes().len() <= 4096,
{
    crate::wire::lemma_varint_sizes();
    if let FsResponse::Data { bytes } = p {
        crate::wire::lemma_all_bytes_len(bytes@, 1);
    }
}

} // verus!
