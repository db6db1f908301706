//! Encodings of the AI messages and of the stored AI configuration.

use vstd::prelude::*;

use crate::ai::{
    AiClassification, AiClassifyRequest, AiEmbedRequest, AiEmbedding, AiStreamHandle,
    AiStreamOpened, AiStreamRequest, AiSyscallNumber, AiSyscallRequest, AiSyscallResponse,
    AiTokenChunk, AiTranscribeRequest, AiTranscription, AudioBufferRef, AudioFormat, BackendKind,
    BackendStatusEvent, FloatBits, PcmEncoding, ScoredLabel,
};
use crate::codec::{put_u32, ByteReader};
use crate::config::{AiEndpointConfig, ConfigError};
use crate::wire::{put_varint, take_varint, Wire};

verus! {

impl BackendKind {
    /// The number of the variant.
    pub open spec fn tag(&self) -> nat {
        match self {
            BackendKind::RemoteGpu => 0,
            BackendKind::LocalCpu => 1,
        }
    }
}

impl Wire for BackendKind {
    open spec fn bytes(&self) -> Seq<u8> {
        crate::wire::varint(self.tag())
    }

    open spec fn same(&self, other: &Self) -> bool {
        *self == *other
    }

    proof fn prefix_free(&self, other: &Self, b: Seq<u8>) {
        crate::wire::lemma_varint_prefix(self.tag(), other.tag(), b);
    }

    fn put(&self, out: &mut Vec<u8>) {
        let n: u64 = match self {
            BackendKind::RemoteGpu => 0,
            BackendKind::LocalCpu => 1,
        };
        put_varint(out, n);
    }

    fn take(r: &mut ByteReader) -> (v: Option<Self>) {
        match take_varint(r, 1) {
            Some(0) => Some(BackendKind::RemoteGpu),
            Some(_) => Some(BackendKind::LocalCpu),
            None => None,
        }
    }
}

impl BackendStatusEvent {
    /// The fields in the order in which they are sent.
    pub open spec fn sent(&self) -> (BackendKind, (bool, bool)) {
        (self.backend, (self.healthy, self.degraded))
    }
}

impl Wire for BackendStatusEvent {
    open spec fn bytes(&self) -> Seq<u8> {
        self.sent().bytes()
    }

    open spec fn same(&self, other: &Self) -> bool {
        self.sent().same(&other.sent())
    }

    proof fn prefix_free(&self, other: &Self, b: Seq<u8>) {
        self.sent().prefix_free(&other.sent(), b);
    }

    fn put(&self, out: &mut Vec<u8>) {
        let ghost start = out@;
        self.backend.put(out);
        self.healthy.put(out);
        self.degraded.put(out);
        assert(out@ =~= start + self.bytes());
    }

    fn take(r: &mut ByteReader) -> (v: Option<Self>) {
        match <(BackendKind, (bool, bool))>::take(r) {
            Some(
                (backend, (healthy, degraded)),
            ) => Some(
                BackendStatusEvent { backend, healthy, degraded },
            ),
            None => None,
        }
    }
}

impl AiSyscallNumber {
    /// The number of the variant.
    pub open spec fn tag(&self) -> nat {
        match self {
            AiSyscallNumber::Invoke => 0,
            AiSyscallNumber::Stream => 1,
            AiSyscallNumber::Embed => 2,
            AiSyscallNumber::Classify => 3,
            AiSyscallNumber::Transcribe => 4,
        }
    }
}

impl Wire for AiSyscallNumber {
    open spec fn bytes(&self) -> Seq<u8> {
        crate::wire::varint(self.tag())
    }

    open spec fn same(&self, other: &Self) -> bool {
        *self == *other
    }

    proof fn prefix_free(&self, other: &Self, b: Seq<u8>) {
        crate::wire::lemma_varint_prefix(self.tag(), other.tag(), b);
    }

    fn put(&self, out: &mut Vec<u8>) {
        let n: u64 = match self {
            AiSyscallNumber::Invoke => 0,
            AiSyscallNumber::Stream => 1,
            AiSyscallNumber::Embed => 2,
            AiSyscallNumber::Classify => 3,
            AiSyscallNumber::Transcribe => 4,
        };
        put_varint(out, n);
    }

    fn take(r: &mut ByteReader) -> (v: Option<Self>) {
        match take_varint(r, 4) {
            Some(0) => Some(AiSyscallNumber::Invoke),
            Some(1) => Some(AiSyscallNumber::Stream),
            Some(2) => Some(AiSyscallNumber::Embed),
            Some(3) => Some(AiSyscallNumber::Classify),
            Some(_) => Some(AiSyscallNumber::Transcribe),
            None => None,
        }
    }
}

impl AiSyscallRequest {
    /// The fields in the order in which they are sent.
    pub open spec fn sent(&self) -> (
        AiSyscallNumber,
        ([u8; 16], (Vec<u8>, (Vec<u8>, (u64, u64)))),
    ) {
        (
            self.syscall,
            (self.model_id_bytes, (self.capability, (self.input_data, (self.request_id, self.caller_pid)))),
        )
    }
}

impl Wire for AiSyscallRequest {
    open spec fn bytes(&self) -> Seq<u8> {
        self.sent().bytes()
    }

    open spec fn same(&self, other: &Self) -> bool {
        self.sent().same(&other.sent())
    }

    proof fn prefix_free(&self, other: &Self, b: Seq<u8>) {
        self.sent().prefix_free(&other.sent(), b);
    }

    fn put(&self, out: &mut Vec<u8>) {
        let ghost start = out@;
        self.syscall.put(out);
        self.model_id_bytes.put(out);
        self.capability.put(out);
        self.input_data.put(out);
        self.request_id.put(out);
        self.caller_pid.put(out);
        assert(out@ =~= start + self.bytes());
    }

    fn take(r: &mut ByteReader) -> (v: Option<Self>) {
        match <(AiSyscallNumber, ([u8; 16], (Vec<u8>, (Vec<u8>, (u64, u64)))))>::take(r) {
            Some(
                (syscall, (model_id_bytes, (capability, (input_data, (request_id, caller_pid))))),
            ) => Some(
                AiSyscallRequest {
                    syscall,
                    model_id_bytes,
                    capability,
                    input_data,
                    request_id,
                    caller_pid,
                },
            ),
            None => None,
        }
    }
}

impl AiSyscallResponse {
    /// The fields in the order in which they are sent.
    pub open spec fn sent(&self) -> (u64, (bool, (Vec<u8>, (u64, Option<String>)))) {
        (self.request_id, (self.success, (self.output_data, (self.latency_us, self.error_message))))
    }
}

impl Wire for AiSyscallResponse {
    open spec fn bytes(&self) -> Seq<u8> {
        self.sent().bytes()
    }

    open spec fn same(&self, other: &Self) -> bool {
        self.sent().same(&other.sent())
    }

    proof fn prefix_free(&self, other: &Self, b: Seq<u8>) {
        self.sent().prefix_free(&other.sent(), b);
    }

    fn put(&self, out: &mut Vec<u8>) {
        let ghost start = out@;
        self.request_id.put(out);
        self.success.put(out);
        self.output_data.put(out);
        self.latency_us.put(out);
        self.error_message.put(out);
        assert(out@ =~= start + self.bytes());
    }

    fn take(r: &mut ByteReader) -> (v: Option<Self>) {
        match <(u64, (bool, (Vec<u8>, (u64, Option<String>))))>::take(r) {
            Some(
                (request_id, (success, (output_data, (latency_us, error_message)))),
            ) => Some(
                AiSyscallResponse { request_id, success, output_data, latency_us, error_message },
            ),
            None => None,
        }
    }
}

impl AiStreamHandle {
    /// The fields in the order in which they are sent.
    pub open spec fn sent(&self) -> u64 {
        self.0
    }
}

impl Wire for AiStreamHandle {
    open spec fn bytes(&self) -> Seq<u8> {
        self.sent().bytes()
    }

    open spec fn same(&self, other: &Self) -> bool {
        self.sent().same(&other.sent())
    }

    proof fn prefix_free(&self, other: &Self, b: Seq<u8>) {
        self.sent().prefix_free(&other.sent(), b);
    }

    fn put(&self, out: &mut Vec<u8>) {
        self.0.put(out);
    }

    fn take(r: &mut ByteReader) -> (v: Option<Self>) {
        match u64::take(r) {
            Some(x) => Some(AiStreamHandle(x)),
            None => None,
        }
    }
}

impl AiStreamRequest {
    /// The fields in the order in which they are sent.
    pub open spec fn sent(&self) -> ([u8; 16], (Vec<u8>, (Vec<u8>, (u64, (u64, u32))))) {
        (
            self.model_id_bytes,
            (self.capability, (self.input_data, (self.request_id, (self.caller_pid, self.max_tokens)))),
        )
    }
}

impl Wire for AiStreamRequest {
    open spec fn bytes(&self) -> Seq<u8> {
        self.sent().bytes()
    }

    open spec fn same(&self, other: &Self) -> bool {
        self.sent().same(&other.sent())
    }

    proof fn prefix_free(&self, other: &Self, b: Seq<u8>) {
        self.sent().prefix_free(&other.sent(), b);
    }

    fn put(&self, out: &mut Vec<u8>) {
        let ghost start = out@;
        self.model_id_bytes.put(out);
        self.capability.put(out);
        self.input_data.put(out);
        self.request_id.put(out);
        self.caller_pid.put(out);
        self.max_tokens.put(out);
        assert(out@ =~= start + self.bytes());
    }

    fn take(r: &mut ByteReader) -> (v: Option<Self>) {
        match <([u8; 16], (Vec<u8>, (Vec<u8>, (u64, (u64, u32)))))>::take(r) {
            Some(
                (model_id_bytes, (capability, (input_data, (request_id, (caller_pid, max_tokens))))),
            ) => Some(
                AiStreamRequest {
                    model_id_bytes,
                    capability,
                    input_data,
                    request_id,
                    caller_pid,
                    max_tokens,
                },
            ),
            None => None,
        }
    }
}

impl AiStreamOpened {
    /// The fields in the order in which they are sent.
    pub open spec fn sent(&self) -> (u64, (bool, (Option<AiStreamHandle>, Option<String>))) {
        (self.request_id, (self.success, (self.handle, self.error_message)))
    }
}

impl Wire for AiStreamOpened {
    open spec fn bytes(&self) -> Seq<u8> {
        self.sent().bytes()
    }

    open spec fn same(&self, other: &Self) -> bool {
        self.sent().same(&other.sent())
    }

    proof fn prefix_free(&self, other: &Self, b: Seq<u8>) {
        self.sent().prefix_free(&other.sent(), b);
    }

    fn put(&self, out: &mut Vec<u8>) {
        let ghost start = out@;
        self.request_id.put(out);
        self.success.put(out);
        self.handle.put(out);
        self.error_message.put(out);
        assert(out@ =~= start + self.bytes());
    }

    fn take(r: &mut ByteReader) -> (v: Option<Self>) {
        match <(u64, (bool, (Option<AiStreamHandle>, Option<String>)))>::take(r) {
            Some(
                (request_id, (success, (handle, error_message))),
            ) => Some(
                AiStreamOpened { request_id, success, handle, error_message },
            ),
            None => None,
        }
    }
}

impl AiTokenChunk {
    /// The fields in the order in which they are sent.
    pub open spec fn sent(&self) -> (AiStreamHandle, (u64, (u32, (u32, (Vec<u8>, bool))))) {
        (self.handle, (self.request_id, (self.seq, (self.token, (self.text, self.is_last)))))
    }
}

impl Wire for AiTokenChunk {
    open spec fn bytes(&self) -> Seq<u8> {
        self.sent().bytes()
    }

    open spec fn same(&self, other: &Self) -> bool {
        self.sent().same(&other.sent())
    }

    proof fn prefix_free(&self, other: &Self, b: Seq<u8>) {
        self.sent().prefix_free(&other.sent(), b);
    }

    fn put(&self, out: &mut Vec<u8>) {
        let ghost start = out@;
        self.handle.put(out);
        self.request_id.put(out);
        self.seq.put(out);
        self.token.put(out);
        self.text.put(out);
        self.is_last.put(out);
        assert(out@ =~= start + self.bytes());
    }

    fn take(r: &mut ByteReader) -> (v: Option<Self>) {
        match <(AiStreamHandle, (u64, (u32, (u32, (Vec<u8>, bool)))))>::take(r) {
            Some(
                (handle, (request_id, (seq, (token, (text, is_last))))),
            ) => Some(
                AiTokenChunk { handle, request_id, seq, token, text, is_last },
            ),
            None => None,
        }
    }
}

impl AiEmbedRequest {
    /// The fields in the order in which they are sent.
    pub open spec fn sent(&self) -> ([u8; 16], (Vec<u8>, (Vec<u8>, (u64, (u64, bool))))) {
        (
            self.model_id_bytes,
            (self.capability, (self.input_data, (self.request_id, (self.caller_pid, self.normalize)))),
        )
    }
}

impl Wire for AiEmbedRequest {
    open spec fn bytes(&self) -> Seq<u8> {
        self.sent().bytes()
    }

    open spec fn same(&self, other: &Self) -> bool {
        self.sent().same(&other.sent())
    }

    proof fn prefix_free(&self, other: &Self, b: Seq<u8>) {
        self.sent().prefix_free(&other.sent(), b);
    }

    fn put(&self, out: &mut Vec<u8>) {
        let ghost start = out@;
        self.model_id_bytes.put(out);
        self.capability.put(out);
        self.input_data.put(out);
        self.request_id.put(out);
        self.caller_pid.put(out);
        self.normalize.put(out);
        assert(out@ =~= start + self.bytes());
    }

    fn take(r: &mut ByteReader) -> (v: Option<Self>) {
        match <([u8; 16], (Vec<u8>, (Vec<u8>, (u64, (u64, bool)))))>::take(r) {
            Some(
                (model_id_bytes, (capability, (input_data, (request_id, (caller_pid, normalize))))),
            ) => Some(
                AiEmbedRequest {
                    model_id_bytes,
                    capability,
                    input_data,
                    request_id,
                    caller_pid,
                    normalize,
                },
            ),
            None => None,
        }
    }
}

/// The bits are sent as four bytes, least significant first.
impl Wire for FloatBits {
    open spec fn bytes(&self) -> Seq<u8> {
        crate::codec::le_bytes(self.0 as nat, 4)
    }

    open spec fn same(&self, other: &Self) -> bool {
        *self == *other
    }

    proof fn prefix_free(&self, other: &Self, b: Seq<u8>) {
        crate::codec::lemma_limits();
        crate::codec::lemma_le_len(self.0 as nat, 4);
        crate::codec::lemma_le_len(other.0 as nat, 4);
        crate::codec::lemma_le_round_trip(self.0 as nat, 4);
        crate::codec::lemma_le_round_trip(other.0 as nat, 4);
    }

    fn put(&self, out: &mut Vec<u8>) {
        put_u32(out, self.0);
    }

    fn take(r: &mut ByteReader) -> (v: Option<Self>) {
        let ghost rest = r.rest();
        match r.le(4) {
            Some(n) => {
                proof {
                    crate::codec::lemma_limits();
                    crate::codec::lemma_le_value_bound(rest.take(4));
                    crate::codec::lemma_le_of_value(rest.take(4));
                    assert(rest == rest.take(4) + rest.skip(4));
                }
                Some(FloatBits(n as u32))
            },
            None => {
                proof {
                    assert forall|x: Self| !crate::wire::starts(rest, #[trigger] x.bytes()) by {
                        crate::codec::lemma_le_len(x.0 as nat, 4);
                    }
                }
                None
            },
        }
    }
}

impl AiEmbedding {
    /// The fields in the order in which they are sent.
    pub open spec fn sent(&self) -> (u64, (bool, (Vec<FloatBits>, Option<String>))) {
        (self.request_id, (self.success, (self.vector, self.error_message)))
    }
}

impl Wire for AiEmbedding {
    open spec fn bytes(&self) -> Seq<u8> {
        self.sent().bytes()
    }

    open spec fn same(&self, other: &Self) -> bool {
        self.sent().same(&other.sent())
    }

    proof fn prefix_free(&self, other: &Self, b: Seq<u8>) {
        self.sent().prefix_free(&other.sent(), b);
    }

    fn put(&self, out: &mut Vec<u8>) {
        let ghost start = out@;
        self.request_id.put(out);
        self.success.put(out);
        self.vector.put(out);
        self.error_message.put(out);
        assert(out@ =~= start + self.bytes());
    }

    fn take(r: &mut ByteReader) -> (v: Option<Self>) {
        match <(u64, (bool, (Vec<FloatBits>, Option<String>)))>::take(r) {
            Some(
                (request_id, (success, (vector, error_message))),
            ) => Some(
                AiEmbedding { request_id, success, vector, error_message },
            ),
            None => None,
        }
    }
}

impl AiClassifyRequest {
    /// The fields in the order in which they are sent.
    pub open spec fn sent(&self) -> ([u8; 16], (Vec<u8>, (Vec<u8>, (u64, (u64, u32))))) {
        (
            self.model_id_bytes,
            (self.capability, (self.input_data, (self.request_id, (self.caller_pid, self.top_k)))),
        )
    }
}

impl Wire for AiClassifyRequest {
    open spec fn bytes(&self) -> Seq<u8> {
        self.sent().bytes()
    }

    open spec fn same(&self, other: &Self) -> bool {
        self.sent().same(&other.sent())
    }

    proof fn prefix_free(&self, other: &Self, b: Seq<u8>) {
        self.sent().prefix_free(&other.sent(), b);
    }

    fn put(&self, out: &mut Vec<u8>) {
        let ghost start = out@;
        self.model_id_bytes.put(out);
        self.capability.put(out);
        self.input_data.put(out);
        self.request_id.put(out);
        self.caller_pid.put(out);
        self.top_k.put(out);
        assert(out@ =~= start + self.bytes());
    }

    fn take(r: &mut ByteReader) -> (v: Option<Self>) {
        match <([u8; 16], (Vec<u8>, (Vec<u8>, (u64, (u64, u32)))))>::take(r) {
            Some(
                (model_id_bytes, (capability, (input_data, (request_id, (caller_pid, top_k))))),
            ) => Some(
                AiClassifyRequest {
                    model_id_bytes,
                    capability,
                    input_data,
                    request_id,
                    caller_pid,
                    top_k,
                },
            ),
            None => None,
        }
    }
}

impl ScoredLabel {
    /// The fields in the order in which they are sent.
    pub open spec fn sent(&self) -> (String, FloatBits) {
        (self.label, self.score)
    }
}

impl Wire for ScoredLabel {
    open spec fn bytes(&self) -> Seq<u8> {
        self.sent().bytes()
    }

    open spec fn same(&self, other: &Self) -> bool {
        self.sent().same(&other.sent())
    }

    proof fn prefix_free(&self, other: &Self, b: Seq<u8>) {
        self.sent().prefix_free(&other.sent(), b);
    }

    fn put(&self, out: &mut Vec<u8>) {
        let ghost start = out@;
        self.label.put(out);
        self.score.put(out);
        assert(out@ =~= start + self.bytes());
    }

    fn take(r: &mut ByteReader) -> (v: Option<Self>) {
        match <(String, FloatBits)>::take(r) {
            Some((label, score)) => Some(ScoredLabel { label, score }),
            None => None,
        }
    }
}

impl AiClassification {
    /// The fields in the order in which they are sent.
    pub open spec fn sent(&self) -> (u64, (bool, (Vec<ScoredLabel>, Option<String>))) {
        (self.request_id, (self.success, (self.labels, self.error_message)))
    }
}

impl Wire for AiClassification {
    open spec fn bytes(&self) -> Seq<u8> {
        self.sent().bytes()
    }

    open spec fn same(&self, other: &Self) -> bool {
        self.sent().same(&other.sent())
    }

    proof fn prefix_free(&self, other: &Self, b: Seq<u8>) {
        self.sent().prefix_free(&other.sent(), b);
    }

    fn put(&self, out: &mut Vec<u8>) {
        let ghost start = out@;
        self.request_id.put(out);
        self.success.put(out);
        self.labels.put(out);
        self.error_message.put(out);
        assert(out@ =~= start + self.bytes());
    }

    fn take(r: &mut ByteReader) -> (v: Option<Self>) {
        match <(u64, (bool, (Vec<ScoredLabel>, Option<String>)))>::take(r) {
            Some(
                (request_id, (success, (labels, error_message))),
            ) => Some(
                AiClassification { request_id, success, labels, error_message },
            ),
            None => None,
        }
    }
}

impl PcmEncoding {
    /// The number of the variant.
    pub open spec fn tag(&self) -> nat {
        match self {
            PcmEncoding::S16Le => 0,
            PcmEncoding::F32Le => 1,
        }
    }
}

impl Wire for PcmEncoding {
    open spec fn bytes(&self) -> Seq<u8> {
        crate::wire::varint(self.tag())
    }

    open spec fn same(&self, other: &Self) -> bool {
        *self == *other
    }

    proof fn prefix_free(&self, other: &Self, b: Seq<u8>) {
        crate::wire::lemma_varint_prefix(self.tag(), other.tag(), b);
    }

    fn put(&self, out: &mut Vec<u8>) {
        let n: u64 = match self {
            PcmEncoding::S16Le => 0,
            PcmEncoding::F32Le => 1,
        };
        put_varint(out, n);
    }

    fn take(r: &mut ByteReader) -> (v: Option<Self>) {
        match take_varint(r, 1) {
            Some(0) => Some(PcmEncoding::S16Le),
            Some(_) => Some(PcmEncoding::F32Le),
            None => None,
        }
    }
}

impl AudioFormat {
    /// The fields in the order in which they are sent.
    pub open spec fn sent(&self) -> (u32, (u8, PcmEncoding)) {
        (self.sample_rate, (self.channels, self.encoding))
    }
}

impl Wire for AudioFormat {
    open spec fn bytes(&self) -> Seq<u8> {
        self.sent().bytes()
    }

    open spec fn same(&self, other: &Self) -> bool {
        self.sent().same(&other.sent())
    }

    proof fn prefix_free(&self, other: &Self, b: Seq<u8>) {
        self.sent().prefix_free(&other.sent(), b);
    }

    fn put(&self, out: &mut Vec<u8>) {
        let ghost start = out@;
        self.sample_rate.put(out);
        self.channels.put(out);
        self.encoding.put(out);
        assert(out@ =~= start + self.bytes());
    }

    fn take(r: &mut ByteReader) -> (v: Option<Self>) {
        match <(u32, (u8, PcmEncoding))>::take(r) {
            Some(
                (sample_rate, (channels, encoding)),
            ) => Some(
                AudioFormat { sample_rate, channels, encoding },
            ),
            None => None,
        }
    }
}

impl AudioBufferRef {
    /// The fields in the order in which they are sent.
    pub open spec fn sent(&self) -> (u64, (AudioFormat, u64)) {
        (self.handle, (self.format, self.len_bytes))
    }
}

impl Wire for AudioBufferRef {
    open spec fn bytes(&self) -> Seq<u8> {
        self.sent().bytes()
    }

    open spec fn same(&self, other: &Self) -> bool {
        self.sent().same(&other.sent())
    }

    proof fn prefix_free(&self, other: &Self, b: Seq<u8>) {
        self.sent().prefix_free(&other.sent(), b);
    }

    fn put(&self, out: &mut Vec<u8>) {
        let ghost start = out@;
        self.handle.put(out);
        self.format.put(out);
        self.len_bytes.put(out);
        assert(out@ =~= start + self.bytes());
    }

    fn take(r: &mut ByteReader) -> (v: Option<Self>) {
        match <(u64, (AudioFormat, u64))>::take(r) {
            Some(
                (handle, (format, len_bytes)),
            ) => Some(
                AudioBufferRef { handle, format, len_bytes },
            ),
            None => None,
        }
    }
}

impl AiTranscribeRequest {
    /// The fields in the order in which they are sent.
    pub open spec fn sent(&self) -> (
        [u8; 16],
        (Vec<u8>, (u64, (u64, (AudioBufferRef, Option<String>)))),
    ) {
        (
            self.model_id_bytes,
            (self.capability, (self.request_id, (self.caller_pid, (self.audio, self.language)))),
        )
    }
}

impl Wire for AiTranscribeRequest {
    open spec fn bytes(&self) -> Seq<u8> {
        self.sent().bytes()
    }

    open spec fn same(&self, other: &Self) -> bool {
        self.sent().same(&other.sent())
    }

    proof fn prefix_free(&self, other: &Self, b: Seq<u8>) {
        self.sent().prefix_free(&other.sent(), b);
    }

    fn put(&self, out: &mut Vec<u8>) {
        let ghost start = out@;
        self.model_id_bytes.put(out);
        self.capability.put(out);
        self.request_id.put(out);
        self.caller_pid.put(out);
        self.audio.put(out);
        self.language.put(out);
        assert(out@ =~= start + self.bytes());
    }

    fn take(r: &mut ByteReader) -> (v: Option<Self>) {
        match <([u8; 16], (Vec<u8>, (u64, (u64, (AudioBufferRef, Option<String>)))))>::take(r) {
            Some(
                (model_id_bytes, (capability, (request_id, (caller_pid, (audio, language))))),
            ) => Some(
                AiTranscribeRequest {
                    model_id_bytes,
                    capability,
                    request_id,
                    caller_pid,
                    audio,
                    language,
                },
            ),
            None => None,
        }
    }
}

impl AiTranscription {
    /// The fields in the order in which they are sent.
    pub open spec fn sent(&self) -> (u64, (bool, (String, (Option<String>, Option<String>)))) {
        (self.request_id, (self.success, (self.text, (self.language, self.error_message))))
    }
}

impl Wire for AiTranscription {
    open spec fn bytes(&self) -> Seq<u8> {
        self.sent().bytes()
    }

    open spec fn same(&self, other: &Self) -> bool {
        self.sent().same(&other.sent())
    }

    proof fn prefix_free(&self, other: &Self, b: Seq<u8>) {
        self.sent().prefix_free(&other.sent(), b);
    }

    fn put(&self, out: &mut Vec<u8>) {
        let ghost start = out@;
        self.request_id.put(out);
        self.success.put(out);
        self.text.put(out);
        self.language.put(out);
        self.error_message.put(out);
        assert(out@ =~= start + self.bytes());
    }

    fn take(r: &mut ByteReader) -> (v: Option<Self>) {
        match <(u64, (bool, (String, (Option<String>, Option<String>))))>::take(r) {
            Some(
                (request_id, (success, (text, (language, error_message)))),
            ) => Some(
                AiTranscription { request_id, success, text, language, error_message },
            ),
            None => None,
        }
    }
}

impl ConfigError {
    /// The number of the variant.
    pub open spec fn tag(&self) -> nat {
        match self {
            ConfigError::BadHost => 0,
            ConfigError::HostNotIpv4 => 1,
            ConfigError::BadPort => 2,
            ConfigError::BadModel => 3,
        }
    }
}

impl Wire for ConfigError {
    open spec fn bytes(&self) -> Seq<u8> {
        crate::wire::varint(self.tag())
    }

    open spec fn same(&self, other: &Self) -> bool {
        *self == *other
    }

    proof fn prefix_free(&self, other: &Self, b: Seq<u8>) {
        crate::wire::lemma_varint_prefix(self.tag(), other.tag(), b);
    }

    fn put(&self, out: &mut Vec<u8>) {
        let n: u64 = match self {
            ConfigError::BadHost => 0,
            ConfigError::HostNotIpv4 => 1,
            ConfigError::BadPort => 2,
            ConfigError::BadModel => 3,
        };
        put_varint(out, n);
    }

    fn take(r: &mut ByteReader) -> (v: Option<Self>) {
        match take_varint(r, 3) {
            Some(0) => Some(ConfigError::BadHost),
            Some(1) => Some(ConfigError::HostNotIpv4),
            Some(2) => Some(ConfigError::BadPort),
            Some(_) => Some(ConfigError::BadModel),
            None => None,
        }
    }
}

impl AiEndpointConfig {
    /// The fields in the order in which they are sent.
    pub open spec fn sent(&self) -> (String, (u16, String)) {
        (self.host, (self.port, self.model))
    }
}

impl Wire for AiEndpointConfig {
    open spec fn bytes(&self) -> Seq<u8> {
        self.sent().bytes()
    }

    open spec fn same(&self, other: &Self) -> bool {
        self.sent().same(&other.sent())
    }

    proof fn prefix_free(&self, other: &Self, b: Seq<u8>) {
        self.sent().prefix_free(&other.sent(), b);
    }

    fn put(&self, out: &mut Vec<u8>) {
        let ghost start = out@;
        self.host.put(out);
        self.port.put(out);
        self.model.put(out);
        assert(out@ =~= start + self.bytes());
    }

    fn take(r: &mut ByteReader) -> (v: Option<Self>) {
        match <(String, (u16, String))>::take(r) {
            Some((host, (port, model))) => Some(AiEndpointConfig { host, port, model }),
            None => None,
        }
    }
}

/// A status event takes three bytes.
pub proof fn law_status_events_take_three_bytes(e: BackendStatusEvent)
    ensures
        e.bytes().len() == 3,
{
    assert(crate::wire::varint(0).len() == 1 && crate::wire::varint(1).len() == 1);
}

} // verus!
