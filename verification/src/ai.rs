//! AI backend vocabulary shared across the IPC boundary: backend status events and
//! the requests and replies of the AI system calls, with the bounds that the
//! kernel enforces on them.
//!
//! Floating-point data crosses the boundary as the bits of IEEE 754 single
//! precision values.

use vstd::prelude::*;

verus! {

/// The closed set of inference backends the runtime can route to.
///
/// Variant order is wire-stable (`RemoteGpu` = 0, `LocalCpu` = 1).
#[derive(Clone, Copy, Debug, PartialEq, Eq, Hash, Structural)]
pub enum BackendKind {
    /// A user-owned GPU machine reached over the network. Preferred when healthy.
    RemoteGpu,
    /// The on-device CPU inference engine, the last-resort fallback.
    LocalCpu,
}

impl BackendKind {
    /// The label of the backend.
    pub open spec fn name(self) -> Seq<char> {
        match self {
            BackendKind::RemoteGpu => "remote_gpu"@,
            BackendKind::LocalCpu => "local_cpu"@,
        }
    }

    /// Stable lowercase label for logs and audit fields.
    pub fn label(self) -> (r: &'static str)
        ensures
            r@ == self.name(),
    {
        match self {
            BackendKind::RemoteGpu => "remote_gpu",
            BackendKind::LocalCpu => "local_cpu",
        }
    }
}

/// A backend health-state transition, emitted by the runtime's health monitor
/// whenever a backend flips between healthy and unhealthy.
#[derive(Clone, Copy, Debug, PartialEq, Eq, Structural)]
pub struct BackendStatusEvent {
    /// Which backend changed state.
    pub backend: BackendKind,
    /// The new health state: `true` = the backend is believed able to serve
    /// requests, `false` = it is down/unreachable.
    pub healthy: bool,
    /// `true` when the backend serves with explicitly reduced performance
    /// expectations.
    pub degraded: bool,
}

// ---------------------------------------------------------------------------
// System call relay
// ---------------------------------------------------------------------------

/// Hard ceiling on AI relay payloads (4096 bytes).
pub const AI_MAX_PAYLOAD: usize = 4096;

/// AI syscall numbers, the kernel ABI contract.
///
/// | Number | Name | Purpose |
/// |--------|------|---------|
/// | 80 | `Invoke` | Single-turn text generation / completion |
/// | 81 | `Stream` | Streaming text generation |
/// | 82 | `Embed` | Dense vector embedding |
/// | 83 | `Classify` | Label classification |
/// | 84 | `Transcribe` | Speech-to-text |
///
/// On the wire the variant index (0–4) is used, so the variant order is
/// wire-stable.
#[derive(Clone, Copy, Debug, PartialEq, Eq, Hash, Structural)]
pub enum AiSyscallNumber {
    /// Syscall 80 — single-turn inference (request/response).
    Invoke,
    /// Syscall 81 — streaming inference (token-by-token delivery).
    Stream,
    /// Syscall 82 — dense vector embedding.
    Embed,
    /// Syscall 83 — multi-label classification.
    Classify,
    /// Syscall 84 — speech-to-text transcription.
    Transcribe,
}

impl AiSyscallNumber {
    /// The kernel syscall number.
    pub open spec fn number(self) -> u32 {
        match self {
            AiSyscallNumber::Invoke => 80,
            AiSyscallNumber::Stream => 81,
            AiSyscallNumber::Embed => 82,
            AiSyscallNumber::Classify => 83,
            AiSyscallNumber::Transcribe => 84,
        }
    }

    /// Returns the numeric kernel syscall number.
    pub fn as_u32(self) -> (r: u32)
        ensures
            r == self.number(),
            80 <= r <= 84,
    {
        match self {
            AiSyscallNumber::Invoke => 80,
            AiSyscallNumber::Stream => 81,
            AiSyscallNumber::Embed => 82,
            AiSyscallNumber::Classify => 83,
            AiSyscallNumber::Transcribe => 84,
        }
    }

    /// Tries to construct an [`AiSyscallNumber`] from a raw kernel syscall number.
    /// Returns `None` outside the AI range (80–84).
    pub fn from_u32(n: u32) -> (r: Option<Self>)
        ensures
            match r {
                Some(v) => v.number() == n,
                None => !(80 <= n <= 84),
            },
    {
        if n == 80 {
            Some(AiSyscallNumber::Invoke)
        } else if n == 81 {
            Some(AiSyscallNumber::Stream)
        } else if n == 82 {
            Some(AiSyscallNumber::Embed)
        } else if n == 83 {
            Some(AiSyscallNumber::Classify)
        } else if n == 84 {
            Some(AiSyscallNumber::Transcribe)
        } else {
            None
        }
    }
}

/// No two system calls have the same number, so a number names at most one.
pub proof fn law_syscall_numbers_are_distinct(a: AiSyscallNumber, b: AiSyscallNumber)
    ensures
        a.number() == b.number() ==> a == b,
{
}

/// A kernel→runtime AI syscall relay request.
#[derive(Clone, Debug, PartialEq, Eq)]
pub struct AiSyscallRequest {
    /// Which AI syscall was invoked.
    pub syscall: AiSyscallNumber,
    /// Compact 16-byte model identifier (zero-extended by the runtime).
    pub model_id_bytes: [u8; 16],
    /// Opaque session-capability bytes (validated service-side).
    pub capability: Vec<u8>,
    /// Opaque input payload (≤ [`AI_MAX_PAYLOAD`]).
    pub input_data: Vec<u8>,
    /// Caller-assigned monotonic request ID for end-to-end correlation.
    pub request_id: u64,
    /// PID of the process that issued the syscall (audit only).
    pub caller_pid: u64,
}

/// The runtime→kernel AI syscall relay response.
#[derive(Clone, Debug, PartialEq, Eq)]
pub struct AiSyscallResponse {
    /// Echoes [`AiSyscallRequest::request_id`] for correlation.
    pub request_id: u64,
    /// `true` if inference succeeded; `false` on any error.
    pub success: bool,
    /// Opaque output payload (≤ [`AI_MAX_PAYLOAD`]), empty on error.
    pub output_data: Vec<u8>,
    /// Wall-clock latency of the full relay dispatch in microseconds.
    pub latency_us: u64,
    /// Human-readable error description when `success` is `false`. Carries no
    /// caller content.
    pub error_message: Option<String>,
}

/// Whether an optional string holds the given text.
pub open spec fn holds(s: Option<String>, text: Seq<char>) -> bool {
    s matches Some(t) && t@ == text
}

impl AiSyscallResponse {
    /// Builds an error response for `request_id`.
    pub fn error(request_id: u64, latency_us: u64, message: &str) -> (r: Self)
        ensures
            r.request_id == request_id,
            !r.success,
            r.output_data@.len() == 0,
            r.latency_us == latency_us,
            holds(r.error_message, message@),
    {
        AiSyscallResponse {
            request_id,
            success: false,
            output_data: Vec::new(),
            latency_us,
            error_message: Some(message.to_owned()),
        }
    }
}

// ---------------------------------------------------------------------------
// Streaming
// ---------------------------------------------------------------------------

/// Hard ceiling on the number of tokens a single stream session may generate.
pub const AI_STREAM_MAX_TOKENS: u32 = 8192;

/// Hard ceiling on the decoded-text bytes a single [`AiTokenChunk`] may carry.
pub const AI_STREAM_CHUNK_MAX_TEXT: usize = 256;

/// An opaque handle to an open stream session.
#[derive(Clone, Copy, Debug, PartialEq, Eq, Hash, PartialOrd, Ord, Structural)]
pub struct AiStreamHandle(pub u64);

impl AiStreamHandle {
    /// Wraps a raw handle value.
    pub fn new(raw: u64) -> (r: Self)
        ensures
            r.0 == raw,
    {
        AiStreamHandle(raw)
    }

    /// The raw handle value.
    pub fn get(self) -> (r: u64)
        ensures
            r == self.0,
    {
        self.0
    }
}

/// Why an [`AiStreamRequest`] or [`AiTokenChunk`] was rejected.
#[derive(Clone, Copy, Debug, PartialEq, Eq, Structural)]
#[non_exhaustive]
pub enum AiStreamReject {
    /// `input_data` exceeds [`AI_MAX_PAYLOAD`].
    InputTooLarge,
    /// `capability` exceeds [`AI_MAX_PAYLOAD`].
    CapabilityTooLarge,
    /// `max_tokens` was zero — a stream must request at least one token.
    NoTokensRequested,
    /// `max_tokens` exceeds [`AI_STREAM_MAX_TOKENS`].
    TooManyTokens,
    /// A chunk's `text` exceeds [`AI_STREAM_CHUNK_MAX_TEXT`].
    ChunkTextTooLarge,
}

impl AiStreamReject {
    /// The message of a verdict.
    pub open spec fn text(self) -> Seq<char> {
        match self {
            AiStreamReject::InputTooLarge => "ai_stream: input payload exceeds AI_MAX_PAYLOAD"@,
            AiStreamReject::CapabilityTooLarge => "ai_stream: capability exceeds AI_MAX_PAYLOAD"@,
            AiStreamReject::NoTokensRequested => "ai_stream: max_tokens must be at least 1"@,
            AiStreamReject::TooManyTokens => "ai_stream: max_tokens exceeds AI_STREAM_MAX_TOKENS"@,
            AiStreamReject::ChunkTextTooLarge =>
                "ai_stream: chunk text exceeds AI_STREAM_CHUNK_MAX_TEXT"@,
        }
    }

    /// The message shown to a user.
    pub fn message(self) -> (r: &'static str)
        ensures
            r@ == self.text(),
    {
        match self {
            AiStreamReject::InputTooLarge => "ai_stream: input payload exceeds AI_MAX_PAYLOAD",
            AiStreamReject::CapabilityTooLarge => "ai_stream: capability exceeds AI_MAX_PAYLOAD",
            AiStreamReject::NoTokensRequested => "ai_stream: max_tokens must be at least 1",
            AiStreamReject::TooManyTokens => "ai_stream: max_tokens exceeds AI_STREAM_MAX_TOKENS",
            AiStreamReject::ChunkTextTooLarge =>
                "ai_stream: chunk text exceeds AI_STREAM_CHUNK_MAX_TEXT",
        }
    }
}

/// A request to open a stream session.
#[derive(Clone, Debug, PartialEq, Eq)]
pub struct AiStreamRequest {
    /// Compact 16-byte model identifier (zero-extended by the runtime).
    pub model_id_bytes: [u8; 16],
    /// Opaque session-capability bytes (validated service-side).
    pub capability: Vec<u8>,
    /// Opaque prompt payload (≤ [`AI_MAX_PAYLOAD`]), UTF-8 for text models.
    pub input_data: Vec<u8>,
    /// Caller-assigned monotonic request ID for end-to-end correlation.
    pub request_id: u64,
    /// PID of the process that issued the syscall (audit only).
    pub caller_pid: u64,
    /// Maximum number of tokens to generate (1..=[`AI_STREAM_MAX_TOKENS`]).
    pub max_tokens: u32,
}

impl AiStreamRequest {
    /// The first bound that the request violates, if any.
    pub open spec fn verdict(&self) -> Result<(), AiStreamReject> {
        if self.input_data@.len() > AI_MAX_PAYLOAD {
            Err(AiStreamReject::InputTooLarge)
        } else if self.capability@.len() > AI_MAX_PAYLOAD {
            Err(AiStreamReject::CapabilityTooLarge)
        } else if self.max_tokens == 0 {
            Err(AiStreamReject::NoTokensRequested)
        } else if self.max_tokens > AI_STREAM_MAX_TOKENS {
            Err(AiStreamReject::TooManyTokens)
        } else {
            Ok(())
        }
    }

    /// Validates the request against the ABI bounds the kernel enforces.
    ///
    /// # Errors
    ///
    /// An [`AiStreamReject`] naming the first bound violated.
    pub fn validate(&self) -> (r: Result<(), AiStreamReject>)
        ensures
            r == self.verdict(),
    {
        if self.input_data.len() > AI_MAX_PAYLOAD {
            return Err(AiStreamReject::InputTooLarge);
        }
        if self.capability.len() > AI_MAX_PAYLOAD {
            return Err(AiStreamReject::CapabilityTooLarge);
        }
        if self.max_tokens == 0 {
            return Err(AiStreamReject::NoTokensRequested);
        }
        if self.max_tokens > AI_STREAM_MAX_TOKENS {
            return Err(AiStreamReject::TooManyTokens);
        }
        Ok(())
    }
}

/// The runtime's reply to an [`AiStreamRequest`].
#[derive(Clone, Debug, PartialEq, Eq)]
pub struct AiStreamOpened {
    /// Echoes [`AiStreamRequest::request_id`] for correlation.
    pub request_id: u64,
    /// `true` if the session opened; `false` on any error.
    pub success: bool,
    /// The session handle when `success` is `true`, else `None`.
    pub handle: Option<AiStreamHandle>,
    /// Human-readable error description when `success` is `false`.
    pub error_message: Option<String>,
}

impl AiStreamOpened {
    /// A success reply carrying `handle`.
    pub fn ok(request_id: u64, handle: AiStreamHandle) -> (r: Self)
        ensures
            r.request_id == request_id,
            r.success,
            r.handle == Some(handle),
            r.error_message is None,
    {
        AiStreamOpened { request_id, success: true, handle: Some(handle), error_message: None }
    }

    /// An error reply (no handle).
    pub fn error(request_id: u64, message: &str) -> (r: Self)
        ensures
            r.request_id == request_id,
            !r.success,
            r.handle is None,
            holds(r.error_message, message@),
    {
        AiStreamOpened {
            request_id,
            success: false,
            handle: None,
            error_message: Some(message.to_owned()),
        }
    }
}

/// One streamed token of a stream session.
#[derive(Clone, Debug, PartialEq, Eq)]
pub struct AiTokenChunk {
    /// The session this chunk belongs to.
    pub handle: AiStreamHandle,
    /// Echoes [`AiStreamRequest::request_id`] for correlation.
    pub request_id: u64,
    /// Zero-based position of this token within the session.
    pub seq: u32,
    /// The generated token (vocabulary index).
    pub token: u32,
    /// Incrementally detokenized UTF-8 bytes (≤ [`AI_STREAM_CHUNK_MAX_TEXT`]).
    pub text: Vec<u8>,
    /// `true` if this is the final token of the session.
    pub is_last: bool,
}

impl AiTokenChunk {
    /// Builds a token chunk.
    pub fn new(
        handle: AiStreamHandle,
        request_id: u64,
        seq: u32,
        token: u32,
        text: Vec<u8>,
        is_last: bool,
    ) -> (r: Self)
        ensures
            r == (AiTokenChunk { handle, request_id, seq, token, text, is_last }),
    {
        AiTokenChunk { handle, request_id, seq, token, text, is_last }
    }

    /// Validates the chunk's `text` against [`AI_STREAM_CHUNK_MAX_TEXT`].
    ///
    /// # Errors
    ///
    /// [`AiStreamReject::ChunkTextTooLarge`] if the text is over the bound.
    pub fn validate(&self) -> (r: Result<(), AiStreamReject>)
        ensures
            r == (if self.text@.len() > AI_STREAM_CHUNK_MAX_TEXT {
                Err::<(), AiStreamReject>(AiStreamReject::ChunkTextTooLarge)
            } else {
                Ok(())
            }),
    {
        if self.text.len() > AI_STREAM_CHUNK_MAX_TEXT {
            return Err(AiStreamReject::ChunkTextTooLarge);
        }
        Ok(())
    }
}

// ---------------------------------------------------------------------------
// Embedding
// ---------------------------------------------------------------------------

/// Hard ceiling on an embedding vector's dimension.
pub const AI_EMBED_MAX_DIM: usize = 8192;

/// Why an [`AiEmbedRequest`] or [`AiEmbedding`] was rejected.
#[derive(Clone, Copy, Debug, PartialEq, Eq, Structural)]
#[non_exhaustive]
pub enum AiEmbedReject {
    /// `input_data` exceeds [`AI_MAX_PAYLOAD`].
    InputTooLarge,
    /// `capability` exceeds [`AI_MAX_PAYLOAD`].
    CapabilityTooLarge,
    /// The embedding vector exceeds [`AI_EMBED_MAX_DIM`] dimensions.
    DimTooLarge,
}

impl AiEmbedReject {
    /// The message of a verdict.
    pub open spec fn text(self) -> Seq<char> {
        match self {
            AiEmbedReject::InputTooLarge => "ai_embed: input payload exceeds AI_MAX_PAYLOAD"@,
            AiEmbedReject::CapabilityTooLarge => "ai_embed: capability exceeds AI_MAX_PAYLOAD"@,
            AiEmbedReject::DimTooLarge => "ai_embed: embedding dimension exceeds AI_EMBED_MAX_DIM"@,
        }
    }

    /// The message shown to a user.
    pub fn message(self) -> (r: &'static str)
        ensures
            r@ == self.text(),
    {
        match self {
            AiEmbedReject::InputTooLarge => "ai_embed: input payload exceeds AI_MAX_PAYLOAD",
            AiEmbedReject::CapabilityTooLarge => "ai_embed: capability exceeds AI_MAX_PAYLOAD",
            AiEmbedReject::DimTooLarge => "ai_embed: embedding dimension exceeds AI_EMBED_MAX_DIM",
        }
    }
}

/// A request to compute a dense embedding for a piece of text.
#[derive(Clone, Debug, PartialEq, Eq)]
pub struct AiEmbedRequest {
    /// Compact 16-byte model identifier (zero-extended by the runtime).
    pub model_id_bytes: [u8; 16],
    /// Opaque session-capability bytes (validated service-side).
    pub capability: Vec<u8>,
    /// UTF-8 text to embed (≤ [`AI_MAX_PAYLOAD`]).
    pub input_data: Vec<u8>,
    /// Caller-assigned monotonic request ID for end-to-end correlation.
    pub request_id: u64,
    /// PID of the process that issued the syscall (audit only).
    pub caller_pid: u64,
    /// When `true`, the runtime L2-normalizes the returned vector.
    pub normalize: bool,
}

impl AiEmbedRequest {
    /// The first bound that the request violates, if any.
    pub open spec fn verdict(&self) -> Result<(), AiEmbedReject> {
        if self.input_data@.len() > AI_MAX_PAYLOAD {
            Err(AiEmbedReject::InputTooLarge)
        } else if self.capability@.len() > AI_MAX_PAYLOAD {
            Err(AiEmbedReject::CapabilityTooLarge)
        } else {
            Ok(())
        }
    }

    /// Validates the request against the ABI bounds the kernel enforces.
    ///
    /// # Errors
    ///
    /// An [`AiEmbedReject`] naming the first bound violated.
    pub fn validate(&self) -> (r: Result<(), AiEmbedReject>)
        ensures
            r == self.verdict(),
    {
        if self.input_data.len() > AI_MAX_PAYLOAD {
            return Err(AiEmbedReject::InputTooLarge);
        }
        if self.capability.len() > AI_MAX_PAYLOAD {
            return Err(AiEmbedReject::CapabilityTooLarge);
        }
        Ok(())
    }
}

/// A single-precision value, by its IEEE 754 bits.
#[derive(Clone, Copy, Debug, PartialEq, Eq, Structural)]
pub struct FloatBits(pub u32);

/// The runtime's reply to an [`AiEmbedRequest`]: the dense embedding vector, or an
/// error.
#[derive(Clone, Debug, PartialEq, Eq)]
pub struct AiEmbedding {
    /// Echoes [`AiEmbedRequest::request_id`] for correlation.
    pub request_id: u64,
    /// `true` if embedding succeeded; `false` on any error.
    pub success: bool,
    /// The dense embedding (empty on error), at most [`AI_EMBED_MAX_DIM`] wide.
    pub vector: Vec<FloatBits>,
    /// Human-readable error description when `success` is `false`.
    pub error_message: Option<String>,
}

impl AiEmbedding {
    /// A success reply carrying `vector`.
    pub fn ok(request_id: u64, vector: Vec<FloatBits>) -> (r: Self)
        ensures
            r == (AiEmbedding { request_id, success: true, vector, error_message: None }),
    {
        AiEmbedding { request_id, success: true, vector, error_message: None }
    }

    /// An error reply (empty vector).
    pub fn error(request_id: u64, message: &str) -> (r: Self)
        ensures
            r.request_id == request_id,
            !r.success,
            r.vector@.len() == 0,
            holds(r.error_message, message@),
    {
        AiEmbedding {
            request_id,
            success: false,
            vector: Vec::new(),
            error_message: Some(message.to_owned()),
        }
    }

    /// The embedding dimension (vector length).
    pub fn dim(&self) -> (r: usize)
        ensures
            r == self.vector@.len(),
    {
        self.vector.len()
    }

    /// Validates the embedding's dimension against [`AI_EMBED_MAX_DIM`].
    ///
    /// # Errors
    ///
    /// [`AiEmbedReject::DimTooLarge`] if the vector is over the bound.
    pub fn validate(&self) -> (r: Result<(), AiEmbedReject>)
        ensures
            r == (if self.vector@.len() > AI_EMBED_MAX_DIM {
                Err::<(), AiEmbedReject>(AiEmbedReject::DimTooLarge)
            } else {
                Ok(())
            }),
    {
        if self.vector.len() > AI_EMBED_MAX_DIM {
            return Err(AiEmbedReject::DimTooLarge);
        }
        Ok(())
    }
}

// ---------------------------------------------------------------------------
// Classification
// ---------------------------------------------------------------------------

/// Hard ceiling on the number of `(label, score)` pairs a classification may
/// return.
pub const AI_CLASSIFY_MAX_LABELS: usize = 256;

/// Hard ceiling on a single class label's UTF-8 byte length.
pub const AI_CLASSIFY_LABEL_MAX_LEN: usize = 128;

/// Why an [`AiClassifyRequest`], [`ScoredLabel`], or [`AiClassification`] was
/// rejected.
#[derive(Clone, Copy, Debug, PartialEq, Eq, Structural)]
#[non_exhaustive]
pub enum AiClassifyReject {
    /// `input_data` exceeds [`AI_MAX_PAYLOAD`].
    InputTooLarge,
    /// `capability` exceeds [`AI_MAX_PAYLOAD`].
    CapabilityTooLarge,
    /// `top_k` (request) or the returned label count (response) exceeds
    /// [`AI_CLASSIFY_MAX_LABELS`].
    TooManyLabels,
    /// A label's UTF-8 length exceeds [`AI_CLASSIFY_LABEL_MAX_LEN`].
    LabelTooLong,
    /// A score is not a finite value in `[0.0, 1.0]`.
    ScoreOutOfRange,
}

impl AiClassifyReject {
    /// The message of a verdict.
    pub open spec fn text(self) -> Seq<char> {
        match self {
            AiClassifyReject::InputTooLarge => "ai_classify: input payload exceeds AI_MAX_PAYLOAD"@,
            AiClassifyReject::CapabilityTooLarge =>
                "ai_classify: capability exceeds AI_MAX_PAYLOAD"@,
            AiClassifyReject::TooManyLabels =>
                "ai_classify: label count exceeds AI_CLASSIFY_MAX_LABELS"@,
            AiClassifyReject::LabelTooLong =>
                "ai_classify: label exceeds AI_CLASSIFY_LABEL_MAX_LEN"@,
            AiClassifyReject::ScoreOutOfRange =>
                "ai_classify: score is not a finite value in [0.0, 1.0]"@,
        }
    }

    /// The message shown to a user.
    pub fn message(self) -> (r: &'static str)
        ensures
            r@ == self.text(),
    {
        match self {
            AiClassifyReject::InputTooLarge => "ai_classify: input payload exceeds AI_MAX_PAYLOAD",
            AiClassifyReject::CapabilityTooLarge =>
                "ai_classify: capability exceeds AI_MAX_PAYLOAD",
            AiClassifyReject::TooManyLabels =>
                "ai_classify: label count exceeds AI_CLASSIFY_MAX_LABELS",
            AiClassifyReject::LabelTooLong =>
                "ai_classify: label exceeds AI_CLASSIFY_LABEL_MAX_LEN",
            AiClassifyReject::ScoreOutOfRange =>
                "ai_classify: score is not a finite value in [0.0, 1.0]",
        }
    }
}

/// A request to classify a piece of text into labels.
#[derive(Clone, Debug, PartialEq, Eq)]
pub struct AiClassifyRequest {
    /// Compact 16-byte model identifier (zero-extended by the runtime).
    pub model_id_bytes: [u8; 16],
    /// Opaque session-capability bytes (validated service-side).
    pub capability: Vec<u8>,
    /// UTF-8 text to classify (≤ [`AI_MAX_PAYLOAD`]).
    pub input_data: Vec<u8>,
    /// Caller-assigned monotonic request ID for end-to-end correlation.
    pub request_id: u64,
    /// PID of the process that issued the syscall (audit only).
    pub caller_pid: u64,
    /// Maximum number of top-scoring labels to return. `0` requests every label
    /// the model exposes (still capped at [`AI_CLASSIFY_MAX_LABELS`]).
    pub top_k: u32,
}

impl AiClassifyRequest {
    /// The first bound that the request violates, if any.
    pub open spec fn verdict(&self) -> Result<(), AiClassifyReject> {
        if self.input_data@.len() > AI_MAX_PAYLOAD {
            Err(AiClassifyReject::InputTooLarge)
        } else if self.capability@.len() > AI_MAX_PAYLOAD {
            Err(AiClassifyReject::CapabilityTooLarge)
        } else if self.top_k > AI_CLASSIFY_MAX_LABELS {
            Err(AiClassifyReject::TooManyLabels)
        } else {
            Ok(())
        }
    }

    /// Validates the request against the ABI bounds the kernel enforces.
    ///
    /// # Errors
    ///
    /// An [`AiClassifyReject`] naming the first bound violated.
    pub fn validate(&self) -> (r: Result<(), AiClassifyReject>)
        ensures
            r == self.verdict(),
    {
        if self.input_data.len() > AI_MAX_PAYLOAD {
            return Err(AiClassifyReject::InputTooLarge);
        }
        if self.capability.len() > AI_MAX_PAYLOAD {
            return Err(AiClassifyReject::CapabilityTooLarge);
        }
        if self.top_k as u64 > AI_CLASSIFY_MAX_LABELS as u64 {
            return Err(AiClassifyReject::TooManyLabels);
        }
        Ok(())
    }
}

/// One `(label, score)` pair from a classification result.
#[derive(Clone, Debug, PartialEq, Eq)]
pub struct ScoredLabel {
    /// The class label (UTF-8, ≤ [`AI_CLASSIFY_LABEL_MAX_LEN`] bytes).
    pub label: String,
    /// Confidence for `label`, a probability in `[0.0, 1.0]`.
    pub score: FloatBits,
}

/// Whether the bits of a single-precision value denote a finite value in `[0.0, 1.0]`.
///
/// The bits of the values from `0.0` to `1.0` are the numbers from `0` to `0x3F80_0000`, in order,
/// and negative zero is `0x8000_0000`.
pub open spec fn is_probability(bits: u32) -> bool {
    bits <= 0x3F80_0000 || bits == 0x8000_0000
}

impl ScoredLabel {
    /// What is wrong with the label or the score, if anything.
    pub open spec fn verdict(&self) -> Result<(), AiClassifyReject> {
        if crate::strings::utf8(self.label@).len() > AI_CLASSIFY_LABEL_MAX_LEN {
            Err(AiClassifyReject::LabelTooLong)
        } else if !is_probability(self.score.0) {
            Err(AiClassifyReject::ScoreOutOfRange)
        } else {
            Ok(())
        }
    }

    /// Builds a scored label.
    pub fn new(label: &str, score: FloatBits) -> (r: Self)
        ensures
            r.label@ == label@,
            r.score == score,
    {
        ScoredLabel { label: label.to_owned(), score }
    }

    /// Validates the label length and the score range.
    ///
    /// # Errors
    ///
    /// [`AiClassifyReject::LabelTooLong`] if `label` is over the byte bound, or
    /// [`AiClassifyReject::ScoreOutOfRange`] if the score is not a finite value in
    /// `[0.0, 1.0]`.
    pub fn validate(&self) -> (r: Result<(), AiClassifyReject>)
        ensures
            r == self.verdict(),
    {
        if byte_len(&self.label) > AI_CLASSIFY_LABEL_MAX_LEN {
            return Err(AiClassifyReject::LabelTooLong);
        }
        if !(self.score.0 <= 0x3F80_0000 || self.score.0 == 0x8000_0000) {
            return Err(AiClassifyReject::ScoreOutOfRange);
        }
        Ok(())
    }
}

/// The number of UTF-8 bytes of a string.
fn byte_len(s: &String) -> (r: usize)
    ensures
        r == crate::strings::utf8(s@).len(),
{
    s.as_str().as_bytes().len()
}

/// The runtime's reply to an [`AiClassifyRequest`]: the scored labels (ordered by
/// descending score), or an error.
#[derive(Clone, Debug, PartialEq, Eq)]
pub struct AiClassification {
    /// Echoes [`AiClassifyRequest::request_id`] for correlation.
    pub request_id: u64,
    /// `true` if classification succeeded; `false` on any error.
    pub success: bool,
    /// The scored labels (empty on error), at most [`AI_CLASSIFY_MAX_LABELS`] long.
    pub labels: Vec<ScoredLabel>,
    /// Human-readable error description when `success` is `false`.
    pub error_message: Option<String>,
}

/// What is wrong with the first bad label of a list, if any is bad.
pub open spec fn first_bad_label(labels: Seq<ScoredLabel>) -> Result<(), AiClassifyReject>
    decreases labels.len(),
{
    if labels.len() == 0 {
        Ok(())
    } else if labels[0].verdict() is Err {
        labels[0].verdict()
    } else {
        first_bad_label(labels.drop_first())
    }
}

impl AiClassification {
    /// A success reply carrying `labels`.
    pub fn ok(request_id: u64, labels: Vec<ScoredLabel>) -> (r: Self)
        ensures
            r == (AiClassification { request_id, success: true, labels, error_message: None }),
    {
        AiClassification { request_id, success: true, labels, error_message: None }
    }

    /// An error reply (no labels).
    pub fn error(request_id: u64, message: &str) -> (r: Self)
        ensures
            r.request_id == request_id,
            !r.success,
            r.labels@.len() == 0,
            holds(r.error_message, message@),
    {
        AiClassification {
            request_id,
            success: false,
            labels: Vec::new(),
            error_message: Some(message.to_owned()),
        }
    }

    /// The number of returned labels.
    pub fn len(&self) -> (r: usize)
        ensures
            r == self.labels@.len(),
    {
        self.labels.len()
    }

    /// `true` when no labels were returned.
    pub fn is_empty(&self) -> (r: bool)
        ensures
            r == (self.labels@.len() == 0),
    {
        self.labels.len() == 0
    }

    /// The highest-scoring label — the first, by the descending-score convention.
    /// `None` for an empty/error result.
    pub fn best(&self) -> (r: Option<&ScoredLabel>)
        ensures
            r == (if self.labels@.len() == 0 {
                None
            } else {
                Some(&self.labels@[0])
            }),
    {
        if self.labels.len() == 0 {
            None
        } else {
            Some(&self.labels[0])
        }
    }

    /// Validates the label count and every label.
    ///
    /// # Errors
    ///
    /// [`AiClassifyReject::TooManyLabels`] if the count is over the bound, else the
    /// first per-label rejection from [`ScoredLabel::validate`].
    pub fn validate(&self) -> (r: Result<(), AiClassifyReject>)
        ensures
            r == (if self.labels@.len() > AI_CLASSIFY_MAX_LABELS {
                Err(AiClassifyReject::TooManyLabels)
            } else {
                first_bad_label(self.labels@)
            }),
    {
        if self.labels.len() > AI_CLASSIFY_MAX_LABELS {
            return Err(AiClassifyReject::TooManyLabels);
        }
        let mut i: usize = 0;
        assert(self.labels@.skip(0) == self.labels@);
        while i < self.labels.len()
            invariant
                i <= self.labels@.len(),
                self.labels@.len() <= AI_CLASSIFY_MAX_LABELS,
                first_bad_label(self.labels@.skip(i as int)) == first_bad_label(self.labels@),
            decreases self.labels@.len() - i,
        {
            let v = self.labels[i].validate();
            proof {
                let rest = self.labels@.skip(i as int);
                assert(rest[0] == self.labels@[i as int]);
                assert(rest.drop_first() == self.labels@.skip(i + 1));
            }
            if v.is_err() {
                return v;
            }
            i = i + 1;
        }
        Ok(())
    }
}

// ---------------------------------------------------------------------------
// Transcription
// ---------------------------------------------------------------------------

/// Hard ceiling on the referenced audio of one transcription request, in bytes.
pub const AI_TRANSCRIBE_MAX_AUDIO_BYTES: usize = 16 * 1024 * 1024;

/// Hard ceiling on the transcript text the runtime returns.
pub const AI_TRANSCRIBE_MAX_TEXT: usize = 64 * 1024;

/// Largest PCM channel count the ABI accepts.
pub const AI_TRANSCRIBE_MAX_CHANNELS: u8 = 8;

/// Largest PCM sample rate the ABI accepts, in Hz.
pub const AI_TRANSCRIBE_MAX_SAMPLE_RATE: u32 = 384_000;

/// Largest BCP-47 language tag the ABI accepts, in bytes (e.g. `en`, `zh-Hant`).
pub const AI_TRANSCRIBE_MAX_LANGUAGE_LEN: usize = 16;

/// PCM sample encoding of a captured audio buffer.
///
/// Variant order is wire-stable (`S16Le` = 0, `F32Le` = 1).
#[derive(Clone, Copy, Debug, PartialEq, Eq, Hash, Structural)]
pub enum PcmEncoding {
    /// Signed 16-bit little-endian samples.
    S16Le,
    /// 32-bit IEEE-754 float little-endian samples.
    F32Le,
}

impl PcmEncoding {
    /// Bytes per single-channel sample.
    pub open spec fn width(self) -> nat {
        match self {
            PcmEncoding::S16Le => 2,
            PcmEncoding::F32Le => 4,
        }
    }

    /// Bytes per single-channel sample (2 for `S16Le`, 4 for `F32Le`).
    pub fn bytes_per_sample(self) -> (r: usize)
        ensures
            r == self.width(),
    {
        match self {
            PcmEncoding::S16Le => 2,
            PcmEncoding::F32Le => 4,
        }
    }
}

/// The PCM layout of a captured audio buffer.
#[derive(Clone, Copy, Debug, PartialEq, Eq, Hash, Structural)]
pub struct AudioFormat {
    /// Sample rate in Hz (e.g. 16000 for speech models).
    pub sample_rate: u32,
    /// Interleaved channel count (1 = mono, 2 = stereo).
    pub channels: u8,
    /// How each sample is encoded.
    pub encoding: PcmEncoding,
}

impl AudioFormat {
    /// Bytes per interleaved frame.
    pub open spec fn frame(self) -> nat {
        self.encoding.width() * self.channels as nat
    }

    /// What is wrong with the format, if anything.
    pub open spec fn verdict(self) -> Result<(), AiTranscribeReject> {
        if self.channels == 0 || self.channels > AI_TRANSCRIBE_MAX_CHANNELS {
            Err(AiTranscribeReject::InvalidChannels)
        } else if self.sample_rate == 0 || self.sample_rate > AI_TRANSCRIBE_MAX_SAMPLE_RATE {
            Err(AiTranscribeReject::InvalidSampleRate)
        } else {
            Ok(())
        }
    }

    /// Bytes per interleaved frame (`bytes_per_sample × channels`).
    pub fn frame_size(self) -> (r: usize)
        ensures
            r == self.frame(),
    {
        let c: usize = self.channels as usize;
        match self.encoding {
            PcmEncoding::S16Le => 2 * c,
            PcmEncoding::F32Le => 4 * c,
        }
    }

    /// Validates the channel count and sample rate against the ABI bounds.
    ///
    /// # Errors
    ///
    /// [`AiTranscribeReject::InvalidChannels`] or
    /// [`AiTranscribeReject::InvalidSampleRate`] for an out-of-range field.
    pub fn validate(self) -> (r: Result<(), AiTranscribeReject>)
        ensures
            r == self.verdict(),
    {
        if self.channels == 0 || self.channels > AI_TRANSCRIBE_MAX_CHANNELS {
            return Err(AiTranscribeReject::InvalidChannels);
        }
        if self.sample_rate == 0 || self.sample_rate > AI_TRANSCRIBE_MAX_SAMPLE_RATE {
            return Err(AiTranscribeReject::InvalidSampleRate);
        }
        Ok(())
    }
}

/// A reference to a captured audio buffer the runtime transcribes.
#[derive(Clone, Copy, Debug, PartialEq, Eq, Structural)]
pub struct AudioBufferRef {
    /// Opaque handle to the captured shared audio buffer.
    pub handle: u64,
    /// The PCM layout of the buffer.
    pub format: AudioFormat,
    /// Number of valid PCM bytes (≤ [`AI_TRANSCRIBE_MAX_AUDIO_BYTES`]).
    pub len_bytes: u64,
}

impl AudioBufferRef {
    /// What is wrong with the buffer, if anything.
    pub open spec fn verdict(self) -> Result<(), AiTranscribeReject> {
        if self.format.verdict() is Err {
            self.format.verdict()
        } else if self.len_bytes == 0 {
            Err(AiTranscribeReject::EmptyAudio)
        } else if self.len_bytes > AI_TRANSCRIBE_MAX_AUDIO_BYTES {
            Err(AiTranscribeReject::AudioTooLarge)
        } else if self.len_bytes as nat % self.format.frame() != 0 {
            Err(AiTranscribeReject::UnalignedAudio)
        } else {
            Ok(())
        }
    }

    /// Number of whole PCM frames in the buffer (`len_bytes / frame_size`).
    ///
    /// `None` if the frame size is zero (an unvalidated zero-channel format) or
    /// `len_bytes` overflows `usize` on this target.
    pub fn num_frames(self) -> (r: Option<usize>)
        ensures
            match r {
                Some(n) => self.format.frame() > 0 && self.len_bytes <= usize::MAX && n
                    == self.len_bytes as nat / self.format.frame(),
                None => self.format.frame() == 0 || self.len_bytes > usize::MAX,
            },
    {
        if self.len_bytes > usize::MAX as u64 {
            return None;
        }
        let size: usize = self.format.frame_size();
        if size == 0 {
            None
        } else {
            Some(self.len_bytes as usize / size)
        }
    }

    /// Validates the format and the buffer length.
    ///
    /// # Errors
    ///
    /// An [`AiTranscribeReject`] for the first violated bound: a bad format, empty
    /// audio, audio over [`AI_TRANSCRIBE_MAX_AUDIO_BYTES`], or a length that is not
    /// a whole number of frames.
    pub fn validate(self) -> (r: Result<(), AiTranscribeReject>)
        ensures
            r == self.verdict(),
    {
        let f = self.format.validate();
        if f.is_err() {
            return f;
        }
        if self.len_bytes == 0 {
            return Err(AiTranscribeReject::EmptyAudio);
        }
        if self.len_bytes > AI_TRANSCRIBE_MAX_AUDIO_BYTES as u64 {
            return Err(AiTranscribeReject::AudioTooLarge);
        }
        let size: u64 = self.format.frame_size() as u64;
        if self.len_bytes % size != 0 {
            return Err(AiTranscribeReject::UnalignedAudio);
        }
        Ok(())
    }
}

/// Why a transcription request or response was rejected.
#[derive(Clone, Copy, Debug, PartialEq, Eq, Structural)]
#[non_exhaustive]
pub enum AiTranscribeReject {
    /// `capability` exceeds [`AI_MAX_PAYLOAD`].
    CapabilityTooLarge,
    /// The referenced audio buffer is empty (`len_bytes == 0`).
    EmptyAudio,
    /// The referenced audio exceeds [`AI_TRANSCRIBE_MAX_AUDIO_BYTES`].
    AudioTooLarge,
    /// `len_bytes` is not a whole number of PCM frames for the format.
    UnalignedAudio,
    /// `channels` is zero or exceeds [`AI_TRANSCRIBE_MAX_CHANNELS`].
    InvalidChannels,
    /// `sample_rate` is zero or exceeds [`AI_TRANSCRIBE_MAX_SAMPLE_RATE`].
    InvalidSampleRate,
    /// A language tag exceeds [`AI_TRANSCRIBE_MAX_LANGUAGE_LEN`].
    LanguageTagTooLong,
    /// The transcript text exceeds [`AI_TRANSCRIBE_MAX_TEXT`].
    TextTooLarge,
}

impl AiTranscribeReject {
    /// The message of a verdict.
    pub open spec fn text(self) -> Seq<char> {
        match self {
            AiTranscribeReject::CapabilityTooLarge =>
                "ai_transcribe: capability exceeds AI_MAX_PAYLOAD"@,
            AiTranscribeReject::EmptyAudio => "ai_transcribe: referenced audio buffer is empty"@,
            AiTranscribeReject::AudioTooLarge =>
                "ai_transcribe: audio exceeds AI_TRANSCRIBE_MAX_AUDIO_BYTES"@,
            AiTranscribeReject::UnalignedAudio =>
                "ai_transcribe: audio length is not a whole number of frames"@,
            AiTranscribeReject::InvalidChannels =>
                "ai_transcribe: channel count is zero or exceeds the maximum"@,
            AiTranscribeReject::InvalidSampleRate =>
                "ai_transcribe: sample rate is zero or exceeds the maximum"@,
            AiTranscribeReject::LanguageTagTooLong =>
                "ai_transcribe: language tag exceeds AI_TRANSCRIBE_MAX_LANGUAGE_LEN"@,
            AiTranscribeReject::TextTooLarge =>
                "ai_transcribe: transcript exceeds AI_TRANSCRIBE_MAX_TEXT"@,
        }
    }

    /// The message shown to a user.
    pub fn message(self) -> (r: &'static str)
        ensures
            r@ == self.text(),
    {
        match self {
            AiTranscribeReject::CapabilityTooLarge =>
                "ai_transcribe: capability exceeds AI_MAX_PAYLOAD",
            AiTranscribeReject::EmptyAudio => "ai_transcribe: referenced audio buffer is empty",
            AiTranscribeReject::AudioTooLarge =>
                "ai_transcribe: audio exceeds AI_TRANSCRIBE_MAX_AUDIO_BYTES",
            AiTranscribeReject::UnalignedAudio =>
                "ai_transcribe: audio length is not a whole number of frames",
            AiTranscribeReject::InvalidChannels =>
                "ai_transcribe: channel count is zero or exceeds the maximum",
            AiTranscribeReject::InvalidSampleRate =>
                "ai_transcribe: sample rate is zero or exceeds the maximum",
            AiTranscribeReject::LanguageTagTooLong =>
                "ai_transcribe: language tag exceeds AI_TRANSCRIBE_MAX_LANGUAGE_LEN",
            AiTranscribeReject::TextTooLarge =>
                "ai_transcribe: transcript exceeds AI_TRANSCRIBE_MAX_TEXT",
        }
    }
}

/// A request to transcribe a captured audio buffer to text.
#[derive(Clone, Debug, PartialEq, Eq)]
pub struct AiTranscribeRequest {
    /// Compact 16-byte model identifier (zero-extended by the runtime).
    pub model_id_bytes: [u8; 16],
    /// Opaque session-capability bytes (validated service-side).
    pub capability: Vec<u8>,
    /// Caller-assigned monotonic request ID for end-to-end correlation.
    pub request_id: u64,
    /// PID of the process that issued the syscall (audit only).
    pub caller_pid: u64,
    /// The captured audio buffer to transcribe.
    pub audio: AudioBufferRef,
    /// Optional BCP-47 language hint (≤ [`AI_TRANSCRIBE_MAX_LANGUAGE_LEN`]).
    pub language: Option<String>,
}

/// Whether an optional language tag is longer than the ABI accepts.
pub open spec fn tag_too_long(tag: Option<String>) -> bool {
    tag matches Some(t) && crate::strings::utf8(t@).len() > AI_TRANSCRIBE_MAX_LANGUAGE_LEN
}

fn is_tag_too_long(tag: &Option<String>) -> (r: bool)
    ensures
        r == tag_too_long(*tag),
{
    match tag {
        Some(t) => byte_len(t) > AI_TRANSCRIBE_MAX_LANGUAGE_LEN,
        None => false,
    }
}

impl AiTranscribeRequest {
    /// The first bound that the request violates, if any.
    pub open spec fn verdict(&self) -> Result<(), AiTranscribeReject> {
        if self.capability@.len() > AI_MAX_PAYLOAD {
            Err(AiTranscribeReject::CapabilityTooLarge)
        } else if self.audio.verdict() is Err {
            self.audio.verdict()
        } else if tag_too_long(self.language) {
            Err(AiTranscribeReject::LanguageTagTooLong)
        } else {
            Ok(())
        }
    }

    /// Validates the request against the ABI bounds the kernel enforces.
    ///
    /// # Errors
    ///
    /// An [`AiTranscribeReject`] naming the first bound violated.
    pub fn validate(&self) -> (r: Result<(), AiTranscribeReject>)
        ensures
            r == self.verdict(),
    {
        if self.capability.len() > AI_MAX_PAYLOAD {
            return Err(AiTranscribeReject::CapabilityTooLarge);
        }
        let a = self.audio.validate();
        if a.is_err() {
            return a;
        }
        if is_tag_too_long(&self.language) {
            return Err(AiTranscribeReject::LanguageTagTooLong);
        }
        Ok(())
    }
}

/// The runtime's reply to an [`AiTranscribeRequest`]: the transcript text (and
/// optional detected language), or an error.
#[derive(Clone, Debug, PartialEq, Eq)]
pub struct AiTranscription {
    /// Echoes [`AiTranscribeRequest::request_id`] for correlation.
    pub request_id: u64,
    /// `true` if transcription succeeded; `false` on any error.
    pub success: bool,
    /// The transcript (empty on error), at most [`AI_TRANSCRIBE_MAX_TEXT`] bytes.
    pub text: String,
    /// The detected BCP-47 language when the model reports one.
    pub language: Option<String>,
    /// Human-readable error description when `success` is `false`.
    pub error_message: Option<String>,
}

impl AiTranscription {
    /// A success reply carrying `text` (no detected language).
    pub fn ok(request_id: u64, text: &str) -> (r: Self)
        ensures
            r.request_id == request_id,
            r.success,
            r.text@ == text@,
            r.language is None,
            r.error_message is None,
    {
        AiTranscription {
            request_id,
            success: true,
            text: text.to_owned(),
            language: None,
            error_message: None,
        }
    }

    /// A success reply carrying `text` and the detected `language`.
    pub fn ok_with_language(request_id: u64, text: &str, language: &str) -> (r: Self)
        ensures
            r.request_id == request_id,
            r.success,
            r.text@ == text@,
            holds(r.language, language@),
            r.error_message is None,
    {
        AiTranscription {
            request_id,
            success: true,
            text: text.to_owned(),
            language: Some(language.to_owned()),
            error_message: None,
        }
    }

    /// An error reply (empty transcript).
    pub fn error(request_id: u64, message: &str) -> (r: Self)
        ensures
            r.request_id == request_id,
            !r.success,
            r.text@.len() == 0,
            r.language is None,
            holds(r.error_message, message@),
    {
        AiTranscription {
            request_id,
            success: false,
            text: String::new(),
            language: None,
            error_message: Some(message.to_owned()),
        }
    }

    /// Validates the transcript and language lengths.
    ///
    /// # Errors
    ///
    /// [`AiTranscribeReject::TextTooLarge`] or
    /// [`AiTranscribeReject::LanguageTagTooLong`] for an over-bound field.
    pub fn validate(&self) -> (r: Result<(), AiTranscribeReject>)
        ensures
            r == (if crate::strings::utf8(self.text@).len() > AI_TRANSCRIBE_MAX_TEXT {
                Err::<(), AiTranscribeReject>(AiTranscribeReject::TextTooLarge)
            } else if tag_too_long(self.language) {
                Err(AiTranscribeReject::LanguageTagTooLong)
            } else {
                Ok(())
            }),
    {
        if byte_len(&self.text) > AI_TRANSCRIBE_MAX_TEXT {
            return Err(AiTranscribeReject::TextTooLarge);
        }
        if is_tag_too_long(&self.language) {
            return Err(AiTranscribeReject::LanguageTagTooLong);
        }
        Ok(())
    }
}

/// A list of labels is accepted where every label is, and otherwise refused for the first one that
/// is not.
pub proof fn law_the_first_bad_label_is_named(labels: Seq<ScoredLabel>)
    ensures
        match first_bad_label(labels) {
            Ok(_) => forall|k: int| 0 <= k < labels.len() ==> (#[trigger] labels[k]).verdict() is Ok,
            Err(e) => exists|k: int|
                {
                    &&& 0 <= k < labels.len()
                    &&& (#[trigger] labels[k]).verdict() == Err::<(), AiClassifyReject>(e)
                    &&& forall|j: int| 0 <= j < k ==> (#[trigger] labels[j]).verdict() is Ok
                },
        },
    decreases labels.len(),
{
    if labels.len() > 0 && labels[0].verdict() is Ok {
        let rest = labels.drop_first();
        law_the_first_bad_label_is_named(rest);
        match first_bad_label(labels) {
            Ok(_) => {
                assert forall|k: int| 0 <= k < labels.len() implies (
                #[trigger] labels[k]).verdict() is Ok by {
                    if k > 0 {
                        assert(rest[k - 1] == labels[k]);
                    }
                }
            },
            Err(e) => {
                let k = choose|k: int|
                    {
                        &&& 0 <= k < rest.len()
                        &&& (#[trigger] rest[k]).verdict() == Err::<(), AiClassifyReject>(e)
                        &&& forall|j: int| 0 <= j < k ==> (#[trigger] rest[j]).verdict() is Ok
                    };
                assert(labels[k + 1] == rest[k]);
                assert forall|j: int| 0 <= j < k + 1 implies (#[trigger] labels[j]).verdict() is Ok by {
                    if j > 0 {
                        assert(rest[j - 1] == labels[j]);
                    }
                }
            },
        }
    }
}

/// A request is accepted exactly where everything in it keeps to its limit.
pub proof fn law_streams_within_the_limits_are_accepted(r: AiStreamRequest)
    ensures
        r.verdict() is Ok <==> {
            &&& r.input_data@.len() <= AI_MAX_PAYLOAD
            &&& r.capability@.len() <= AI_MAX_PAYLOAD
            &&& 1 <= r.max_tokens <= AI_STREAM_MAX_TOKENS
        },
{
}

/// A request is accepted exactly where everything in it keeps to its limit.
pub proof fn law_embeddings_within_the_limits_are_accepted(r: AiEmbedRequest)
    ensures
        r.verdict() is Ok <==> r.input_data@.len() <= AI_MAX_PAYLOAD && r.capability@.len()
            <= AI_MAX_PAYLOAD,
{
}

/// A request is accepted exactly where everything in it keeps to its limit.
pub proof fn law_classifications_within_the_limits_are_accepted(r: AiClassifyRequest)
    ensures
        r.verdict() is Ok <==> {
            &&& r.input_data@.len() <= AI_MAX_PAYLOAD
            &&& r.capability@.len() <= AI_MAX_PAYLOAD
            &&& r.top_k <= AI_CLASSIFY_MAX_LABELS
        },
{
}

/// A request is accepted exactly where everything in it keeps to its limit and the audio is made of
/// whole frames, one sample for each channel.
pub proof fn law_transcriptions_within_the_limits_are_accepted(r: AiTranscribeRequest)
    ensures
        r.verdict() is Ok <==> {
            &&& r.capability@.len() <= AI_MAX_PAYLOAD
            &&& 1 <= r.audio.format.channels <= AI_TRANSCRIBE_MAX_CHANNELS
            &&& 1 <= r.audio.format.sample_rate <= AI_TRANSCRIBE_MAX_SAMPLE_RATE
            &&& 1 <= r.audio.len_bytes <= AI_TRANSCRIBE_MAX_AUDIO_BYTES
            &&& exists|frames: int|
                r.audio.len_bytes == #[trigger] (frames * r.audio.format.frame())
            &&& r.language matches Some(t) ==> crate::strings::utf8(t@).len()
                <= AI_TRANSCRIBE_MAX_LANGUAGE_LEN
        },
{
    let n = r.audio.len_bytes as int;
    let f = r.audio.format.frame() as int;
    if 1 <= r.audio.format.channels {
        assert(f > 0) by {
            let w = r.audio.format.encoding.width();
            let c = r.audio.format.channels as nat;
            assert(w * c > 0) by (nonlinear_arith)
                requires
                    w > 0,
                    c > 0,
            ;
        }
        if n % f == 0 {
            vstd::arithmetic::div_mod::lemma_fundamental_div_mod(n, f);
            vstd::arithmetic::mul::lemma_mul_is_commutative(f, n / f);
            assert(n == (n / f) * f);
        }
        if exists|frames: int| n == #[trigger] (frames * f) {
            let k = choose|frames: int| n == #[trigger] (frames * f);
            vstd::arithmetic::div_mod::lemma_mod_multiples_basic(k, f);
        }
    }
}

} // verus!
