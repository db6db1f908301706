//! The AI messages: their bounds and their encodings.

use nexacore_ui::ai::{
    AiClassification, AiClassifyReject, AiClassifyRequest, AiEmbedReject, AiEmbedRequest,
    AiEmbedding, AiStreamHandle, AiStreamOpened, AiStreamReject, AiStreamRequest, AiSyscallNumber,
    AiSyscallRequest, AiSyscallResponse, AiTokenChunk, AiTranscribeReject, AiTranscribeRequest,
    AiTranscription, AudioBufferRef, AudioFormat, BackendKind, BackendStatusEvent, FloatBits,
    PcmEncoding, ScoredLabel, AI_CLASSIFY_LABEL_MAX_LEN, AI_CLASSIFY_MAX_LABELS, AI_EMBED_MAX_DIM,
    AI_MAX_PAYLOAD, AI_STREAM_CHUNK_MAX_TEXT, AI_STREAM_MAX_TOKENS, AI_TRANSCRIBE_MAX_AUDIO_BYTES,
    AI_TRANSCRIBE_MAX_CHANNELS, AI_TRANSCRIBE_MAX_LANGUAGE_LEN, AI_TRANSCRIBE_MAX_SAMPLE_RATE,
    AI_TRANSCRIBE_MAX_TEXT,
};
use nexacore_ui::wire::{decode_canonical, encode_canonical};

fn float(x: f32) -> FloatBits {
    FloatBits(x.to_bits())
}

fn bits(v: &[f32]) -> Vec<FloatBits> {
    v.iter().map(|x| float(*x)).collect()
}

#[test]
fn backend_kind_labels_are_stable() {
    assert_eq!(BackendKind::RemoteGpu.label(), "remote_gpu");
    assert_eq!(BackendKind::LocalCpu.label(), "local_cpu");
}

#[test]
fn backend_kind_wire_discriminants_are_stable() {
    // Pin the postcard discriminants: RemoteGpu = 0, LocalCpu = 1.
    // A failure here means the variant order changed — a wire-format
    // breaking change that must not happen silently.
    let gpu = encode_canonical(&BackendKind::RemoteGpu).expect("encode");
    let cpu = encode_canonical(&BackendKind::LocalCpu).expect("encode");
    assert_eq!(gpu, vec![0]);
    assert_eq!(cpu, vec![1]);
}

#[test]
fn backend_status_event_round_trips() {
    for (backend, healthy, degraded) in [
        (BackendKind::RemoteGpu, true, false),
        (BackendKind::RemoteGpu, false, false),
        (BackendKind::LocalCpu, true, true),
        (BackendKind::LocalCpu, false, true),
    ] {
        let event = BackendStatusEvent {
            backend,
            healthy,
            degraded,
        };
        let bytes = encode_canonical(&event).expect("encode");
        let back: BackendStatusEvent = decode_canonical(&bytes).expect("decode");
        assert_eq!(back, event);
    }
}


#[test]
fn ai_syscall_number_maps_kernel_abi() {
    for n in 80u32..=84 {
        let v = AiSyscallNumber::from_u32(n).expect("in range");
        assert_eq!(v.as_u32(), n);
    }
    assert!(AiSyscallNumber::from_u32(79).is_none());
    assert!(AiSyscallNumber::from_u32(85).is_none());
}

#[test]
fn ai_syscall_number_wire_discriminants_are_stable() {
    // postcard encodes the variant INDEX (0..=4), not the syscall
    // number — pin it so reordering cannot slip through silently.
    let invoke = encode_canonical(&AiSyscallNumber::Invoke).expect("encode");
    let transcribe = encode_canonical(&AiSyscallNumber::Transcribe).expect("encode");
    assert_eq!(invoke, vec![0]);
    assert_eq!(transcribe, vec![4]);
}

#[test]
fn ai_syscall_request_round_trips() {
    let req = AiSyscallRequest {
        syscall: AiSyscallNumber::Invoke,
        model_id_bytes: [0xAB; 16],
        capability: vec![0x01, 0x02],
        input_data: vec![b'h', b'i'],
        request_id: 42,
        caller_pid: 7,
    };
    let bytes = encode_canonical(&req).expect("encode");
    let back: AiSyscallRequest = decode_canonical(&bytes).expect("decode");
    assert_eq!(back, req);
}

#[test]
fn ai_syscall_response_round_trips_success_and_error() {
    let ok = AiSyscallResponse {
        request_id: 1,
        success: true,
        output_data: vec![1, 2, 3],
        latency_us: 99,
        error_message: None,
    };
    let bytes = encode_canonical(&ok).expect("encode");
    let back: AiSyscallResponse = decode_canonical(&bytes).expect("decode");
    assert_eq!(back, ok);

    let err = AiSyscallResponse::error(2, 5, "nope");
    assert!(!err.success);
    assert!(err.output_data.is_empty());
    let bytes = encode_canonical(&err).expect("encode");
    let back: AiSyscallResponse = decode_canonical(&bytes).expect("decode");
    assert_eq!(back, err);
}

#[test]
fn ai_max_payload_matches_kernel_bound() {
    assert_eq!(AI_MAX_PAYLOAD, 4096);
}


#[test]
fn ai_stream_handle_wraps_and_unwraps() {
    let h = AiStreamHandle::new(0xDEAD_BEEF);
    assert_eq!(h.get(), 0xDEAD_BEEF);
    assert_eq!(AiStreamHandle(7), AiStreamHandle::new(7));
    // Encodes as the bare inner u64 (postcard varint).
    let bytes = encode_canonical(&AiStreamHandle::new(1)).expect("encode");
    let back: AiStreamHandle = decode_canonical(&bytes).expect("decode");
    assert_eq!(back, AiStreamHandle::new(1));
}

fn sample_request() -> AiStreamRequest {
    AiStreamRequest {
        model_id_bytes: [0x11; 16],
        capability: vec![0x01],
        input_data: vec![b'h', b'i'],
        request_id: 9,
        caller_pid: 3,
        max_tokens: 128,
    }
}

#[test]
fn ai_stream_request_round_trips() {
    let req = sample_request();
    let bytes = encode_canonical(&req).expect("encode");
    let back: AiStreamRequest = decode_canonical(&bytes).expect("decode");
    assert_eq!(back, req);
}

#[test]
fn ai_stream_request_validate_accepts_and_rejects() {
    assert_eq!(sample_request().validate(), Ok(()));

    let mut big_input = sample_request();
    big_input.input_data = vec![0u8; AI_MAX_PAYLOAD + 1];
    assert_eq!(big_input.validate(), Err(AiStreamReject::InputTooLarge));

    let mut big_cap = sample_request();
    big_cap.capability = vec![0u8; AI_MAX_PAYLOAD + 1];
    assert_eq!(big_cap.validate(), Err(AiStreamReject::CapabilityTooLarge));

    let mut zero = sample_request();
    zero.max_tokens = 0;
    assert_eq!(zero.validate(), Err(AiStreamReject::NoTokensRequested));

    let mut too_many = sample_request();
    too_many.max_tokens = AI_STREAM_MAX_TOKENS + 1;
    assert_eq!(too_many.validate(), Err(AiStreamReject::TooManyTokens));

    // The exact bound is accepted.
    let mut at_limit = sample_request();
    at_limit.max_tokens = AI_STREAM_MAX_TOKENS;
    assert_eq!(at_limit.validate(), Ok(()));
}

#[test]
fn ai_stream_opened_ok_and_error_round_trip() {
    let ok = AiStreamOpened::ok(9, AiStreamHandle::new(5));
    assert!(ok.success);
    assert_eq!(ok.handle, Some(AiStreamHandle::new(5)));
    let bytes = encode_canonical(&ok).expect("encode");
    let back: AiStreamOpened = decode_canonical(&bytes).expect("decode");
    assert_eq!(back, ok);

    let err = AiStreamOpened::error(9, "no capacity");
    assert!(!err.success);
    assert!(err.handle.is_none());
    let bytes = encode_canonical(&err).expect("encode");
    let back: AiStreamOpened = decode_canonical(&bytes).expect("decode");
    assert_eq!(back, err);
}

#[test]
fn ai_token_chunk_round_trips_and_validates() {
    let chunk = AiTokenChunk::new(AiStreamHandle::new(5), 9, 0, 1234, vec![b'h'], false);
    let bytes = encode_canonical(&chunk).expect("encode");
    let back: AiTokenChunk = decode_canonical(&bytes).expect("decode");
    assert_eq!(back, chunk);
    assert_eq!(chunk.validate(), Ok(()));

    let last = AiTokenChunk::new(AiStreamHandle::new(5), 9, 7, 2, Vec::new(), true);
    assert!(last.is_last);
    assert_eq!(last.validate(), Ok(()));

    let mut huge = chunk;
    huge.text = vec![0u8; AI_STREAM_CHUNK_MAX_TEXT + 1];
    assert_eq!(huge.validate(), Err(AiStreamReject::ChunkTextTooLarge));
}

#[test]
fn ai_stream_reject_displays_cause() {
    assert!(AiStreamReject::TooManyTokens.message().contains("AI_STREAM_MAX_TOKENS"));
}


fn sample_embed_request() -> AiEmbedRequest {
    AiEmbedRequest {
        model_id_bytes: [0x22; 16],
        capability: vec![0x09],
        input_data: vec![b'h', b'i'],
        request_id: 11,
        caller_pid: 4,
        normalize: true,
    }
}

#[test]
fn ai_embed_request_round_trips() {
    let req = sample_embed_request();
    let bytes = encode_canonical(&req).expect("encode");
    let back: AiEmbedRequest = decode_canonical(&bytes).expect("decode");
    assert_eq!(back, req);
}

#[test]
fn ai_embed_request_validate_accepts_and_rejects() {
    assert_eq!(sample_embed_request().validate(), Ok(()));

    let mut big_input = sample_embed_request();
    big_input.input_data = vec![0u8; AI_MAX_PAYLOAD + 1];
    assert_eq!(big_input.validate(), Err(AiEmbedReject::InputTooLarge));

    let mut big_cap = sample_embed_request();
    big_cap.capability = vec![0u8; AI_MAX_PAYLOAD + 1];
    assert_eq!(big_cap.validate(), Err(AiEmbedReject::CapabilityTooLarge));
}

#[test]
fn ai_embedding_round_trips_and_reports_dim() {
    let emb = AiEmbedding::ok(11, bits(&[0.0, 1.0, -2.5, 3.25]));
    assert!(emb.success);
    assert_eq!(emb.dim(), 4);
    assert_eq!(emb.validate(), Ok(()));
    let bytes = encode_canonical(&emb).expect("encode");
    let back: AiEmbedding = decode_canonical(&bytes).expect("decode");
    assert_eq!(back, emb);

    let err = AiEmbedding::error(11, "no model");
    assert!(!err.success);
    assert_eq!(err.dim(), 0);
    let bytes = encode_canonical(&err).expect("encode");
    let back: AiEmbedding = decode_canonical(&bytes).expect("decode");
    assert_eq!(back, err);
}

#[test]
fn ai_embedding_validate_rejects_oversize_dim() {
    let huge = AiEmbedding::ok(1, bits(&vec![0.0_f32; AI_EMBED_MAX_DIM + 1]));
    assert_eq!(huge.validate(), Err(AiEmbedReject::DimTooLarge));
    // The exact bound is accepted.
    let at_limit = AiEmbedding::ok(1, bits(&vec![0.0_f32; AI_EMBED_MAX_DIM]));
    assert_eq!(at_limit.validate(), Ok(()));
}


fn sample_classify_request() -> AiClassifyRequest {
    AiClassifyRequest {
        model_id_bytes: [0x33; 16],
        capability: vec![0x07],
        input_data: vec![b'o', b'k'],
        request_id: 13,
        caller_pid: 5,
        top_k: 3,
    }
}

#[test]
fn ai_classify_request_round_trips() {
    let req = sample_classify_request();
    let bytes = encode_canonical(&req).expect("encode");
    let back: AiClassifyRequest = decode_canonical(&bytes).expect("decode");
    assert_eq!(back, req);
}

#[test]
fn ai_classify_request_validate_accepts_and_rejects() {
    assert_eq!(sample_classify_request().validate(), Ok(()));

    // `top_k == 0` means "all labels" and is accepted.
    let mut all = sample_classify_request();
    all.top_k = 0;
    assert_eq!(all.validate(), Ok(()));

    let mut big_input = sample_classify_request();
    big_input.input_data = vec![0u8; AI_MAX_PAYLOAD + 1];
    assert_eq!(big_input.validate(), Err(AiClassifyReject::InputTooLarge));

    let mut big_cap = sample_classify_request();
    big_cap.capability = vec![0u8; AI_MAX_PAYLOAD + 1];
    assert_eq!(
        big_cap.validate(),
        Err(AiClassifyReject::CapabilityTooLarge)
    );

    let max_labels = u32::try_from(AI_CLASSIFY_MAX_LABELS).expect("fits u32");
    let mut too_many = sample_classify_request();
    too_many.top_k = max_labels + 1;
    assert_eq!(too_many.validate(), Err(AiClassifyReject::TooManyLabels));

    // The exact bound is accepted.
    let mut at_limit = sample_classify_request();
    at_limit.top_k = max_labels;
    assert_eq!(at_limit.validate(), Ok(()));
}

#[test]
fn scored_label_validate_accepts_and_rejects() {
    assert_eq!(ScoredLabel::new("positive", float(0.5)).validate(), Ok(()));
    // Range endpoints are accepted.
    assert_eq!(ScoredLabel::new("p", float(0.0)).validate(), Ok(()));
    assert_eq!(ScoredLabel::new("p", float(1.0)).validate(), Ok(()));

    let long = String::from_utf8(vec![b'a'; AI_CLASSIFY_LABEL_MAX_LEN + 1])
        .expect("ascii is valid utf-8");
    assert_eq!(
        ScoredLabel::new(&long, float(0.5)).validate(),
        Err(AiClassifyReject::LabelTooLong)
    );

    for bad in [1.5_f32, -0.1, f32::NAN, f32::INFINITY] {
        assert_eq!(
            ScoredLabel::new("x", float(bad)).validate(),
            Err(AiClassifyReject::ScoreOutOfRange)
        );
    }
}

#[test]
fn ai_classification_round_trips_and_reports_best() {
    let labels = vec![
        ScoredLabel::new("positive", float(0.9)),
        ScoredLabel::new("neutral", float(0.08)),
        ScoredLabel::new("negative", float(0.02)),
    ];
    let res = AiClassification::ok(13, labels);
    assert!(res.success);
    assert_eq!(res.len(), 3);
    assert!(!res.is_empty());
    let best = res.best().expect("non-empty");
    assert_eq!(*best, ScoredLabel::new("positive", float(0.9)));
    assert_eq!(res.validate(), Ok(()));
    let bytes = encode_canonical(&res).expect("encode");
    let back: AiClassification = decode_canonical(&bytes).expect("decode");
    assert_eq!(back, res);

    let err = AiClassification::error(13, "no head");
    assert!(!err.success);
    assert!(err.is_empty());
    assert!(err.best().is_none());
    let bytes = encode_canonical(&err).expect("encode");
    let back: AiClassification = decode_canonical(&bytes).expect("decode");
    assert_eq!(back, err);
}

#[test]
fn ai_classification_validate_rejects_count_and_bad_labels() {
    let too_many = AiClassification::ok(
        1,
        vec![ScoredLabel::new("x", float(0.5)); AI_CLASSIFY_MAX_LABELS + 1],
    );
    assert_eq!(too_many.validate(), Err(AiClassifyReject::TooManyLabels));

    // The exact bound is accepted.
    let at_limit = AiClassification::ok(
        1,
        vec![ScoredLabel::new("x", float(0.5)); AI_CLASSIFY_MAX_LABELS],
    );
    assert_eq!(at_limit.validate(), Ok(()));

    // A per-label rejection propagates.
    let bad_score = AiClassification::ok(1, vec![ScoredLabel::new("x", float(2.0))]);
    assert_eq!(bad_score.validate(), Err(AiClassifyReject::ScoreOutOfRange));
}

#[test]
fn ai_classify_reject_displays_cause() {
    assert!(AiClassifyReject::TooManyLabels.message().contains("AI_CLASSIFY_MAX_LABELS"));
}


fn sample_format() -> AudioFormat {
    AudioFormat {
        sample_rate: 16_000,
        channels: 1,
        encoding: PcmEncoding::S16Le,
    }
}

fn sample_audio() -> AudioBufferRef {
    AudioBufferRef {
        handle: 0xAB,
        format: sample_format(),
        len_bytes: 3200, // 100 ms of 16 kHz mono S16 = 1600 frames.
    }
}

fn sample_transcribe_request() -> AiTranscribeRequest {
    AiTranscribeRequest {
        model_id_bytes: [0x44; 16],
        capability: vec![0x05],
        request_id: 21,
        caller_pid: 6,
        audio: sample_audio(),
        language: Some(String::from("en")),
    }
}

#[test]
fn pcm_encoding_wire_discriminants_are_stable() {
    let s16 = encode_canonical(&PcmEncoding::S16Le).expect("encode");
    let f32 = encode_canonical(&PcmEncoding::F32Le).expect("encode");
    assert_eq!(s16, vec![0]);
    assert_eq!(f32, vec![1]);
    assert_eq!(PcmEncoding::S16Le.bytes_per_sample(), 2);
    assert_eq!(PcmEncoding::F32Le.bytes_per_sample(), 4);
}

#[test]
fn audio_format_frame_size_and_validate() {
    assert_eq!(sample_format().frame_size(), 2); // mono S16
    let stereo_f32 = AudioFormat {
        sample_rate: 48_000,
        channels: 2,
        encoding: PcmEncoding::F32Le,
    };
    assert_eq!(stereo_f32.frame_size(), 8); // 2 ch * 4 bytes

    assert_eq!(sample_format().validate(), Ok(()));
    let zero_ch = AudioFormat {
        channels: 0,
        ..sample_format()
    };
    assert_eq!(zero_ch.validate(), Err(AiTranscribeReject::InvalidChannels));
    let many_ch = AudioFormat {
        channels: AI_TRANSCRIBE_MAX_CHANNELS + 1,
        ..sample_format()
    };
    assert_eq!(many_ch.validate(), Err(AiTranscribeReject::InvalidChannels));
    let zero_rate = AudioFormat {
        sample_rate: 0,
        ..sample_format()
    };
    assert_eq!(
        zero_rate.validate(),
        Err(AiTranscribeReject::InvalidSampleRate)
    );
    let fast = AudioFormat {
        sample_rate: AI_TRANSCRIBE_MAX_SAMPLE_RATE + 1,
        ..sample_format()
    };
    assert_eq!(fast.validate(), Err(AiTranscribeReject::InvalidSampleRate));
}

#[test]
fn audio_buffer_ref_validate_and_frame_count() {
    assert_eq!(sample_audio().validate(), Ok(()));
    assert_eq!(sample_audio().num_frames(), Some(1600));

    let empty = AudioBufferRef {
        len_bytes: 0,
        ..sample_audio()
    };
    assert_eq!(empty.validate(), Err(AiTranscribeReject::EmptyAudio));

    let big = AudioBufferRef {
        len_bytes: u64::try_from(AI_TRANSCRIBE_MAX_AUDIO_BYTES).expect("fits") + 2,
        ..sample_audio()
    };
    assert_eq!(big.validate(), Err(AiTranscribeReject::AudioTooLarge));

    // F32Le stereo -> frame size 8; 10 bytes is not a whole frame.
    let unaligned = AudioBufferRef {
        handle: 1,
        format: AudioFormat {
            sample_rate: 48_000,
            channels: 2,
            encoding: PcmEncoding::F32Le,
        },
        len_bytes: 10,
    };
    assert_eq!(
        unaligned.validate(),
        Err(AiTranscribeReject::UnalignedAudio)
    );
}

#[test]
fn ai_transcribe_request_round_trips() {
    let req = sample_transcribe_request();
    let bytes = encode_canonical(&req).expect("encode");
    let back: AiTranscribeRequest = decode_canonical(&bytes).expect("decode");
    assert_eq!(back, req);
}

#[test]
fn ai_transcribe_request_validate_accepts_and_rejects() {
    assert_eq!(sample_transcribe_request().validate(), Ok(()));

    let mut big_cap = sample_transcribe_request();
    big_cap.capability = vec![0u8; AI_MAX_PAYLOAD + 1];
    assert_eq!(
        big_cap.validate(),
        Err(AiTranscribeReject::CapabilityTooLarge)
    );

    // A bad audio buffer propagates its rejection.
    let mut bad_audio = sample_transcribe_request();
    bad_audio.audio.len_bytes = 0;
    assert_eq!(bad_audio.validate(), Err(AiTranscribeReject::EmptyAudio));

    let mut long_lang = sample_transcribe_request();
    long_lang.language = Some(
        String::from_utf8(vec![b'a'; AI_TRANSCRIBE_MAX_LANGUAGE_LEN + 1])
            .expect("ascii is valid utf-8"),
    );
    assert_eq!(
        long_lang.validate(),
        Err(AiTranscribeReject::LanguageTagTooLong)
    );
}

#[test]
fn ai_transcription_round_trips_and_validates() {
    let ok = AiTranscription::ok(21, "hello world");
    assert!(ok.success);
    assert!(ok.language.is_none());
    assert_eq!(ok.validate(), Ok(()));
    let bytes = encode_canonical(&ok).expect("encode");
    let back: AiTranscription = decode_canonical(&bytes).expect("decode");
    assert_eq!(back, ok);

    let with_lang = AiTranscription::ok_with_language(21, "ciao", "it");
    assert_eq!(with_lang.language.as_deref(), Some("it"));
    let bytes = encode_canonical(&with_lang).expect("encode");
    let back: AiTranscription = decode_canonical(&bytes).expect("decode");
    assert_eq!(back, with_lang);

    let err = AiTranscription::error(21, "no audio model");
    assert!(!err.success);
    assert!(err.text.is_empty());
    let bytes = encode_canonical(&err).expect("encode");
    let back: AiTranscription = decode_canonical(&bytes).expect("decode");
    assert_eq!(back, err);
}

#[test]
fn ai_transcription_validate_rejects_oversize_fields() {
    let big_text = AiTranscription::ok(
        1,
        &String::from_utf8(vec![b'a'; AI_TRANSCRIBE_MAX_TEXT + 1]).expect("ascii is valid utf-8"),
    );
    assert_eq!(big_text.validate(), Err(AiTranscribeReject::TextTooLarge));

    let long_lang = AiTranscription::ok_with_language(
        1,
        "x",
        &String::from_utf8(vec![b'a'; AI_TRANSCRIBE_MAX_LANGUAGE_LEN + 1])
            .expect("ascii is valid utf-8"),
    );
    assert_eq!(
        long_lang.validate(),
        Err(AiTranscribeReject::LanguageTagTooLong)
    );
}

#[test]
fn ai_transcribe_reject_displays_cause() {
    assert!(AiTranscribeReject::AudioTooLarge.message().contains("AI_TRANSCRIBE_MAX_AUDIO_BYTES"));
}
