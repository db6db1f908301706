//! The wire format against the postcard crate.

use nexacore_ui::ai::{
    AiClassification, AiEmbedding, AiStreamHandle, AiStreamOpened, AiSyscallNumber,
    AiSyscallRequest, AudioBufferRef, AudioFormat, FloatBits, PcmEncoding, ScoredLabel,
};
use nexacore_ui::config::AiEndpointConfig;
use nexacore_ui::display_channel::DisplayInputEvent;
use nexacore_ui::display_protocol::{ClientRequest, CompositorEvent, Rect};
use nexacore_ui::fs_service::{FsErrno, FsRequest, FsResponse};
use nexacore_ui::wire::encode_canonical;
use postcard::to_allocvec;

#[test]
fn plain_values_have_postcard_encodings() {
    for n in [0u64, 1, 127, 128, 300, 16_383, 16_384, u32::MAX as u64, u64::MAX] {
        assert_eq!(encode_canonical(&n).unwrap(), to_allocvec(&n).unwrap());
        let m = n as u32;
        assert_eq!(encode_canonical(&m).unwrap(), to_allocvec(&m).unwrap());
        let k = n as u16;
        assert_eq!(encode_canonical(&k).unwrap(), to_allocvec(&k).unwrap());
        let b = n as u8;
        assert_eq!(encode_canonical(&b).unwrap(), to_allocvec(&b).unwrap());
    }
    for n in [i64::MIN, -129, -1, 0, 1, 64, i64::MAX] {
        assert_eq!(encode_canonical(&n).unwrap(), to_allocvec(&n).unwrap());
        let m = n as i32;
        assert_eq!(encode_canonical(&m).unwrap(), to_allocvec(&m).unwrap());
    }
    for s in ["", "ascii", "né☕🦀"] {
        let s = String::from(s);
        assert_eq!(encode_canonical(&s).unwrap(), to_allocvec(&s).unwrap());
        let o = Some(s.clone());
        assert_eq!(encode_canonical(&o).unwrap(), to_allocvec(&o).unwrap());
        let v = vec![s.clone(), String::from("x"), s];
        assert_eq!(encode_canonical(&v).unwrap(), to_allocvec(&v).unwrap());
    }
    let t = (7u32, (-3i64, true));
    assert_eq!(encode_canonical(&t).unwrap(), to_allocvec(&t).unwrap());
    let long = vec![0xABu8; 300];
    assert_eq!(encode_canonical(&long).unwrap(), to_allocvec(&long).unwrap());
    let none = None::<u32>;
    assert_eq!(encode_canonical(&none).unwrap(), to_allocvec(&none).unwrap());
}

#[test]
fn structures_are_their_fields_in_order() {
    let req = AiSyscallRequest {
        syscall: AiSyscallNumber::Classify,
        model_id_bytes: [0xAB; 16],
        capability: vec![1, 2],
        input_data: vec![b'h', b'i'],
        request_id: 42_000,
        caller_pid: 7,
    };
    let fields = (3u32, [0xABu8; 16], vec![1u8, 2], vec![b'h', b'i'], 42_000u64, 7u64);
    assert_eq!(encode_canonical(&req).unwrap(), to_allocvec(&fields).unwrap());

    let opened = AiStreamOpened::ok(9, AiStreamHandle::new(500));
    let fields = (9u64, true, Some(500u64), None::<String>);
    assert_eq!(encode_canonical(&opened).unwrap(), to_allocvec(&fields).unwrap());

    let audio = AudioBufferRef {
        handle: 0xAB,
        format: AudioFormat {
            sample_rate: 16_000,
            channels: 200,
            encoding: PcmEncoding::F32Le,
        },
        len_bytes: 3200,
    };
    let fields = (0xABu64, (16_000u32, 200u8, 1u32), 3200u64);
    assert_eq!(encode_canonical(&audio).unwrap(), to_allocvec(&fields).unwrap());

    let cfg = AiEndpointConfig::default();
    let fields = (cfg.host.clone(), cfg.port, cfg.model.clone());
    assert_eq!(encode_canonical(&cfg).unwrap(), to_allocvec(&fields).unwrap());
}

#[test]
fn floats_are_their_four_bytes() {
    let values = [0.0f32, 1.0, -2.5, 3.25];
    let emb = AiEmbedding::ok(11, values.iter().map(|x| FloatBits(x.to_bits())).collect());
    let fields = (11u64, true, values.to_vec(), None::<String>);
    assert_eq!(encode_canonical(&emb).unwrap(), to_allocvec(&fields).unwrap());

    let res = AiClassification::ok(
        13,
        vec![ScoredLabel::new("positive", FloatBits(0.9f32.to_bits()))],
    );
    let fields = (13u64, true, vec![("positive", 0.9f32)], None::<String>);
    assert_eq!(encode_canonical(&res).unwrap(), to_allocvec(&fields).unwrap());
}

#[test]
fn enumerations_are_a_number_and_the_fields() {
    let ev = DisplayInputEvent::Pointer {
        x: 1024,
        y: 768,
        buttons: 0xFF,
    };
    assert_eq!(
        encode_canonical(&ev).unwrap(),
        to_allocvec(&(1u32, 1024u32, 768u32, 0xFFu8)).unwrap()
    );
    assert_eq!(
        encode_canonical(&CompositorEvent::Input(ev)).unwrap(),
        to_allocvec(&(1u32, 1u32, 1024u32, 768u32, 0xFFu8)).unwrap()
    );
    let req = ClientRequest::Commit {
        surface_id: 7,
        damage: vec![Rect {
            x: i32::MIN,
            y: -1,
            w: u32::MAX,
            h: 3,
        }],
    };
    assert_eq!(
        encode_canonical(&req).unwrap(),
        to_allocvec(&(1u32, 7u32, vec![(i32::MIN, -1i32, u32::MAX, 3u32)])).unwrap()
    );
    let req = FsRequest::Write {
        path: String::from("/notes.txt"),
        offset: u64::MAX,
        data: vec![9; 200],
    };
    assert_eq!(
        encode_canonical(&req).unwrap(),
        to_allocvec(&(1u32, "/notes.txt", u64::MAX, vec![9u8; 200])).unwrap()
    );
    assert_eq!(
        encode_canonical(&FsRequest::Sync).unwrap(),
        to_allocvec(&7u32).unwrap()
    );
    assert_eq!(
        encode_canonical(&FsResponse::Error(FsErrno::DirectoryNotEmpty)).unwrap(),
        to_allocvec(&(5u32, 7u32)).unwrap()
    );
}
