use l6t::chunk::Chunk;
use l6t::decoder::{Decoder, DecoderResult, Reader};
use l6t::encoder::{Encoder, Writer};
use l6t::error::Error;
use l6t::model::{L6Patch, MetaTags, Model, ModelParam, PatchType, TargetDevice, Value};
use l6t::types;

fn be32(v: u32) -> [u8; 4] {
    v.to_be_bytes()
}

/// The original writer test: a string into a fixed-width UTF-16 field,
/// plain and NUL-terminated.
#[test]
fn test_write_utf() {
    let str = "Hello";
    let expected = &[0x00, 0x48, 0x00, 0x65, 0x00, 0x6c, 0x00, 0x6c, 0x00, 0x6f];

    let mut w = Writer::new(false);
    w.write_utf(10, str);
    assert_eq!(&w.buffer, expected);

    // NUL-terminated

    let expected = &[0x00, 0x48, 0x00, 0x65, 0x00, 0x6c, 0x00, 0x6c, 0x00, 0x00];

    let mut w = Writer::new(false);
    w.write_utf_z(10, str);

    assert_eq!(&w.buffer, expected);
}

fn device_payload() -> Vec<u8> {
    let mut payload = Vec::new();
    payload.extend_from_slice(&be32(1));  // record version
    payload.extend_from_slice(&be32(0));  // device id
    payload.extend_from_slice(&[0u8; 64]);  // all-NUL name
    payload.extend_from_slice(&be32(0));  // trailer version
    payload
}

fn patch_file_with_pinf(payload: &[u8]) -> Vec<u8> {
    let mut envelope = Chunk::create(types::form(), types::l6pa(), false);
    envelope.append_chunk(Chunk::Data {
        id: types::pinf(),
        data: payload.to_vec(),
        little_endian: false,
    });
    envelope.write()
}

/// A 76-byte target device record with version 1, device id 0, an all-NUL
/// name and trailer version 0 decodes to id 0, an empty name and version
/// 0; re-encoding reproduces the identical 76 bytes.
#[test]
fn target_device_example_round_trip() {
    let payload = device_payload();
    assert_eq!(payload.len(), 76);
    let file = patch_file_with_pinf(&payload);
    let patch = match Decoder::read(&file).unwrap() {
        DecoderResult::Patch(p) => p,
        DecoderResult::Bundle(_) => panic!("expected a patch"),
    };
    assert_eq!(patch.target_device.midi_id, 0);
    assert_eq!(patch.target_device.name, "");
    assert_eq!(patch.target_device.version, 0);

    let bytes = Encoder::write(&patch).unwrap();
    // the device record is the first child: header at 12, payload at 20
    assert_eq!(&bytes[12..16], b"PINF");
    assert_eq!(&bytes[16..20], &be32(76));
    assert_eq!(&bytes[20..96], &payload[..]);
}

/// A wrong record length and a wrong record version are hard errors.
#[test]
fn target_device_structural_errors() {
    let file = patch_file_with_pinf(&[0u8; 75]);
    assert_eq!(Decoder::read(&file).unwrap_err(), Error::WrongLength);

    let mut payload = device_payload();
    payload[3] = 2;  // record version 2
    let file = patch_file_with_pinf(&payload);
    assert_eq!(Decoder::read(&file).unwrap_err(), Error::WrongVersion);
}

/// A full patch survives an encode/decode round trip: device, tags, models
/// and parameter values, with the date rescaled through whole seconds.
#[test]
fn patch_encode_decode_round_trip() {
    let patch = L6Patch {
        patch_type: PatchType::Patch,
        target_device: TargetDevice { midi_id: 0x030002, name: "PODxt".to_string(), version: 7 },
        models: vec![
            Model {
                model_id: 0x2000_0001,
                slot_id: 0x5_0000,
                enabled: true,
                ordinal: 3,
                params: vec![
                    ModelParam { param_id: 0x10, value: Value::Int(42) },
                    ModelParam { param_id: 0x11, value: Value::Float(0.5f32.to_bits()) },
                ],
            },
        ],
        meta: MetaTags {
            author: "Ann".to_string(),
            guitarist: String::new(),
            band: "The Band".to_string(),
            song: String::new(),
            style: String::new(),
            pickup_style: String::new(),
            pickup_position: String::new(),
            date: 1_234_000,
            amp_name: String::new(),
            creator_app: String::new(),
            creator_app_version: String::new(),
            comments: String::new(),
        },
    };
    let bytes = Encoder::write(&patch).unwrap();
    let back = match Decoder::read(&bytes).unwrap() {
        DecoderResult::Patch(p) => p,
        DecoderResult::Bundle(_) => panic!("expected a patch"),
    };
    assert_eq!(back.target_device.midi_id, 0x030002);
    assert_eq!(back.target_device.name, "PODxt");
    assert_eq!(back.target_device.version, 7);
    assert_eq!(back.meta.author, "Ann");
    assert_eq!(back.meta.band, "The Band");
    assert_eq!(back.meta.guitarist, "");
    assert_eq!(back.meta.date, 1_234_000);
    assert_eq!(back.models.len(), 1);
    let m = &back.models[0];
    assert_eq!(m.model_id, 0x2000_0001);
    assert_eq!(m.slot_id, 0x5_0000);
    assert!(m.enabled);
    assert_eq!(m.ordinal, 3);
    assert_eq!(m.params.len(), 2);
    assert_eq!(m.params[0], ModelParam { param_id: 0x10, value: Value::Int(42) });
    assert_eq!(m.params[1], ModelParam { param_id: 0x11, value: Value::Float(0.5f32.to_bits()) });
}

/// A parameter record with an unknown value tag aborts the decode.
#[test]
fn unsupported_value_tag_is_rejected() {
    let mut minf = Vec::new();
    minf.extend_from_slice(&be32(1));  // model id
    minf.extend_from_slice(&be32(2));  // slot id
    minf.extend_from_slice(&[0, 0, 0, 1]);  // ordinal, pads, enabled
    let mut parm = Vec::new();
    parm.extend_from_slice(&be32(0x10));
    parm.extend_from_slice(&be32(9));  // bogus tag: neither int nor float
    parm.extend_from_slice(&be32(0));
    let mut model = Chunk::create(types::list(), types::modl(), false);
    model.append_chunk(Chunk::Data { id: types::minf(), data: minf, little_endian: false });
    model.append_chunk(Chunk::Data { id: types::parm(), data: parm, little_endian: false });
    let mut patc = Chunk::create(types::list(), types::patc(), false);
    patc.append_chunk(model);
    let mut envelope = Chunk::create(types::form(), types::l6pa(), false);
    envelope.append_chunk(patc);
    let bytes = envelope.write();
    assert_eq!(Decoder::read(&bytes).unwrap_err(), Error::UnsupportedValueType);
}

/// A file whose top-level pair matches no known format is reported as
/// unsupported, so a caller can try the next candidate decoder.
#[test]
fn unknown_format_is_not_supported() {
    let envelope = Chunk::create(types::form(), l6t::types::TypeID(0x54, 0x55, 0x4e, 0x45), false);
    let bytes = envelope.write();
    assert_eq!(Decoder::read(&bytes).unwrap_err(), Error::FormatNotSupported);
}

/// A bundle with one named bank holding one patch decodes bank by bank.
#[test]
fn bundle_with_bank_decodes() {
    let mut head = Vec::new();
    head.extend_from_slice(&be32(1));
    let mut binf = vec![0u8; 68];
    binf[5] = 0x42;  // name "B" in UTF-16 at offset 4
    let mut patch_env = Chunk::create(types::form(), types::l6pa(), false);
    patch_env.append_chunk(Chunk::Data {
        id: types::pinf(),
        data: device_payload(),
        little_endian: false,
    });
    let mut bank = Chunk::create(types::list(), types::bank(), false);
    bank.append_chunk(Chunk::Data { id: types::binf(), data: binf, little_endian: false });
    bank.append_chunk(patch_env);
    let mut envelope = Chunk::create(types::form(), types::l6ba(), false);
    envelope.append_chunk(Chunk::Data { id: types::head(), data: head, little_endian: false });
    envelope.append_chunk(bank);
    let bytes = envelope.write();
    let bundle = match Decoder::read(&bytes).unwrap() {
        DecoderResult::Bundle(b) => b,
        DecoderResult::Patch(_) => panic!("expected a bundle"),
    };
    assert_eq!(bundle.banks.len(), 1);
    assert_eq!(bundle.banks[0].name, "B");
    assert_eq!(bundle.banks[0].patches.len(), 1);
    assert_eq!(bundle.banks[0].patches[0].target_device.midi_id, 0);
}

/// The byte reader reads words in both orders and decodes UTF-16 fields,
/// truncating names at the first NUL.
#[test]
fn reader_reads_words_and_strings() {
    let data = [0x12, 0x34, 0x56, 0x78, 0x00, 0x41, 0x00, 0x00];
    let mut r = Reader::new(&data, false);
    assert_eq!(r.read_u32().unwrap(), 0x12345678);
    assert_eq!(r.read_utf(4).unwrap(), "A\u{0}");

    let mut r = Reader::new(&data, true);
    assert_eq!(r.read_u16().unwrap(), 0x3412);
    assert_eq!(r.read_u8().unwrap(), 0x56);

    let data = [0x00, 0x48, 0x00, 0x69, 0x00, 0x00, 0x00, 0x21];
    let mut r = Reader::new(&data, false);
    assert_eq!(r.read_utf_z(8).unwrap(), "Hi");

    let mut r = Reader::new(&data, false);
    assert_eq!(r.read_u32().unwrap(), 0x480069);
    assert!(r.read_utf(6).is_err());
}
