use l6t::chunk::Chunk;
use l6t::error::Error;
use l6t::types;
use l6t::types::TypeID;

fn be32(v: u32) -> [u8; 4] {
    v.to_be_bytes()
}

/// A small envelope tree survives a serialize/parse round trip, byte for
/// byte.
#[test]
fn chunk_round_trip_bytes() {
    let mut envelope = Chunk::create(types::form(), types::l6pa(), false);
    let mut inner = Chunk::create(types::list(), types::unfo(), false);
    inner.append_chunk(Chunk::Data {
        id: types::iaut(),
        data: vec![0x00, 0x41, 0x00, 0x42],
        little_endian: false,
    });
    envelope.append_chunk(inner);
    envelope.append_chunk(Chunk::Data {
        id: types::pinf(),
        data: vec![1, 2, 3, 4],
        little_endian: false,
    });
    let bytes = envelope.write();
    let parsed = Chunk::from_data(&bytes, Some(false)).unwrap();
    let bytes2 = parsed.write();
    assert_eq!(bytes, bytes2);
    assert!(parsed.has_envelope_type(types::form(), types::l6pa()));
}

/// Byte-order detection: a buffer whose leading 4 bytes are the reversed
/// spelling of `FORM` parses as little-endian with the un-reversed id.
#[test]
fn byte_order_detected_from_reversed_marker() {
    let mut envelope = Chunk::create(types::form(), types::l6pa(), true);
    envelope.append_chunk(Chunk::Data {
        id: types::pinf(),
        data: vec![9, 9],
        little_endian: true,
    });
    let bytes = envelope.write();
    assert_eq!(&bytes[0..4], b"MROF");
    let parsed = Chunk::from_data(&bytes, None).unwrap();
    assert!(parsed.is_little_endian());
    assert!(parsed.has_envelope_type(types::form(), types::l6pa()));
    let bytes2 = parsed.write();
    assert_eq!(bytes, bytes2);
}

/// An aligned envelope inserts exactly one pad byte after a child of odd
/// size, before the next child's bytes.
#[test]
fn aligned_envelope_pads_odd_child() {
    let mut envelope = Chunk::create(types::list(), types::unfo(), false);
    envelope.append_chunk(Chunk::Data { id: types::iaut(), data: vec![0x41], little_endian: false });
    envelope.append_chunk(Chunk::Data { id: types::ibnd(), data: vec![0x42], little_endian: false });
    let bytes = envelope.write();
    // header 12, first child 8+1, one pad, second child header follows
    assert_eq!(bytes[12 + 9], 0x00);
    assert_eq!(&bytes[12 + 9 + 1..12 + 9 + 1 + 4], b"IBND");
    // declared length covers the content id, both children and both pads
    assert_eq!(&bytes[4..8], &be32(4 + 9 + 1 + 9 + 1));
}

/// The one unaligned envelope kind never pads: children follow each other
/// directly.
#[test]
fn unaligned_envelope_never_pads() {
    let mut envelope = Chunk::create(types::form(), types::sslb(), false);
    envelope.append_chunk(Chunk::Data { id: types::lent(), data: vec![0x41], little_endian: false });
    envelope.append_chunk(Chunk::Data { id: types::lent(), data: vec![0x42], little_endian: false });
    let bytes = envelope.write();
    assert_eq!(&bytes[12 + 9..12 + 9 + 4], b"LENT");
    assert_eq!(&bytes[4..8], &be32(4 + 9 + 9));
}

/// Parsing fails on a buffer too short for a header.
#[test]
fn truncated_header_is_rejected() {
    let err = Chunk::from_data(&[0x46, 0x4f], Some(false)).unwrap_err();
    assert_eq!(err, Error::Truncated);
}

/// Parsing fails with a byte-order error when the order is unspecified and
/// the leading id is no envelope marker in either spelling.
#[test]
fn unknown_leading_id_needs_byte_order() {
    let mut bytes = Vec::new();
    bytes.extend_from_slice(b"ABCD");
    bytes.extend_from_slice(&be32(0));
    let err = Chunk::from_data(&bytes, None).unwrap_err();
    assert_eq!(err, Error::ByteOrderRequired);
    // the same bytes parse fine once the order is given
    let parsed = Chunk::from_data(&bytes, Some(false)).unwrap();
    assert!(parsed.has_data_type(TypeID(0x41, 0x42, 0x43, 0x44)));
}

/// Parsing fails when the declared length overruns the buffer.
#[test]
fn declared_length_overrun_is_rejected() {
    let mut bytes = Vec::new();
    bytes.extend_from_slice(b"ABCD");
    bytes.extend_from_slice(&be32(100));
    let err = Chunk::from_data(&bytes, Some(false)).unwrap_err();
    assert_eq!(err, Error::LengthOverrun);
}

/// The caller-side length override reads a legacy container whose declared
/// length is hard-coded to 4 while content fills the rest of the buffer.
#[test]
fn size_override_reads_legacy_container() {
    let mut bytes = Vec::new();
    bytes.extend_from_slice(b"FORM");
    bytes.extend_from_slice(&be32(4));  // bogus hard-coded length
    bytes.extend_from_slice(b"SSLB");
    bytes.extend_from_slice(b"LENT");
    bytes.extend_from_slice(&be32(2));
    bytes.extend_from_slice(&[7, 8]);
    // without the override the container looks empty
    let bare = Chunk::from_data(&bytes, None).unwrap();
    assert_eq!(bare.data_chunks().len(), 0);
    let full = Chunk::from_data_with_size(&bytes, bytes.len() - 8, None).unwrap();
    let entries = full.data_chunks();
    assert_eq!(entries.len(), 1);
    assert_eq!(entries[0].0, types::lent());
    assert_eq!(entries[0].1, &vec![7u8, 8u8]);
}

/// Envelope ids and reversal behave as the catalog says.
#[test]
fn type_id_classification() {
    assert!(types::form().is_envelope());
    assert!(types::list().is_envelope());
    assert!(!types::sslb().is_envelope());
    assert!(types::form().reverse().is_le_envelope());
    assert!(types::list().reverse().is_le_envelope());
    assert_eq!(types::form().reverse().reverse(), types::form());
    assert!(!types::sslb().is_aligned_kind());
    assert!(types::unfo().is_aligned_kind());
}

/// A legacy library entry: the header decides the device family, the name
/// follows, and tagged trailing records carry a comment and a position.
#[test]
fn legacy_library_entry_is_read() {
    let mut data = Vec::new();
    data.extend_from_slice(&[0x01, 0x2a, 0x00, 0x00, 0, 0, 0, 0, 0, 0, 0, 0, 0]);  // header
    data.extend_from_slice(&[4]);
    data.extend_from_slice(b"Solo");  // name
    data.push(0x03);  // module kind
    data.push(55);  // record length: nothing to skip
    data.extend_from_slice(&[0u8; 55]);  // the fixed blob
    data.push(0x02);
    data.extend_from_slice(&[2]);
    data.extend_from_slice(b"ok");  // comment
    data.push(0x00);
    data.extend_from_slice(&[0, 0]);  // end record
    let chunk = l6t::chunk::Chunk::Data { id: types::lent(), data, little_endian: false };
    let entry = l6t::decoder::read_sslb_entry(&chunk).unwrap().unwrap();
    assert!(entry.can_process);
    assert_eq!(entry.name, "Solo");
    assert_eq!(entry.comment.as_deref(), Some("ok"));
    assert_eq!(entry.position, None);

    // an entry of a foreign device family stops after its name
    let mut data = vec![0x00, 0x11, 0, 0, 0, 0, 0, 0, 0, 0, 0, 0, 0];
    data.extend_from_slice(&[3]);
    data.extend_from_slice(b"Rig");
    let chunk = l6t::chunk::Chunk::Data { id: types::lent(), data, little_endian: false };
    let entry = l6t::decoder::read_sslb_entry(&chunk).unwrap().unwrap();
    assert!(!entry.can_process);
    assert_eq!(entry.name, "Rig");

    // anything shorter than the header is an empty entry
    let chunk = l6t::chunk::Chunk::Data { id: types::lent(), data: vec![1, 2, 3], little_endian: false };
    assert!(l6t::decoder::read_sslb_entry(&chunk).unwrap().is_none());
}
