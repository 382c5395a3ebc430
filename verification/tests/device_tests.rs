use acceleratorinator::bitmap::{BmpCompression, BmpInfo};
use acceleratorinator::codec::cring_rle_decode;
use acceleratorinator::connection::{Connection, LinkState};
use acceleratorinator::device::{status_byte, DeviceAction, DeviceMachine, DeviceStatus};
use acceleratorinator::err::{
    cring_map_from_device_error, CRING_EACC_PARSE, CRING_EACC_UNKNOWN, CRING_EACC_UNSUP_COMP,
    CRING_EALREADY, CRING_EINVAL, CRING_EOK,
};
use acceleratorinator::host::HostSession;
use acceleratorinator::transform::invert_image;

fn push_u32(v: &mut Vec<u8>, x: u32) {
    v.extend_from_slice(&x.to_le_bytes());
}

fn push_u16(v: &mut Vec<u8>, x: u16) {
    v.extend_from_slice(&x.to_le_bytes());
}

/// A 2x1 pixel, 24 bits-per-pixel, uncompressed bitmap: 54 header bytes,
/// six pixel bytes, two bytes of row padding.
fn tiny_bmp() -> Vec<u8> {
    let mut v = Vec::new();
    v.extend_from_slice(b"BM");
    push_u32(&mut v, 62); // file size
    push_u16(&mut v, 0);
    push_u16(&mut v, 0);
    push_u32(&mut v, 54); // pixel data offset
    push_u32(&mut v, 40); // DIB header size
    push_u32(&mut v, 2); // width
    push_u32(&mut v, 1); // height
    push_u16(&mut v, 1); // planes
    push_u16(&mut v, 24); // bits per pixel
    push_u32(&mut v, 0); // compression: uncompressed
    push_u32(&mut v, 0); // image data length: compute from dimensions
    push_u32(&mut v, 0); // x pixels per meter
    push_u32(&mut v, 0); // y pixels per meter
    push_u32(&mut v, 0); // colors used
    push_u32(&mut v, 0); // colors important
    v.extend_from_slice(&[0x10, 0x20, 0x30, 0x40, 0x50, 0x60]); // two pixels
    v.extend_from_slice(&[0xAA, 0xBB]); // row padding
    assert_eq!(v.len(), 62);
    v
}

/// The same bitmap after the device's transform: the six pixel bytes
/// inverted, header and padding untouched.
fn tiny_bmp_inverted() -> Vec<u8> {
    let mut v = tiny_bmp();
    for b in &mut v[54..60] {
        *b = 0xFF - *b;
    }
    v
}

/// A 2x1, 8 bits-per-pixel bitmap declaring RLE8 pixel compression, with
/// a two-entry color table and two bytes of compressed data.
fn rle8_bmp() -> Vec<u8> {
    let mut v = Vec::new();
    v.extend_from_slice(b"BM");
    push_u32(&mut v, 64); // file size
    push_u16(&mut v, 0);
    push_u16(&mut v, 0);
    push_u32(&mut v, 62); // pixel data offset
    push_u32(&mut v, 40); // DIB header size
    push_u32(&mut v, 2); // width
    push_u32(&mut v, 1); // height
    push_u16(&mut v, 1); // planes
    push_u16(&mut v, 8); // bits per pixel
    push_u32(&mut v, 1); // compression: RLE8
    push_u32(&mut v, 2); // image data length
    push_u32(&mut v, 0); // x pixels per meter
    push_u32(&mut v, 0); // y pixels per meter
    push_u32(&mut v, 2); // colors used
    push_u32(&mut v, 0); // colors important
    v.extend_from_slice(&[0, 0, 0, 0, 255, 255, 255, 0]); // color table
    v.extend_from_slice(&[0x02, 0x00]); // compressed data
    assert_eq!(v.len(), 64);
    v
}

/// Runs one full transfer against the device machine: sends the bytes in
/// packet-sized chunks plus the end-of-message chunk, and returns the
/// device's answer.
fn run_transfer(dev: &mut DeviceMachine, message: &[u8]) -> (DeviceStatus, Vec<u8>) {
    for chunk in message.chunks(64) {
        let action = dev.on_chunk(chunk);
        assert!(matches!(action, DeviceAction::Continue));
    }
    match dev.on_chunk(&[]) {
        DeviceAction::Respond { status, payload } => (status, payload),
        other => panic!("expected a response, got {:?}", other),
    }
}

#[test]
fn end_to_end_inverts_bitmap() {
    let image = tiny_bmp();
    let (mut session, encoded) = HostSession::begin(&image);
    let mut dev = DeviceMachine::new();

    for chunk in encoded.chunks(64) {
        assert!(matches!(dev.on_chunk(chunk), DeviceAction::Continue));
    }
    session.sent_image();
    let action = dev.on_chunk(&[]);
    session.sent_end();

    let (status, payload) = match action {
        DeviceAction::Respond { status, payload } => (status, payload),
        other => panic!("expected a response, got {:?}", other),
    };
    assert_eq!(status, DeviceStatus::Okay);
    assert!(!dev.is_faulted());

    let code = session.on_status(status_byte(status));
    assert_eq!(code, CRING_EOK);

    let mut out = vec![0u8; image.len()];
    session.on_reply(&payload, &mut out).unwrap();
    assert_eq!(out, tiny_bmp_inverted());
}

#[test]
fn fault_scenario_non_bitmap() {
    let garbage: Vec<u8> = vec![9, 9, 9, 1, 2, 3, 4, 5];
    let (mut session, encoded) = HostSession::begin(&garbage);
    let mut dev = DeviceMachine::new();

    let (status, payload) = run_transfer(&mut dev, &encoded);
    assert_eq!(status, DeviceStatus::ParseError);
    assert!(payload.is_empty());
    assert!(dev.is_faulted());

    session.sent_image();
    session.sent_end();
    let code = session.on_status(status_byte(status));
    assert_eq!(code, CRING_EACC_PARSE);
}

#[test]
fn unsupported_compression_reported() {
    let image = rle8_bmp();
    let (_, encoded) = HostSession::begin(&image);
    let mut dev = DeviceMachine::new();

    let (status, payload) = run_transfer(&mut dev, &encoded);
    assert_eq!(status, DeviceStatus::UnsupportedCompression);
    assert!(payload.is_empty());
    assert_eq!(status_byte(status), 1);
    assert!(dev.is_faulted());
}

#[test]
fn device_recovers_after_error() {
    let mut dev = DeviceMachine::new();
    // a two-byte message: decodes to one literal byte, which is no bitmap
    let (status, _) = run_transfer(&mut dev, &[0x00, 0x07]);
    assert_eq!(status, DeviceStatus::ParseError);
    // the buffers were cleared: the next, sound transfer still succeeds
    let image = tiny_bmp();
    let (_, encoded) = HostSession::begin(&image);
    let (status, payload) = run_transfer(&mut dev, &encoded);
    assert_eq!(status, DeviceStatus::Okay);
    assert!(!dev.is_faulted());
    assert_eq!(cring_rle_decode(&payload).unwrap(), tiny_bmp_inverted());
}

#[test]
fn capacity_overrun_is_fatal() {
    let mut dev = DeviceMachine::new();
    let big = vec![0u8; 102_401];
    let mut fatal = false;
    for chunk in big.chunks(64) {
        match dev.on_chunk(chunk) {
            DeviceAction::Continue => {},
            DeviceAction::Fatal => {
                fatal = true;
                break;
            },
            other => panic!("unexpected action {:?}", other),
        }
    }
    assert!(fatal);
}

#[test]
fn truncated_framing_is_fatal() {
    let mut dev = DeviceMachine::new();
    // a header that claims seven literal bytes, with none behind it
    assert!(matches!(dev.on_chunk(&[6 << 2 | 0]), DeviceAction::Continue));
    assert!(matches!(dev.on_chunk(&[]), DeviceAction::Fatal));
}

#[test]
fn transport_error_sets_fault() {
    let mut dev = DeviceMachine::new();
    assert!(!dev.is_faulted());
    dev.on_transport_error();
    assert!(dev.is_faulted());
}

#[test]
fn status_mapping() {
    assert_eq!(cring_map_from_device_error(0), CRING_EOK);
    assert_eq!(cring_map_from_device_error(1), CRING_EACC_UNSUP_COMP);
    assert_eq!(cring_map_from_device_error(2), CRING_EACC_PARSE);
    assert_eq!(cring_map_from_device_error(3), CRING_EACC_UNKNOWN);
    assert_eq!(cring_map_from_device_error(255), CRING_EACC_UNKNOWN);
}

#[test]
fn status_bytes() {
    assert_eq!(status_byte(DeviceStatus::Okay), 0);
    assert_eq!(status_byte(DeviceStatus::UnsupportedCompression), 1);
    assert_eq!(status_byte(DeviceStatus::ParseError), 2);
}

#[test]
fn connection_lifecycle() {
    let mut c = Connection::new();
    assert_eq!(c.require_bound(), CRING_EINVAL);
    assert_eq!(c.bind(), CRING_EOK);
    assert_eq!(c.require_bound(), CRING_EOK);
    assert_eq!(c.bind(), CRING_EALREADY);
    assert_eq!(c.release(), CRING_EOK);
    assert_eq!(c.release(), CRING_EINVAL);
    let _ = LinkState::Unbound;
}

fn plain_info(bpp: u16, data_len: u32, masks: Option<(u32, u32, u32)>) -> BmpInfo {
    BmpInfo {
        image_data_start: 0,
        image_data_len: data_len,
        width: 0,
        height: 0,
        bpp_bits: bpp,
        compression: if masks.is_some() {
            BmpCompression::Bitfields
        } else {
            BmpCompression::Rgb
        },
        channel_masks: masks,
    }
}

#[test]
fn invert_whole_pixels_without_masks() {
    let mut buf = vec![0x00u8, 0xFF, 0x12, 0x34];
    invert_image(&mut buf, &plain_info(8, 4, None));
    assert_eq!(buf, &[0xFF, 0x00, 0xED, 0xCB]);
}

#[test]
fn invert_channels_with_masks() {
    // one 32-bit pixel: blue in bits 0..8, green 8..16, red 16..24; the
    // top byte lies in no channel and stays
    let mut buf = vec![0x12u8, 0x34, 0x56, 0x78];
    invert_image(&mut buf, &plain_info(32, 4, Some((0x00FF0000, 0x0000FF00, 0x000000FF))));
    assert_eq!(buf, &[0xED, 0xCB, 0xA9, 0x78]);
}

#[test]
fn invert_overlapping_masks_cancel() {
    // ranges flipped one after the other: bits under an even number of
    // channel ranges end up as they were
    let mut buf = vec![0xABu8];
    invert_image(&mut buf, &plain_info(8, 1, Some((0x0F, 0x0F, 0xF0))));
    assert_eq!(buf, &[0x5B]);
}

#[test]
fn invert_leaves_partial_pixel() {
    // three bytes at 16 bits per pixel: one whole pixel, one spare byte
    let mut buf = vec![0x01u8, 0x02, 0x03];
    invert_image(&mut buf, &plain_info(16, 3, None));
    assert_eq!(buf, &[0xFE, 0xFD, 0x03]);
}

#[test]
fn invert_region_clamped_to_buffer() {
    let mut buf = vec![0x01u8, 0x02];
    let mut info = plain_info(8, 100, None);
    info.image_data_start = 100;
    invert_image(&mut buf, &info);
    assert_eq!(buf, &[0x01, 0x02]);
}

#[test]
fn host_reply_copies_at_most_capacity() {
    let image: Vec<u8> = (0u8..100).collect();
    let (mut session, encoded) = HostSession::begin(&image);
    assert_eq!(session.expected_len(), encoded.len());
    session.sent_image();
    session.sent_end();
    assert_eq!(session.on_status(0), CRING_EOK);
    // destination shorter than the decoded reply: only its prefix is
    // overwritten
    let mut out = vec![0xEEu8; 10];
    session.on_reply(&encoded, &mut out).unwrap();
    assert_eq!(out, (0u8..10).collect::<Vec<u8>>());
}

#[test]
fn host_reply_truncated_stream_fails() {
    let image: Vec<u8> = vec![1, 2, 3];
    let (mut session, _) = HostSession::begin(&image);
    session.sent_image();
    session.sent_end();
    assert_eq!(session.on_status(0), CRING_EOK);
    let mut out = vec![0u8; 3];
    assert!(session.on_reply(&[6 << 2 | 0], &mut out).is_err());
    assert_eq!(out, &[0, 0, 0]);
}
