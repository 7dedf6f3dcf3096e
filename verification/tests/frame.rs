use learn::network::frame::{COMPRESSION_LIMIT, LEN_LEN, MAX_FRAME};
use learn::{encode_frame_bytes, FrameCoder};
use std::io::Read;

#[test]
fn small_message_is_framed_as_is() {
    let mut buf = Vec::new();
    encode_frame_bytes(b"abc", &mut buf).unwrap();
    assert_eq!(buf, vec![0, 0, 0, 3, b'a', b'b', b'c']);
    assert_eq!(LEN_LEN, 4);
    assert_eq!(MAX_FRAME, 2 * 1024 * 1024 * 1024);
}

#[test]
fn message_at_the_limit_is_not_compressed() {
    let msg = vec![7u8; COMPRESSION_LIMIT];
    let mut buf = Vec::new();
    encode_frame_bytes(&msg, &mut buf).unwrap();
    assert_eq!(&buf[..4], &[0, 0, 0x05, 0x9C]);
    assert_eq!(&buf[4..], &msg[..]);
}

#[test]
fn large_message_is_compressed_and_flagged() {
    let msg = vec![b'x'; 5000];
    let mut buf = Vec::new();
    encode_frame_bytes(&msg, &mut buf).unwrap();
    let header = u32::from_be_bytes([buf[0], buf[1], buf[2], buf[3]]);
    assert_eq!(header & 0x8000_0000, 0x8000_0000);
    let len = (header & 0x7FFF_FFFF) as usize;
    assert_eq!(len, buf.len() - 4);
    assert!(len < msg.len());
    let mut out = Vec::new();
    flate2::read::GzDecoder::new(&buf[4..]).read_to_end(&mut out).unwrap();
    assert_eq!(out, msg);
}

struct Raw(Vec<u8>);

impl FrameCoder for Raw {
    fn encoded(&self) -> Vec<u8> {
        self.0.clone()
    }
}

#[test]
fn frame_coder_frames_its_encoding() {
    let mut buf = Vec::new();
    Raw(vec![1, 2]).encode_frame(&mut buf).unwrap();
    assert_eq!(buf, vec![0, 0, 0, 2, 1, 2]);
}

#[test]
fn message_just_over_the_limit_is_compressed() {
    let msg: Vec<u8> = (0..COMPRESSION_LIMIT + 1).map(|i| (i % 251) as u8).collect();
    let mut buf = Vec::new();
    assert!(encode_frame_bytes(&msg, &mut buf).is_ok());
    let header = u32::from_be_bytes([buf[0], buf[1], buf[2], buf[3]]);
    assert_eq!(header & 0x8000_0000, 0x8000_0000);
    assert_eq!((header & 0x7FFF_FFFF) as usize, buf.len() - 4);
    let mut out = Vec::new();
    flate2::read::GzDecoder::new(&buf[4..]).read_to_end(&mut out).unwrap();
    assert_eq!(out, msg);
}
