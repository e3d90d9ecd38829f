use wap::img::pixels::format::RGB;
use wap::img::pixels::{PxBufSized, PxlsSized};
use wap::pid::{flags, read_as_pid, read_as_pid_checked, BuildImage};
use wap::res::node::{Node, NodeType};
use wap::utils::{ByteStream, ReadError};

fn pid_bytes(flags: u32, width: u32, height: u32, body: &[u8]) -> Vec<u8> {
    let mut v = Vec::new();
    v.extend_from_slice(&10u32.to_le_bytes());
    v.extend_from_slice(&flags.to_le_bytes());
    v.extend_from_slice(&width.to_le_bytes());
    v.extend_from_slice(&height.to_le_bytes());
    v.extend_from_slice(&(-3i32).to_le_bytes());
    v.extend_from_slice(&5i32.to_le_bytes());
    v.extend_from_slice(&[0u8; 8]);
    v.extend_from_slice(body);
    v
}

fn node_of(data: &[u8]) -> Node {
    Node { offset: 0, size: data.len() as u32, t: NodeType::Pid }
}

#[test]
fn pid_plain_indices() {
    let data = pid_bytes(flags::MIRROR, 2, 2, &[1, 2, 3, 4]);
    let mut s = ByteStream::new(&data);
    let pid = read_as_pid(&node_of(&data), &mut s).unwrap();
    assert_eq!(pid.indices.as_inner(), &[1, 2, 3, 4]);
    assert!(pid.palette.is_none());
    assert_eq!(pid.info.size, [2, 2]);
    assert_eq!(pid.info.offset, [-3, 5]);
    assert!(pid.info.mirror);
    assert!(!pid.info.invert);
}

#[test]
fn pid_plain_repeat() {
    let data = pid_bytes(0, 4, 1, &[0xC3, 5, 9]);
    let mut s = ByteStream::new(&data);
    let pid = read_as_pid(&node_of(&data), &mut s).unwrap();
    assert_eq!(pid.indices.as_inner(), &[5, 5, 5, 9]);
}

#[test]
fn pid_rle_skips() {
    let data = pid_bytes(flags::COMPRESSION, 2, 2, &[0x82, 0x02, 7, 8]);
    let mut s = ByteStream::new(&data);
    let pid = read_as_pid(&node_of(&data), &mut s).unwrap();
    assert_eq!(pid.indices.as_inner(), &[0, 0, 7, 8]);
}

#[test]
fn pid_short_data_cannot_go_on() {
    let data = pid_bytes(0, 2, 2, &[1, 2]);
    let mut s = ByteStream::new(&data);
    assert!(read_as_pid_checked(&node_of(&data), &mut s).is_none());
}

#[test]
fn pid_header_past_end() {
    let data = vec![0u8; 10];
    let mut s = ByteStream::new(&data);
    let node = Node { offset: 0, size: 40, t: NodeType::Pid };
    match read_as_pid(&node, &mut s) {
        Err(e) => assert_eq!(e, ReadError::UnexpectedEof),
        Ok(_) => panic!("a header past the end was read"),
    }
}

#[test]
fn pid_embedded_palette_and_image() {
    let mut body = vec![1, 2, 0, 1];
    let palette: Vec<u8> = (0..768).map(|i| (i % 251) as u8).collect();
    body.extend_from_slice(&palette);
    let data = pid_bytes(flags::EMBEDDED_PALETTE, 2, 2, &body);
    let mut s = ByteStream::new(&data);
    let pid = read_as_pid(&node_of(&data), &mut s).unwrap();
    assert_eq!(pid.palette.as_ref().unwrap().as_inner(), &palette[..]);
    let img: PxBufSized<RGB, u8> = pid.build_image();
    assert_eq!(img.size(), &[2, 2]);
    let mut expected = Vec::new();
    for i in [1usize, 2, 0, 1] {
        expected.extend_from_slice(&palette[i * 3..i * 3 + 3]);
    }
    assert_eq!(img.as_inner(), &expected[..]);
}

#[test]
fn pid_skipped_pixels_keep_prefill() {
    let mut to = vec![9u8; 4];
    assert!(wap::pid::indices::decode_rle_to(&[0x82, 2, 5, 6], &mut to));
    assert_eq!(to, vec![9, 9, 5, 6]);
    let mut to = vec![9u8; 4];
    assert!(wap::pid::indices::decode_plain_to(&[0xC2, 4, 1, 2], &mut to));
    assert_eq!(to, vec![4, 4, 1, 2]);
}
