use wap::ani::{read_as_ani, read_as_ani_checked, AnimationDurations, DEFAULT_ANIMATION_DURATION};
use wap::res::node::{Node, NodeType};
use wap::utils::{ByteStream, ReadError};

fn record(flags: u8, duration: u16) -> Vec<u8> {
    let mut r = vec![0u8; 20];
    r[0] = flags;
    r[10..12].copy_from_slice(&duration.to_le_bytes());
    r
}

fn ani_bytes(frames: u32, offset: u32, body: &[u8]) -> Vec<u8> {
    let mut v = vec![0u8; 32];
    v[12..16].copy_from_slice(&frames.to_le_bytes());
    v[16..20].copy_from_slice(&offset.to_le_bytes());
    v.extend_from_slice(body);
    v
}

fn node_of(data: &[u8]) -> Node {
    Node { offset: 0, size: data.len() as u32, t: NodeType::Ani }
}

#[test]
fn ani_durations_with_effect_text() {
    let mut body = vec![0xEEu8; 3];
    body.extend_from_slice(&record(0, 100));
    body.extend_from_slice(&record(2, 50));
    body.extend_from_slice(b"sound\0");
    body.extend_from_slice(&record(0, 70));
    let data = ani_bytes(3, 3, &body);
    let mut s = ByteStream::new(&data);
    let a = read_as_ani(&node_of(&data), &mut s).unwrap();
    assert_eq!(a.durations, vec![100, 50, 70]);
    assert_eq!(a.frames_num(), 3);
}

#[test]
fn ani_zero_duration_gives_defaults() {
    let mut body = record(0, 100);
    body.extend_from_slice(&record(0, 0));
    let data = ani_bytes(2, 0, &body);
    let mut s = ByteStream::new(&data);
    let a = read_as_ani(&node_of(&data), &mut s).unwrap();
    assert_eq!(a.durations, vec![DEFAULT_ANIMATION_DURATION; 2]);
}

#[test]
fn ani_without_frames_cannot_go_on() {
    let data = ani_bytes(0, 0, &[]);
    let mut s = ByteStream::new(&data);
    assert!(read_as_ani_checked(&node_of(&data), &mut s).is_none());
}

#[test]
fn ani_node_past_end() {
    let data = ani_bytes(1, 0, &record(0, 5));
    let mut s = ByteStream::new(&data);
    let node = Node { offset: 4, size: data.len() as u32, t: NodeType::Ani };
    match read_as_ani(&node, &mut s) {
        Err(e) => assert_eq!(e, ReadError::UnexpectedEof),
        Ok(_) => panic!("a node past the end was read"),
    }
}

#[test]
fn ani_defaults() {
    assert_eq!(AnimationDurations::default().frames_num(), 0);
    assert_eq!(AnimationDurations::default_with_frames(3).durations, vec![40, 40, 40]);
}
