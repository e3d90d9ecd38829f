use wap::img::pal::{read_palette_256, read_palette_256_to};
use wap::img::pixels::format::{PxFmt, A, ARGB, I, RGB, RGBA};
use wap::img::pixels::{Indices, PxBuf, PxBufSized, PxComponents, Pxls, PxlsSized};
use wap::res::node::{Node, NodeType};
use wap::utils::{ByteStream, ReadError};

#[test]
fn pixel_format_components() {
    assert_eq!(RGBA::components(), 4);
    assert_eq!(ARGB::components(), 4);
    assert_eq!(RGB::components(), 3);
    assert_eq!(I::components(), 1);
    assert_eq!(A::components(), 1);
}

#[test]
fn sized_buffer_dimensions() {
    let buf: PxBufSized<RGB, u8> = PxBufSized::new(vec![0u8; 2 * 3 * 3], 2, 3);
    assert_eq!(buf.size(), &[2, 3]);
    assert_eq!(buf.offset(), &[0, 0]);
    assert_eq!(buf.color_components(), 3);
    assert_eq!(buf.pixels().len(), 18);
    let sq: PxBufSized<A, u8> = PxBufSized::new_rect(vec![1u8; 16], 4);
    assert_eq!(sq.size(), &[4, 4]);
    assert_eq!(sq.into_inner(), vec![1u8; 16]);
}

#[test]
fn indices_alpha_round_trip() {
    let idx: Indices = PxBuf::new(vec![1, 2, 3]);
    let alpha: PxBuf<A, u8> = idx.into();
    assert_eq!(alpha.as_inner(), &[1, 2, 3]);
    let back: Indices = alpha.into();
    assert_eq!(back.into_inner(), vec![1, 2, 3]);
}

#[test]
fn palette_from_end_of_node() {
    let mut data = vec![0xFFu8; 10];
    let colors: Vec<u8> = (0..768).map(|i| (i % 7) as u8).collect();
    data.extend_from_slice(&colors);
    let node = Node { offset: 2, size: 8 + 768, t: NodeType::Pal };
    let mut s = ByteStream::new(&data);
    let pal = read_palette_256(&node, &mut s).unwrap();
    assert_eq!(pal.as_inner(), &colors[..]);
}

#[test]
fn palette_file_read_in_place() {
    let colors: Vec<u8> = (0..800).map(|i| (i % 5) as u8).collect();
    let node = Node { offset: 0, size: 768, t: NodeType::Pal };
    let mut s = ByteStream::new(&colors);
    s.seek(10);
    let mut to = [0u8; 768];
    read_palette_256_to(&node, &mut s, &mut to).unwrap();
    assert_eq!(&to[..], &colors[10..778]);
}

#[test]
fn palette_past_end() {
    let data = vec![0u8; 100];
    let node = Node { offset: 0, size: 800, t: NodeType::Pal };
    let mut s = ByteStream::new(&data);
    match read_palette_256(&node, &mut s) {
        Err(e) => assert_eq!(e, ReadError::UnexpectedEof),
        Ok(_) => panic!("a palette past the end was read"),
    }
}
