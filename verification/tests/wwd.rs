use std::io::Write;
use wap::res::node::{Node, NodeType};
use wap::utils::{ByteStream, ReadError};
use wap::wwd::ds::{RawWwdHeader, TilePropertiesType, COMPRESS};
use wap::wwd::{parse_wwd_body, read_as_wwd, read_as_wwd_checked, RawTileAttrs};

fn put_u32(v: &mut [u8], at: usize, x: u32) {
    v[at..at + 4].copy_from_slice(&x.to_le_bytes());
}

fn put_str(v: &mut [u8], at: usize, s: &[u8]) {
    v[at..at + s.len()].copy_from_slice(s);
}

/// A header of one plane whose body starts at 1524.
fn header_bytes(flags: u32) -> Vec<u8> {
    let mut h = vec![0u8; 1516];
    put_u32(&mut h, 0, flags);
    put_str(&mut h, 8, b"Level");
    put_u32(&mut h, 724, 1);
    put_u32(&mut h, 728, 1524);
    put_u32(&mut h, 732, 1524 + 465);
    put_u32(&mut h, 736, 557);
    put_str(&mut h, 876, b"C:\\A\\IMAGEZ");
    put_str(&mut h, 876 + 128, b"GAME\\TILES");
    put_str(&mut h, 876 + 256, b"X_IMAGEZ");
    put_str(&mut h, 1388, b"A");
    h
}

/// The body of one plane: 2 by 1 tiles, the image set `ACTION`, one object, and
/// the properties of two tiles.
fn body_bytes(tilesets: u32) -> Vec<u8> {
    let mut b = vec![0u8; 557];
    // plane head
    put_u32(&mut b, 0, 160);
    put_str(&mut b, 16, b"Action");
    put_u32(&mut b, 88, 64);
    put_u32(&mut b, 92, 64);
    put_u32(&mut b, 96, 2);
    put_u32(&mut b, 100, 1);
    put_u32(&mut b, 124, tilesets);
    put_u32(&mut b, 128, 1);
    put_u32(&mut b, 132, 1524 + 160);
    put_u32(&mut b, 136, 1524 + 168);
    put_u32(&mut b, 140, 1524 + 175);
    // tiles
    put_u32(&mut b, 160, 7);
    put_u32(&mut b, 164, 9);
    // image-set name
    put_str(&mut b, 168, b"ACTION\0");
    // object
    put_u32(&mut b, 175, 5);
    put_u32(&mut b, 175 + 4, 3);
    put_u32(&mut b, 175 + 8, 2);
    put_u32(&mut b, 175 + 12, 0);
    put_u32(&mut b, 175 + 16, 1);
    put_u32(&mut b, 175 + 20, 10);
    put_str(&mut b, 175 + 284, b"ObjLgA");
    // tile properties
    put_u32(&mut b, 465, 32);
    put_u32(&mut b, 465 + 8, 2);
    put_u32(&mut b, 497, 1);
    put_u32(&mut b, 497 + 8, 64);
    put_u32(&mut b, 497 + 12, 64);
    put_u32(&mut b, 497 + 16, 3);
    put_u32(&mut b, 517, 2);
    put_u32(&mut b, 517 + 16, 1);
    put_u32(&mut b, 517 + 20, 2);
    put_u32(&mut b, 517 + 24, 11);
    put_u32(&mut b, 517 + 36, 44);
    b
}

fn world(flags: u32, body: &[u8]) -> (Vec<u8>, Node) {
    let mut data = Vec::new();
    data.extend_from_slice(&1524u32.to_le_bytes());
    data.extend_from_slice(&[0u8; 4]);
    data.extend_from_slice(&header_bytes(flags));
    data.extend_from_slice(body);
    let node = Node { offset: 0, size: data.len() as u32, t: NodeType::Wwd };
    (data, node)
}

fn check_world(data: &[u8], node: &Node) {
    let mut s = ByteStream::new(data);
    let (attrs, header, planes) = read_as_wwd(node, &mut s).unwrap();
    assert_eq!(header.planes_num, 1);
    assert_eq!(&header.name[..5], b"Level");
    assert_eq!(planes.len(), 1);
    let p = &planes[0];
    assert_eq!(p.i, 0);
    assert_eq!(p.properties.tile_wide, 2);
    assert_eq!(&p.properties.name[..6], b"Action");
    assert_eq!(p.tiles, vec![7, 9]);
    assert_eq!(p.tileset_names, vec!["ACTION".to_string()]);
    assert_eq!(p.tileset, vec!["C:\\A\\ACTION".to_string(), "X_ACTION".to_string()]);
    assert_eq!(p.objects.len(), 1);
    let o = &p.objects[0];
    assert_eq!(o.i, 0);
    assert_eq!(o.properties.id, 5);
    assert_eq!(o.properties.x, 10);
    assert_eq!(o.traits.name, b"Obj".to_vec());
    assert_eq!(o.traits.logic, b"Lg".to_vec());
    assert!(o.traits.graphic.is_empty());
    assert_eq!(o.traits.animation, b"A".to_vec());
    assert_eq!(attrs.len(), 2);
    match &attrs[0] {
        RawTileAttrs::Single(t) => {
            assert!(matches!(t.dtype, TilePropertiesType::Single));
            assert_eq!(t.width, 64);
            assert_eq!(t.inside, 3);
        },
        _ => panic!("the first tile is of one kind"),
    }
    match &attrs[1] {
        RawTileAttrs::Double(t) => {
            assert!(matches!(t.dtype, TilePropertiesType::Double));
            assert_eq!(t.outside, 1);
            assert_eq!(t.inside, 2);
            assert_eq!(t.rect, [11, 0, 0, 44]);
        },
        _ => panic!("the second tile is of two kinds"),
    }
    let mut s = ByteStream::new(data);
    assert!(matches!(read_as_wwd_checked(node, &mut s), Some(Ok(_))));
}

#[test]
fn wwd_uncompressed_world() {
    let (data, node) = world(0, &body_bytes(1));
    check_world(&data, &node);
}

#[test]
fn wwd_compressed_world() {
    let mut enc = libflate::zlib::Encoder::new(Vec::new()).unwrap();
    enc.write_all(&body_bytes(1)).unwrap();
    let packed = enc.finish().into_result().unwrap();
    let (data, node) = world(COMPRESS, &packed);
    check_world(&data, &node);
}

#[test]
fn wwd_bad_zlib_stream() {
    let (data, node) = world(COMPRESS, &[1, 2, 3, 4, 5]);
    let mut s = ByteStream::new(&data);
    match read_as_wwd(&node, &mut s) {
        Err(e) => assert_eq!(e, ReadError::InvalidData),
        _ => panic!("a broken stream was inflated"),
    }
}

#[test]
fn wwd_two_image_sets_cannot_go_on() {
    let (data, node) = world(0, &body_bytes(2));
    let mut s = ByteStream::new(&data);
    assert!(read_as_wwd_checked(&node, &mut s).is_none());
}

#[test]
fn wwd_body_of_other_length_cannot_go_on() {
    let mut body = body_bytes(1);
    body.push(0);
    let (data, node) = world(0, &body);
    let mut s = ByteStream::new(&data);
    assert!(read_as_wwd_checked(&node, &mut s).is_none());
}

#[test]
fn wwd_names_elsewhere_cannot_go_on() {
    let mut body = body_bytes(1);
    put_u32(&mut body, 136, 1524 + 169);
    let (data, node) = world(0, &body);
    let mut s = ByteStream::new(&data);
    assert!(read_as_wwd_checked(&node, &mut s).is_none());
}

#[test]
fn wwd_short_data() {
    let (data, node) = world(0, &body_bytes(1));
    let mut s = ByteStream::new(&data[..1000]);
    match read_as_wwd(&node, &mut s) {
        Err(e) => assert_eq!(e, ReadError::UnexpectedEof),
        _ => panic!("a cut header was read"),
    }
}

#[test]
fn wwd_parse_body_directly() {
    let h = header_bytes(0);
    let header = RawWwdHeader::read(&h, 0);
    let body = body_bytes(1);
    let (attrs, planes) = parse_wwd_body(&header, &body).unwrap();
    assert_eq!(attrs.len(), 2);
    assert_eq!(planes[0].tiles, vec![7, 9]);
    // a body cut before the tile properties
    assert!(parse_wwd_body(&header, &body[..480]).is_none());
}
