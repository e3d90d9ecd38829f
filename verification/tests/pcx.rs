use pcx::{WriterPaletted, WriterRgb};
use wap::img::pixels::PxlsSized;
use wap::pcx::read_as_pcx;
use wap::res::node::{Node, NodeType};
use wap::utils::ByteStream;

/// A 3 by 2 paletted image, after 5 bytes of other data.
fn paletted_file(indices: &[[u8; 3]; 2], palette: &[u8]) -> Vec<u8> {
    let mut data = vec![0xEEu8; 5];
    let mut w = WriterPaletted::new(&mut data, (3, 2), (300, 300)).unwrap();
    for row in indices {
        w.write_row(row).unwrap();
    }
    w.write_palette(palette).unwrap();
    data
}

#[test]
fn pcx_paletted_to_rgb() {
    let palette: Vec<u8> = (0..768).map(|i| (i % 253) as u8).collect();
    let indices = [[0u8, 1, 2], [255, 7, 0]];
    let data = paletted_file(&indices, &palette);
    let node = Node { offset: 5, size: (data.len() - 5) as u32, t: NodeType::Pcx };
    let mut s = ByteStream::new(&data);
    let img = read_as_pcx(&node, &mut s).unwrap().unwrap();
    assert_eq!(img.size(), &[3, 2]);
    let mut expected = Vec::new();
    for row in &indices {
        for &i in row {
            expected.extend_from_slice(&palette[i as usize * 3..i as usize * 3 + 3]);
        }
    }
    assert_eq!(img.as_inner(), &expected[..]);
}

#[test]
fn pcx_rgb_image() {
    let mut data = Vec::new();
    let mut w = WriterRgb::new(&mut data, (2, 2), (300, 300)).unwrap();
    w.write_row(&[1, 2, 3, 4, 5, 6]).unwrap();
    w.write_row(&[7, 8, 9, 10, 11, 12]).unwrap();
    w.finish().unwrap();
    let node = Node { offset: 0, size: data.len() as u32, t: NodeType::Pcx };
    let mut s = ByteStream::new(&data);
    let img = read_as_pcx(&node, &mut s).unwrap().unwrap();
    assert_eq!(img.size(), &[2, 2]);
    assert_eq!(img.as_inner(), &[1, 2, 3, 4, 5, 6, 7, 8, 9, 10, 11, 12]);
}

#[test]
fn pcx_not_an_image() {
    let data = vec![1u8; 200];
    let node = Node { offset: 0, size: 200, t: NodeType::Pcx };
    let mut s = ByteStream::new(&data);
    assert!(matches!(read_as_pcx(&node, &mut s), Some(Err(_))));
}
