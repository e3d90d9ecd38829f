use wap::res::index::Index;
use wap::res::node::{type_from_ext, Node, NodeType};
use wap::res::pack::{read_package, Package, PackageKind};
use wap::common::{Reader, ReaderTo};
use wap::res::reader::{
    read_ref_to, read_to, read_to_checked, read_to_within, Header, PackEvent, PackReader,
};
use wap::res::rpm::RpmBuilder;
use wap::utils::{ByteStream, ReadError};

fn file_entry(offset: u32, size: u32, ext: &[u8; 3], name: &[u8]) -> Vec<u8> {
    let mut v = vec![0u8, 0, 0, 0];
    v.extend_from_slice(&offset.to_le_bytes());
    v.extend_from_slice(&size.to_le_bytes());
    v.extend_from_slice(&[0u8; 4]);
    v.extend_from_slice(&[0u8; 4]);
    v.extend_from_slice(ext);
    v.push(0);
    v.extend_from_slice(&[0u8; 4]);
    v.extend_from_slice(name);
    v.push(0);
    v.push(0);
    v
}

fn dir_entry(offset: u32, size: u32, name: &[u8]) -> Vec<u8> {
    let mut v = vec![1u8, 0, 0, 0];
    v.extend_from_slice(&offset.to_le_bytes());
    v.extend_from_slice(&size.to_le_bytes());
    v.extend_from_slice(&[0u8; 4]);
    v.extend_from_slice(name);
    v.push(0);
    v
}

/// A package with `A.DIP` in its root and `B.INA` in the directory `SUB`.
fn package() -> Vec<u8> {
    let mut sub = file_entry(2000, 7, b"INA", b"B");
    sub.extend_from_slice(&file_entry(3000, 0, b"XXX", b"EMPTY"));
    let mut root = file_entry(1000, 5, b"DIP", b"A");
    let dir_len = 16 + 3 + 1;
    let sub_at = 256 + (root.len() + dir_len) as u32;
    root.extend_from_slice(&dir_entry(sub_at, sub.len() as u32, b"SUB"));
    assert_eq!(256 + root.len() as u32, sub_at);
    let mut data = vec![b' '; 256];
    data[..10].copy_from_slice(b"Test pack ");
    data[126] = 0;
    data[127..131].copy_from_slice(&1u32.to_le_bytes());
    data[131..135].copy_from_slice(&256u32.to_le_bytes());
    data[135..139].copy_from_slice(&(root.len() as u32).to_le_bytes());
    data.extend_from_slice(&root);
    data.extend_from_slice(&sub);
    data
}

#[test]
fn read_package_index() {
    let data = package();
    let mut s = ByteStream::new(&data);
    let mut index = Index::new();
    assert!(read_to(&mut s, &mut index).is_ok());
    assert_eq!(
        index.get_node(b"A.DIP"),
        Some(&Node { offset: 1000, size: 5, t: NodeType::Pid })
    );
    assert_eq!(
        index.get_node(b"SUB\\B.INA"),
        Some(&Node { offset: 2000, size: 7, t: NodeType::Ani })
    );
    assert_eq!(index.get_node(b"SUB\\EMPTY.XXX"), None);
    assert_eq!(index.nodes().len(), 2);
    assert_eq!(index.dirs().len(), 2);
}

#[test]
fn read_ref_to_reports_in_order() {
    let data = package();
    let mut s = ByteStream::new(&data);
    let (events, res) = read_ref_to(&mut s);
    assert!(res.is_ok());
    assert_eq!(events.len(), 4);
    match &events[0] {
        PackEvent::Node(dir, file, node) => {
            assert!(dir.is_empty());
            assert_eq!(file, b"A.DIP");
            assert_eq!(node.offset, 1000);
        },
        _ => panic!("a resource comes first"),
    }
    match &events[1] {
        PackEvent::Dir(dir, files) => {
            assert!(dir.is_empty());
            assert_eq!(files, &vec![b"A.DIP".to_vec()]);
        },
        _ => panic!("then its directory"),
    }
    match &events[2] {
        PackEvent::Node(dir, file, _) => {
            assert_eq!(dir, b"SUB\\");
            assert_eq!(file, b"B.INA");
        },
        _ => panic!("then the resource of the subdirectory"),
    }
}

#[test]
fn read_index_agrees_with_events() {
    let data = package();
    let mut s = ByteStream::new(&data);
    let mut index = Index::new();
    assert!(read_to(&mut s, &mut index).is_ok());
    // every directory lists some resource held under its URI
    for (d, files) in index.dirs() {
        assert!(!files.is_empty());
        assert!(d.is_empty() || d.last() == Some(&b'\\'));
        for f in files {
            let mut uri = d.clone();
            uri.extend_from_slice(f);
            assert!(index.get_node(&uri).is_some());
        }
    }
    for (_, n) in index.nodes() {
        assert!(n.size > 0);
    }
    // the events of the same package are what the index holds, each directory after its nodes
    let mut s = ByteStream::new(&data);
    let (events, res) = read_ref_to(&mut s);
    assert!(res.is_ok());
    let mut pending: Vec<Vec<u8>> = Vec::new();
    for e in &events {
        match e {
            PackEvent::Node(d, f, n) => {
                let mut uri = d.clone();
                uri.extend_from_slice(f);
                assert_eq!(index.get_node(&uri), Some(n));
                pending.push(f.clone());
            },
            PackEvent::Dir(_, files) => {
                assert_eq!(files, &pending);
                pending.clear();
            },
        }
    }
    assert!(pending.is_empty());
}

#[test]
fn read_package_short_head() {
    let data = vec![0u8; 100];
    let mut s = ByteStream::new(&data);
    let mut index = Index::new();
    assert_eq!(read_to(&mut s, &mut index), Err(ReadError::UnexpectedEof));
    assert!(index.is_empty());
}

#[test]
fn read_package_other_version() {
    let mut data = package();
    data[127] = 2;
    let mut s = ByteStream::new(&data);
    let mut index = Index::new();
    assert!(read_to_checked(&mut s, &mut index).is_none());
}

#[test]
fn read_package_into_open_package() {
    let data = package();
    let pack = Package::new("test.rez".to_string(), PackageKind::Main);
    assert!(pack.is_empty());
    let mut opened = pack.open_with(ByteStream::new(&data));
    assert!(read_package(&mut opened).is_ok());
    let pack = opened.close();
    assert!(!pack.is_empty());
    assert_eq!(pack.uri_str(), "test.rez");
    assert_eq!(pack.kind(), &PackageKind::Main);
    assert!(pack.index().get_node(b"A.DIP").is_some());
}

#[test]
fn package_header_text_and_version() {
    let data = package();
    let h = Header::read(&data);
    assert_eq!(h.version(), 1);
    assert_eq!(h.text().unwrap(), "Test pack");
}

#[test]
fn index_insert_then_get() {
    let mut index = Index::new();
    assert!(index.is_empty());
    let a = Node { offset: 1, size: 2, t: NodeType::Txt };
    let b = Node { offset: 3, size: 4, t: NodeType::Wav };
    index.insert_node(b"X".to_vec(), a);
    index.insert_node(b"Y".to_vec(), b);
    index.insert_node(b"X".to_vec(), b);
    assert_eq!(index.get_node(b"X"), Some(&b));
    assert_eq!(index.get_node(b"Y"), Some(&b));
    assert_eq!(index.get_node(b"Z"), None);
    assert_eq!(index.nodes().len(), 2);
    index.insert_dir(b"D\\".to_vec(), vec![b"X".to_vec()]);
    index.insert_dir(b"D\\".to_vec(), vec![b"Y".to_vec()]);
    assert_eq!(index.dirs().len(), 1);
    assert_eq!(index.dirs()[0].1, vec![b"Y".to_vec()]);
}

#[test]
fn type_from_extension() {
    assert_eq!(type_from_ext(b"INA"), NodeType::Ani);
    assert_eq!(type_from_ext(b"LAP"), NodeType::Pal);
    assert_eq!(type_from_ext(b"DIP"), NodeType::Pid);
    assert_eq!(type_from_ext(b"XCP"), NodeType::Pcx);
    assert_eq!(type_from_ext(b"VAW"), NodeType::Wav);
    assert_eq!(type_from_ext(b"DWW"), NodeType::Wwd);
    assert_eq!(type_from_ext(b"IMX"), NodeType::Xmi);
    assert_eq!(type_from_ext(b"TXT"), NodeType::Txt);
    assert_eq!(type_from_ext(b"BAT"), NodeType::Unknown);
    assert_eq!(type_from_ext(b"DIPX"), NodeType::Pid);
}

#[test]
fn rpm_builder_keeps_first_patch() {
    let main = Package::new("main.rez".to_string(), PackageKind::Main);
    let mut b = RpmBuilder::new(main);
    b.add_pack(Package::new("p1".to_string(), PackageKind::Patch));
    b.add_pack(Package::new("p2".to_string(), PackageKind::Patch));
    b.add_pack(Package::new("e1".to_string(), PackageKind::Extra));
    b.add_pack(Package::new("e2".to_string(), PackageKind::Extra));
    b.add_pack(Package::new("v1".to_string(), PackageKind::Voice));
    let main = b.take_main().unwrap();
    assert_eq!(main.uri_str(), "main.rez");
    assert!(b.take_main().is_none());
    b.add_pack(Package::new("m2".to_string(), PackageKind::Main));
    let rpm = b.into_inner();
    assert_eq!(rpm.main.as_ref().unwrap().uri_str(), "m2");
}

fn node(offset: u32) -> Node {
    Node { offset, size: 1, t: NodeType::Unknown }
}

#[test]
fn rpm_consolidate_merges_by_priority() {
    let mut main = Package::new("main.rez".to_string(), PackageKind::Main);
    main.index_mut().insert_node(b"X".to_vec(), node(1));
    main.index_mut().insert_node(b"Y".to_vec(), node(2));
    let mut patch = Package::new("patch.rez".to_string(), PackageKind::Patch);
    patch.index_mut().insert_node(b"Y".to_vec(), node(3));
    let mut extra = Package::new("extra.rez".to_string(), PackageKind::Extra);
    extra.index_mut().insert_node(b"Y".to_vec(), node(4));
    extra.index_mut().insert_node(b"Z".to_vec(), node(5));
    extra.index_mut().insert_dir(b"".to_vec(), vec![b"Z".to_vec()]);
    let mut b = RpmBuilder::new(main);
    b.add_pack(patch);
    b.add_pack(extra);
    b.consolidate();
    let rpm = b.into_inner();
    let index = rpm.index();
    assert_eq!(index.get_node(b"X"), Some(&node(1)));
    assert_eq!(index.get_node(b"Y"), Some(&node(3)));
    assert_eq!(index.get_node(b"Z"), Some(&node(5)));
    assert_eq!(index.get_node(b"W"), None);
    assert_eq!(index.nodes().len(), 3);
    assert_eq!(index.dirs().len(), 1);
}

#[test]
fn package_header_text_not_utf8() {
    let mut data = package();
    data[3] = 0xFF;
    let h = Header::read(&data);
    assert!(h.text().is_err());
}

#[test]
fn pack_reader_traits() {
    let data = package();
    let mut s = ByteStream::new(&data);
    let index = Reader::read(&mut PackReader {}, &mut s).unwrap();
    assert!(index.get_node(b"SUB\\B.INA").is_some());
    let mut s = ByteStream::new(&data);
    let mut into = Index::new();
    ReaderTo::read_to(&mut PackReader {}, &mut s, &mut into).unwrap();
    assert_eq!(into.nodes().len(), 2);
}

#[test]
fn read_package_within_bound() {
    let data = package();
    let mut s = ByteStream::new(&data);
    let mut index = Index::new();
    assert_eq!(read_to_within(&mut s, &mut index, 2), Some(Ok(())));
    assert_eq!(index.nodes().len(), 2);
    let mut s = ByteStream::new(&data);
    let mut index = Index::new();
    assert_eq!(read_to_within(&mut s, &mut index, 1), None);
    assert!(index.is_empty());
}

#[test]
fn read_package_in_a_circle() {
    // the root lists itself as a subdirectory
    let mut root = file_entry(1000, 5, b"DIP", b"A");
    let len = (root.len() + 16 + 5) as u32;
    root.extend_from_slice(&dir_entry(256, len, b"LOOP"));
    let mut data = vec![0u8; 256];
    data[127..131].copy_from_slice(&1u32.to_le_bytes());
    data[131..135].copy_from_slice(&256u32.to_le_bytes());
    data[135..139].copy_from_slice(&len.to_le_bytes());
    data.extend_from_slice(&root);
    let mut s = ByteStream::new(&data);
    let mut index = Index::new();
    assert_eq!(read_to_within(&mut s, &mut index, 100), None);
}
