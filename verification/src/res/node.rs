use vstd::prelude::*;

verus! {

/// A resource inside a package: where it lies and what it is.
#[derive(Debug, Clone, Copy, PartialEq, Eq, Structural)]
pub struct Node {
    /// Seek-position rel by start.
    pub offset: u32,
    /// Size of block.
    pub size: u32,
    /// Type of node
    pub t: NodeType,
}

/// A node borrowed together with a type.
pub struct TypedNode<'n> {
    pub n: &'n Node,
    pub t: NodeType,
}

/// The kind of a resource, after its extension.
#[derive(Debug, Clone, Copy, PartialEq, Eq, Structural)]
pub enum NodeType {
    /// Animation
    Ani,
    /// Palette
    Pal,
    Pid,
    Pcx,
    Wav,
    /// X-Midi
    Xmi,
    /// World (level)
    Wwd,
    /// Text. Can be encrypted.
    Txt,
    /// e.g. `.BAT`, `.BMP`,..
    Unknown,
}

/// The type named by the three bytes of a (reversed) extension.
pub open spec fn spec_type_from_ext(e: Seq<u8>) -> NodeType {
    if e =~= seq![73u8, 78, 65] {
        NodeType::Ani  // "INA"
    } else if e =~= seq![76u8, 65, 80] {
        NodeType::Pal  // "LAP"
    } else if e =~= seq![68u8, 73, 80] {
        NodeType::Pid  // "DIP"
    } else if e =~= seq![88u8, 67, 80] {
        NodeType::Pcx  // "XCP"
    } else if e =~= seq![86u8, 65, 87] {
        NodeType::Wav  // "VAW"
    } else if e =~= seq![68u8, 87, 87] {
        NodeType::Wwd  // "DWW"
    } else if e =~= seq![73u8, 77, 88] {
        NodeType::Xmi  // "IMX"
    } else if e =~= seq![84u8, 88, 84] {
        NodeType::Txt  // "TXT"
    } else {
        NodeType::Unknown
    }
}

fn ext_is(ext: &[u8], a: u8, b: u8, c: u8) -> (r: bool)
    requires
        ext@.len() >= 3,
    ensures
        r == (ext@.take(3) =~= seq![a, b, c]),
{
    ext[0] == a && ext[1] == b && ext[2] == c
}

/// The type of a node after the first three bytes of its (reversed) extension.
pub fn type_from_ext(ext: &[u8]) -> (t: NodeType)
    requires
        ext@.len() >= 3,
    ensures
        t == spec_type_from_ext(ext@.take(3)),
{
    if ext_is(ext, 73, 78, 65) {
        NodeType::Ani
    } else if ext_is(ext, 76, 65, 80) {
        NodeType::Pal
    } else if ext_is(ext, 68, 73, 80) {
        NodeType::Pid
    } else if ext_is(ext, 88, 67, 80) {
        NodeType::Pcx
    } else if ext_is(ext, 86, 65, 87) {
        NodeType::Wav
    } else if ext_is(ext, 68, 87, 87) {
        NodeType::Wwd
    } else if ext_is(ext, 73, 77, 88) {
        NodeType::Xmi
    } else if ext_is(ext, 84, 88, 84) {
        NodeType::Txt
    } else {
        NodeType::Unknown
    }
}

} // verus!
