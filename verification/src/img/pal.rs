use vstd::prelude::*;
use crate::res::node::Node;
use crate::utils::{ByteStream, ReadError, in_stream};
use super::pixels::Palette;
use super::pixels::format::RGB;

verus! {

/// Bytes in a palette of 256 RGB colours.
pub const PALETTE_256_LEN: usize = 768;

/// Where the palette of `node` starts when the stream stands at `pos`:
/// at `pos` itself for a node that is exactly a palette file, else at the end of the node.
/// `None` where that position does not fit the 32-bit arithmetic of nodes.
pub open spec fn palette_256_pos(node: Node, pos: int) -> Option<int> {
    if node.offset == 0 && node.size == 768 {
        Some(pos)
    } else if node.size < 768 || node.offset as int + (node.size - 768) > u32::MAX {
        None
    } else {
        Some(node.offset as int + (node.size - 768))
    }
}

/// Read 256-colors palette from the end of the node.
/// A node that is exactly a palette file is read from the current position.
pub fn read_palette_256_to(node: &Node, from: &mut ByteStream, to: &mut [u8]) -> (r: Result<(), ReadError>)
    requires
        palette_256_pos(*node, old(from).spec_pos()) is Some,
    ensures
        final(from).spec_data() == old(from).spec_data(),
        final(to)@.len() == old(to)@.len(),
        ({
            let pos = palette_256_pos(*node, old(from).spec_pos()).unwrap();
            match r {
                Ok(()) => in_stream(old(from).spec_data().len() as int, pos, old(to)@.len() as int)
                    && final(to)@ == old(from).spec_data().subrange(pos, pos + old(to)@.len())
                    && final(from).spec_pos() == pos + old(to)@.len(),
                Err(e) => !in_stream(old(from).spec_data().len() as int, pos, old(to)@.len() as int)
                    && e == ReadError::UnexpectedEof && final(to)@ == old(to)@,
            }
        }),
{
    if !(node.offset == 0 && node.size == 256 * 3) {
        // ommit seek for exactly pal-files
        from.seek((node.offset + (node.size - 256 * 3)) as u64);
    }
    let bytes = from.read_exact(to.len())?;
    let n = to.len();
    let mut i: usize = 0;
    while i < n
        invariant
            n == to@.len(),
            bytes@.len() == n,
            i <= n,
            forall|j: int| 0 <= j < i ==> to@[j] == bytes@[j],
        decreases n - i,
    {
        to[i] = bytes[i];
        i = i + 1;
    }
    assert(to@ =~= bytes@);
    Ok(())
}

/// Read 256-colors palette from the end of the node and wrap into the `Palette<RGB>`.
pub fn read_palette_256(node: &Node, from: &mut ByteStream) -> (r: Result<Palette<RGB>, ReadError>)
    requires
        palette_256_pos(*node, old(from).spec_pos()) is Some,
    ensures
        final(from).spec_data() == old(from).spec_data(),
        ({
            let pos = palette_256_pos(*node, old(from).spec_pos()).unwrap();
            match r {
                Ok(pal) => in_stream(old(from).spec_data().len() as int, pos, 768)
                    && pal@ == old(from).spec_data().subrange(pos, pos + 768)
                    && final(from).spec_pos() == pos + 768,
                Err(e) => !in_stream(old(from).spec_data().len() as int, pos, 768)
                    && e == ReadError::UnexpectedEof,
            }
        }),
{
    let mut palette = vec![0u8; PALETTE_256_LEN];
    read_palette_256_to(node, from, palette.as_mut_slice())?;
    Ok(Palette::new(palette))
}

} // verus!
