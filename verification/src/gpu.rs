//! Sizes and byte buffers for what is handed to the renderer.

use vstd::prelude::*;

verus! {

/// Bytes of one pixel of the pixel buffer: four channels of four bytes.
pub const BYTES_PER_PIXEL: u32 = 16;

/// Size in bytes of the pixel buffer for a frame of `width` by `height` pixels.
pub fn pixel_buffer_size(width: u32, height: u32) -> (size: u64)
    requires
        width * height * BYTES_PER_PIXEL <= u32::MAX,
    ensures
        size == width * height * BYTES_PER_PIXEL,
{
    proof {
        assert(width * height <= width * height * 16) by (nonlinear_arith)
            requires
                0 <= width,
                0 <= height,
        ;
        assert(width * height * 4 * 4 == width * height * 16) by (nonlinear_arith);
        assert(width * height * 4 <= width * height * 16) by (nonlinear_arith)
            requires
                0 <= width,
                0 <= height,
        ;
    }
    let bytes: u32 = width * height * 4 * 4;
    bytes as u64
}

/// The first `count` of the given slices, one after the other.
pub open spec fn concatenated(slices: Seq<&[u8]>, count: int) -> Seq<u8>
    decreases count,
{
    if count <= 0 {
        Seq::empty()
    } else {
        concatenated(slices, count - 1) + slices[count - 1]@
    }
}

/// Joins slices of bytes into one buffer, in their order.
pub fn concat_slices(slices: &[&[u8]]) -> (bytes: Vec<u8>)
    ensures
        bytes@ == concatenated(slices@, slices@.len() as int),
{
    let mut bytes: Vec<u8> = Vec::new();
    let mut i: usize = 0;
    while i < slices.len()
        invariant
            i <= slices@.len(),
            bytes@ == concatenated(slices@, i as int),
        decreases slices@.len() - i,
    {
        let slice = slices[i];
        let ghost before = bytes@;
        let mut j: usize = 0;
        while j < slice.len()
            invariant
                j <= slice@.len(),
                bytes@ == before + slice@.subrange(0, j as int),
            decreases slice@.len() - j,
        {
            bytes.push(slice[j]);
            assert(bytes@ =~= before + slice@.subrange(0, j + 1));
            j = j + 1;
        }
        assert(slice@.subrange(0, slice@.len() as int) =~= slice@);
        i = i + 1;
    }
    bytes
}

} // verus!
