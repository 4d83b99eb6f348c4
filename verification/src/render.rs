use crate::tiles::{lemma_cell_join, lemma_cell_split};
use vstd::prelude::*;

verus! {

/// The pixel value that is never copied from a keyed block: the background
/// shows through where a sprite holds it.
pub const TRANSPARENT: u32 = 0;

/// Whether pixel `i` of a buffer that is `stride` pixels wide takes its value
/// from `block` when that block of `size` by `size` pixels is painted over the
/// tile at `pos`, and before the painting has reached row `rt`, column `ct`
/// of the block. A keyed block leaves out its transparent pixels.
pub open spec fn takes_pixel(
    i: int,
    stride: usize,
    size: usize,
    pos: (usize, usize),
    block: Seq<u32>,
    keyed: bool,
    rt: int,
    ct: int,
) -> bool {
    let br = i / (stride as int) - pos.0 * size;
    let bc = i % (stride as int) - pos.1 * size;
    &&& 0 <= br < size
    &&& 0 <= bc < size
    &&& br < rt || (br == rt && bc < ct)
    &&& !(keyed && block[br * size + bc] == TRANSPARENT)
}

/// The pixel of `block` that lands on pixel `i` of the buffer.
pub open spec fn block_pixel(
    i: int,
    stride: usize,
    size: usize,
    pos: (usize, usize),
    block: Seq<u32>,
) -> u32 {
    let br = i / (stride as int) - pos.0 * size;
    let bc = i % (stride as int) - pos.1 * size;
    block[br * size + bc]
}

/// The buffer after the rows of `block` before row `rt`, and the pixels of
/// row `rt` before column `ct`, have been painted over the tile at `pos`.
pub open spec fn partly_painted(
    pixels: Seq<u32>,
    stride: usize,
    size: usize,
    pos: (usize, usize),
    block: Seq<u32>,
    keyed: bool,
    rt: int,
    ct: int,
) -> Seq<u32> {
    Seq::new(
        pixels.len(),
        |i: int|
            if takes_pixel(i, stride, size, pos, block, keyed, rt, ct) {
                block_pixel(i, stride, size, pos, block)
            } else {
                pixels[i]
            },
    )
}

/// The buffer after `block` has been painted over the tile at `pos`: the
/// pixel in row `rt`, column `ct` of the block lands in row
/// `pos.0 * size + rt`, column `pos.1 * size + ct` of the buffer, and every
/// other pixel of the buffer stays.
pub open spec fn spec_paint(
    pixels: Seq<u32>,
    stride: usize,
    size: usize,
    pos: (usize, usize),
    block: Seq<u32>,
    keyed: bool,
) -> Seq<u32> {
    partly_painted(pixels, stride, size, pos, block, keyed, size as int, 0)
}

/// Copies a block of `size` by `size` pixels over the tile at `pos` of a
/// buffer that is `stride` pixels wide. A keyed block leaves the buffer as it
/// is wherever the block is transparent.
pub fn paint(
    buffer: &mut [u32],
    stride: usize,
    size: usize,
    pos: (usize, usize),
    block: &[u32],
    keyed: bool,
)
    requires
        block@.len() == size * size,
        pos.1 * size + size <= stride,
        (pos.0 * size + size) * stride <= old(buffer)@.len(),
    ensures
        final(buffer)@ == spec_paint(old(buffer)@, stride, size, pos, block@, keyed),
{
    let ghost before = buffer@;
    let ghost n = buffer.len();
    let ghost m = block.len();
    assert(buffer@ =~= partly_painted(before, stride, size, pos, block@, keyed, 0, 0));
    if size == 0 {
        assert(buffer@ =~= spec_paint(before, stride, size, pos, block@, keyed));
        return ;
    }
    proof {
        assert(0 <= pos.0 * size && 0 <= pos.1 * size) by (nonlinear_arith);
        assert(pos.0 * size + size <= (pos.0 * size + size) * stride) by (nonlinear_arith)
            requires
                stride >= 1,
                pos.0 * size + size >= 0,
        ;
    }
    let base_r = pos.0 * size;
    let base_c = pos.1 * size;
    let mut rt: usize = 0;
    while rt < size
        invariant
            0 <= rt <= size,
            size > 0,
            base_r == pos.0 * size,
            base_c == pos.1 * size,
            block@.len() == size * size,
            m == size * size,
            base_c + size <= stride,
            (base_r + size) * stride <= n,
            n == before.len(),
            buffer@ == partly_painted(before, stride, size, pos, block@, keyed, rt as int, 0),
        decreases size - rt,
    {
        let mut ct: usize = 0;
        while ct < size
            invariant
                0 <= rt < size,
                0 <= ct <= size,
                base_r == pos.0 * size,
                base_c == pos.1 * size,
                block@.len() == size * size,
            m == size * size,
                base_c + size <= stride,
                (base_r + size) * stride <= n,
                n == before.len(),
                buffer@ == partly_painted(
                    before,
                    stride,
                    size,
                    pos,
                    block@,
                    keyed,
                    rt as int,
                    ct as int,
                ),
            decreases size - ct,
        {
            proof {
                assert((base_r + rt) * stride + stride <= (base_r + size) * stride)
                    by (nonlinear_arith)
                    requires
                        rt + 1 <= size,
                ;
                assert(0 <= (base_r + rt) * stride) by (nonlinear_arith);
                assert(rt * size + size <= size * size) by (nonlinear_arith)
                    requires
                        rt + 1 <= size,
                ;
                assert(0 <= rt * size) by (nonlinear_arith);
                lemma_cell_split(base_r + rt, base_c + ct, stride as int);
            }
            let color = block[rt * size + ct];
            if !keyed || color != TRANSPARENT {
                buffer[(base_r + rt) * stride + base_c + ct] = color;
            }
            proof {
                let next = partly_painted(
                    before,
                    stride,
                    size,
                    pos,
                    block@,
                    keyed,
                    rt as int,
                    ct + 1,
                );
                assert forall|i: int| 0 <= i < n implies buffer@[i] == next[i] by {
                    lemma_cell_join(i, stride as int);
                }
                assert(buffer@ =~= next);
            }
            ct += 1;
        }
        proof {
            let next = partly_painted(before, stride, size, pos, block@, keyed, rt + 1, 0);
            assert(buffer@ =~= next);
        }
        rt += 1;
    }
}

} // verus!
