//! The dense voxel grid: cell layout, index arithmetic and layer slicing.
//!
//! A grid of resolution `n` is a flat buffer of `n * n * n` voxels in row-major
//! order: the cell at lattice coordinate `(x, y, z)` sits at
//! `x + y * n + z * n * n`. A voxel is four bytes, three colour channels and
//! alpha; alpha `0` marks an empty cell.

use crate::scalar::Scalar;
use vstd::prelude::*;

verus! {

/// The empty voxel.
pub const ZERO: [u8; 4] = [0, 0, 0, 0];

/// Number of cells of a cubic grid with edge `size`.
pub open spec fn volume(size: int) -> int {
    size * size * size
}

/// Position in the flat buffer of the cell at lattice coordinate `(x, y, z)`.
pub open spec fn cell_index(x: int, y: int, z: int, size: int) -> int {
    x + y * size + z * (size * size)
}

/// A voxel is solid when its alpha channel is not zero.
pub open spec fn is_solid(voxel: [u8; 4]) -> bool {
    voxel[3] != 0
}

/// A buffer is a grid of resolution `size` when it holds exactly `size³` cells.
pub open spec fn is_grid(voxels: Seq<[u8; 4]>, size: int) -> bool {
    0 < size && voxels.len() == volume(size)
}

/// The grid of resolution `size` whose cells are all empty.
pub open spec fn empty_grid(size: int) -> Seq<[u8; 4]> {
    Seq::new(volume(size) as nat, |i: int| ZERO)
}

/// The `z`-th layer of a grid: the `size²` cells that share that `z`.
pub open spec fn layer(voxels: Seq<[u8; 4]>, size: int, z: int) -> Seq<[u8; 4]> {
    voxels.subrange(z * (size * size), (z + 1) * (size * size))
}

/// Every lattice coordinate inside the cube has its own place inside the buffer.
pub proof fn lemma_cell_index_in_range(x: int, y: int, z: int, size: int)
    requires
        0 <= x < size,
        0 <= y < size,
        0 <= z < size,
    ensures
        0 <= cell_index(x, y, z, size) < volume(size),
        x + y * size < size * size,
{
    assert(y * size <= (size - 1) * size) by (nonlinear_arith)
        requires
            0 <= y <= size - 1,
            0 < size,
    ;
    assert(z * (size * size) <= (size - 1) * (size * size)) by (nonlinear_arith)
        requires
            0 <= z <= size - 1,
            0 < size,
    ;
    assert(0 <= y * size && 0 <= z * (size * size)) by (nonlinear_arith)
        requires
            0 <= y,
            0 <= z,
            0 < size,
    ;
    assert((size - 1) * size + size == size * size) by (nonlinear_arith);
    assert((size - 1) * (size * size) + size * size == size * size * size) by (nonlinear_arith);
}

/// The lattice coordinate is recovered from the place in the buffer by
/// division and remainder.
pub proof fn lemma_cell_index_inverse(x: int, y: int, z: int, size: int)
    requires
        0 <= x < size,
        0 <= y < size,
        0 <= z < size,
    ensures
        cell_index(x, y, z, size) % size == x,
        (cell_index(x, y, z, size) / size) % size == y,
        cell_index(x, y, z, size) / (size * size) == z,
{
    let i = cell_index(x, y, z, size);
    let w = y + z * size;
    assert(i == x + w * size) by (nonlinear_arith)
        requires
            i == x + y * size + z * (size * size),
            w == y + z * size,
    ;
    vstd::arithmetic::div_mod::lemma_fundamental_div_mod_converse(i, size, w, x);
    vstd::arithmetic::div_mod::lemma_fundamental_div_mod_converse(w, size, z, y);
    lemma_cell_index_in_range(x, y, z, size);
    let r = x + y * size;
    assert(size * size > 0) by (nonlinear_arith)
        requires
            size > 0,
    ;
    vstd::arithmetic::div_mod::lemma_fundamental_div_mod_converse(i, size * size, z, r);
}

/// Two lattice coordinates with the same place in the buffer are the same.
pub proof fn lemma_cell_index_injective(
    x1: int,
    y1: int,
    z1: int,
    x2: int,
    y2: int,
    z2: int,
    size: int,
)
    requires
        0 <= x1 < size,
        0 <= y1 < size,
        0 <= z1 < size,
        0 <= x2 < size,
        0 <= y2 < size,
        0 <= z2 < size,
        cell_index(x1, y1, z1, size) == cell_index(x2, y2, z2, size),
    ensures
        x1 == x2,
        y1 == y2,
        z1 == z2,
{
    lemma_cell_index_inverse(x1, y1, z1, size);
    lemma_cell_index_inverse(x2, y2, z2, size);
}

/// Every place in the buffer belongs to one lattice coordinate inside the cube.
pub proof fn lemma_cell_index_surjective(i: int, size: int)
    requires
        0 < size,
        0 <= i < volume(size),
    ensures
        0 <= i % size < size,
        0 <= (i / size) % size < size,
        0 <= i / (size * size) < size,
        cell_index(i % size, (i / size) % size, i / (size * size), size) == i,
{
    let x = i % size;
    let w = i / size;
    let y = w % size;
    let z = w / size;
    vstd::arithmetic::div_mod::lemma_fundamental_div_mod(i, size);
    vstd::arithmetic::div_mod::lemma_fundamental_div_mod(w, size);
    assert(0 <= w) by (nonlinear_arith)
        requires
            0 <= i,
            0 < size,
            w == i / size,
    ;
    assert(0 <= z) by (nonlinear_arith)
        requires
            0 <= w,
            0 < size,
            z == w / size,
    ;
    assert(z < size) by (nonlinear_arith)
        requires
            i == size * w + x,
            w == size * z + y,
            0 <= x,
            0 <= y,
            0 < size,
            i < size * size * size,
    ;
    assert(i == x + y * size + z * (size * size)) by (nonlinear_arith)
        requires
            i == size * w + x,
            w == size * z + y,
    ;
    lemma_cell_index_inverse(x, y, z, size);
}

/// Number of cells of a grid with edge `size`.
pub fn cell_count(size: usize) -> (count: usize)
    requires
        volume(size as int) <= usize::MAX,
    ensures
        count == volume(size as int),
{
    proof {
        assert(0 <= size * size <= size * size * size || size == 0) by (nonlinear_arith);
        assert(size == 0 ==> size * size * size == 0) by (nonlinear_arith);
    }
    if size == 0 {
        return 0;
    }
    size * size * size
}

/// A freshly allocated grid of resolution `size` with every cell empty.
pub fn new_zero_buf(size: usize) -> (voxels: Vec<[u8; 4]>)
    requires
        volume(size as int) <= usize::MAX,
    ensures
        voxels@ == empty_grid(size as int),
{
    let capacity = cell_count(size);
    let voxels = vec![ZERO; capacity];
    proof {
        assert forall|i: int| 0 <= i < capacity implies voxels@[i] == ZERO by {
            let v = voxels@[i];
            assert(cloned(ZERO, v));
            assert forall|k: int| 0 <= k < 4 implies v@[k] == ZERO@[k] by {
                assert(cloned::<u8>(ZERO@[k], v@[k]));
            }
            assert(v@ =~= ZERO@);
        }
        assert(voxels@ =~= empty_grid(size as int));
    }
    voxels
}

/// Colour channel for lattice coordinate `i` of a grid with edge `size`: the
/// coordinate scaled linearly from `0..size` onto `0..256`. For a coordinate
/// outside the grid, the low byte of the scaled number.
pub open spec fn color_of(i: int, size: int) -> int {
    i * 256 / size % 256
}

/// A coordinate inside the grid scales to a number below `256`.
pub proof fn lemma_color_of_inside(i: int, size: int)
    requires
        0 <= i < size,
    ensures
        color_of(i, size) == i * 256 / size,
{
    assert(0 <= i * 256 / size < 256) by (nonlinear_arith)
        requires
            0 <= i < size,
    ;
}

/// Computes [`color_of`].
pub fn to_color(i: usize, size: usize) -> (color: u8)
    requires
        0 < size,
    ensures
        color == color_of(i as int, size as int),
{
    let scaled: u128 = (i as u128) * 256;
    let q: u128 = scaled / (size as u128);
    (q % 256) as u8
}

/// The first `count` layers of a grid, one after the other.
pub open spec fn layers_joined(voxels: Seq<[u8; 4]>, size: int, count: int) -> Seq<[u8; 4]>
    decreases count,
{
    if count <= 0 {
        Seq::empty()
    } else {
        layers_joined(voxels, size, count - 1) + layer(voxels, size, count - 1)
    }
}

/// Joining the first `count` layers gives the first `count * size²` cells.
pub proof fn lemma_layers_joined_prefix(voxels: Seq<[u8; 4]>, size: int, count: int)
    requires
        is_grid(voxels, size),
        0 <= count <= size,
    ensures
        0 <= count * (size * size) <= voxels.len(),
        layers_joined(voxels, size, count) == voxels.subrange(0, count * (size * size)),
    decreases count,
{
    let area = size * size;
    assert(0 <= count * area <= size * area) by (nonlinear_arith)
        requires
            0 <= count <= size,
            0 <= area,
    ;
    assert(size * area == size * size * size) by (nonlinear_arith)
        requires
            area == size * size,
    ;
    if count > 0 {
        lemma_layers_joined_prefix(voxels, size, count - 1);
        lemma_layer_bounds(size, count - 1);
        let lower = voxels.subrange(0, (count - 1) * area);
        let upper = voxels.subrange((count - 1) * area, count * area);
        assert(layer(voxels, size, count - 1) == upper);
        assert(layers_joined(voxels, size, count) == lower + upper);
        assert(lower + upper =~= voxels.subrange(0, count * area));
    } else {
        assert(count * area == 0) by (nonlinear_arith)
            requires
                count == 0,
        ;
        assert(layers_joined(voxels, size, count) =~= voxels.subrange(0, count * area));
    }
}

/// Joining all the layers of a grid, in order, reconstructs the grid.
pub proof fn lemma_layers_reconstruct(voxels: Seq<[u8; 4]>, size: int)
    requires
        is_grid(voxels, size),
    ensures
        layers_joined(voxels, size, size) == voxels,
{
    lemma_layers_joined_prefix(voxels, size, size);
    assert(size * (size * size) == size * size * size) by (nonlinear_arith);
    assert(voxels.subrange(0, voxels.len() as int) =~= voxels);
}

/// The cell `(x, y, z)` of a grid is the cell `x + y * size` of its `z`-th layer.
pub proof fn lemma_layer_cell(voxels: Seq<[u8; 4]>, size: int, x: int, y: int, z: int)
    requires
        is_grid(voxels, size),
        0 <= x < size,
        0 <= y < size,
        0 <= z < size,
    ensures
        layer(voxels, size, z).len() == size * size,
        0 <= x + y * size < size * size,
        layer(voxels, size, z)[x + y * size] == voxels[cell_index(x, y, z, size)],
{
    lemma_cell_index_in_range(x, y, z, size);
    lemma_layer_bounds(size, z);
    assert(0 <= y * size) by (nonlinear_arith)
        requires
            0 <= y,
            0 < size,
    ;
}

/// The `z`-th layer lies inside the buffer.
pub proof fn lemma_layer_bounds(size: int, z: int)
    requires
        0 < size,
        0 <= z < size,
    ensures
        0 <= z * (size * size),
        (z + 1) * (size * size) == z * (size * size) + size * size,
        (z + 1) * (size * size) <= volume(size),
{
    let area = size * size;
    assert(0 <= z * area) by (nonlinear_arith)
        requires
            0 <= z,
            area == size * size,
    ;
    assert((z + 1) * area == z * area + area) by (nonlinear_arith);
    assert((z + 1) * area <= size * area) by (nonlinear_arith)
        requires
            z + 1 <= size,
            0 <= area,
            area == size * size,
    ;
    assert(size * area == size * size * size) by (nonlinear_arith)
        requires
            area == size * size,
    ;
}

/// Slices a grid into its `size` layers, lowest `z` first. Each slice holds the
/// `size²` cells of one layer.
pub fn layers(voxels: &Vec<[u8; 4]>, size: usize) -> (layers: Vec<&[[u8; 4]]>)
    requires
        is_grid(voxels@, size as int),
    ensures
        layers.len() == size,
        forall|z: int| 0 <= z < size ==> (#[trigger] layers[z])@ == layer(voxels@, size as int, z),
{
    proof {
        lemma_layer_bounds(size as int, 0);
        assert(voxels.len() <= usize::MAX);
    }
    let z_offs = size * size;
    let mut layers: Vec<&[[u8; 4]]> = Vec::with_capacity(size);
    let mut rest = voxels.as_slice();
    assert(rest@ =~= voxels@.subrange(0, voxels@.len() as int));
    loop
        invariant_except_break
            layers.len() < size,
            rest@ == voxels@.subrange(layers.len() * z_offs, voxels@.len() as int),
        invariant
            is_grid(voxels@, size as int),
            z_offs == size * size,
            layers.len() <= size,
            forall|z: int|
                0 <= z < layers.len() ==> (#[trigger] layers[z])@ == layer(
                    voxels@,
                    size as int,
                    z,
                ),
        ensures
            layers.len() == size,
        decreases size - layers.len(),
    {
        let ghost z = layers.len() as int;
        proof {
            lemma_layer_bounds(size as int, z);
        }
        let (head, tail) = rest.split_at(z_offs);
        assert(head@ =~= layer(voxels@, size as int, z));
        assert(tail@ =~= voxels@.subrange((z + 1) * z_offs, voxels@.len() as int));
        layers.push(head);
        if tail.is_empty() {
            proof {
                if z + 1 < size {
                    lemma_layer_bounds(size as int, z + 1);
                    assert(size * size > 0) by (nonlinear_arith)
                        requires
                            size > 0,
                    ;
                }
            }
            break ;
        }
        proof {
            if z + 1 == size {
                assert(size * (size * size) == size * size * size) by (nonlinear_arith);
            }
        }
        rest = tail;
    }
    layers
}

/// `cuts` are the ascending end points of `count` adjoining ranges that start
/// at `0`: the `z`-th range runs from `cuts[z]` to `cuts[z + 1]`.
pub open spec fn adjoining(cuts: Seq<int>, count: int) -> bool {
    &&& cuts.len() == count + 1
    &&& cuts[0] == 0
    &&& forall|z: int| 0 <= z < count ==> cuts[z] <= #[trigger] cuts[z + 1]
}

/// Slices a grid into its `size` layers for writing, lowest `z` first. Each
/// slice holds the cells of one layer. The slices do not overlap and leave no
/// cell out: what they hold when their borrows end is, one slice after the
/// other, what the grid holds then.
#[verifier::rlimit(50)]
pub fn mut_layers(voxels: &mut Vec<[u8; 4]>, size: usize) -> (layers: Vec<&mut [[u8; 4]]>)
    requires
        is_grid(old(voxels)@, size as int),
    ensures
        layers.len() == size,
        forall|z: int|
            0 <= z < size ==> layers@[z]@ == #[trigger] layer(old(voxels)@, size as int, z),
        exists|cuts: Seq<int>|
            {
                &&& #[trigger] adjoining(cuts, size as int)
                &&& cuts[size as int] == final(voxels)@.len()
                &&& forall|z: int|
                    0 <= z < size ==> final(layers@[z])@ == #[trigger] final(voxels)@.subrange(
                        cuts[z],
                        cuts[z + 1],
                    )
            },
{
    proof {
        lemma_layer_bounds(size as int, 0);
        assert(voxels.len() <= usize::MAX);
    }
    let z_offs = size * size;
    let ghost total = voxels@.len() as int;
    let ghost after: Seq<[u8; 4]> = final(voxels)@;
    let mut layers: Vec<&mut [[u8; 4]]> = Vec::with_capacity(size);
    let mut rest = voxels.as_mut_slice();
    assert(rest@ =~= old(voxels)@.subrange(0, total));
    proof {
        let cuts0 = seq![0int];
        assert(adjoining(cuts0, 0));
        assert(final(rest)@ =~= after.subrange(cuts0[0], after.len() as int));
    }
    loop
        invariant_except_break
            layers.len() < size,
            rest@ == old(voxels)@.subrange(layers.len() * z_offs, total),
            exists|cuts: Seq<int>|
                {
                    &&& #[trigger] adjoining(cuts, layers.len() as int)
                    &&& 0 <= cuts[layers.len() as int] <= after.len()
                    &&& final(rest)@ == after.subrange(
                        cuts[layers.len() as int],
                        after.len() as int,
                    )
                    &&& forall|z: int|
                        0 <= z < layers.len() ==> final(layers@[z])@ == #[trigger] after.subrange(
                            cuts[z],
                            cuts[z + 1],
                        )
                },
        invariant
            is_grid(old(voxels)@, size as int),
            total == old(voxels)@.len(),
            z_offs == size * size,
            layers.len() <= size,
            forall|z: int|
                0 <= z < layers.len() ==> layers@[z]@ == #[trigger] layer(
                    old(voxels)@,
                    size as int,
                    z,
                ),
        ensures
            layers.len() == size,
            exists|cuts: Seq<int>|
                {
                    &&& #[trigger] adjoining(cuts, size as int)
                    &&& cuts[size as int] == after.len()
                    &&& forall|z: int|
                        0 <= z < size ==> final(layers@[z])@ == #[trigger] after.subrange(
                            cuts[z],
                            cuts[z + 1],
                        )
                },
        decreases size - layers.len(),
    {
        let ghost z = layers.len() as int;
        proof {
            lemma_layer_bounds(size as int, z);
        }
        let ghost rest_after = final(rest)@;
        let ghost old_layers = layers@;
        let ghost old_cuts = choose|cuts: Seq<int>|
            {
                &&& #[trigger] adjoining(cuts, z)
                &&& 0 <= cuts[z] <= after.len()
                &&& rest_after == after.subrange(cuts[z], after.len() as int)
                &&& forall|k: int|
                    0 <= k < z ==> final(old_layers[k])@ == #[trigger] after.subrange(
                        cuts[k],
                        cuts[k + 1],
                    )
            };
        let (head, tail) = rest.split_at_mut(z_offs);
        assert(head@ =~= layer(old(voxels)@, size as int, z));
        assert(tail@ =~= old(voxels)@.subrange((z + 1) * z_offs, total));
        let ghost head_after = final(head)@;
        let ghost tail_after = final(tail)@;
        let ghost cut = old_cuts[z] + head_after.len();
        let ghost cuts = old_cuts.push(cut);
        proof {
            assert(rest_after == head_after + tail_after);
            assert(rest_after.len() == after.len() - old_cuts[z]);
            assert(head_after =~= after.subrange(old_cuts[z], cut));
            assert forall|i: int| 0 <= i < tail_after.len() implies tail_after[i] == after[cut
                + i] by {
                assert(tail_after[i] == rest_after[head_after.len() + i]);
            }
            assert(tail_after =~= after.subrange(cut, after.len() as int));
        }
        layers.push(head);
        proof {
            assert forall|k: int| 0 <= k < layers.len() implies final(layers@[k])@
                == #[trigger] after.subrange(cuts[k], cuts[k + 1]) by {
                if k < z {
                    assert(layers@[k] == old_layers[k]);
                    assert(cuts[k] == old_cuts[k] && cuts[k + 1] == old_cuts[k + 1]);
                }
            }
            assert forall|k: int| 0 <= k < z + 1 implies cuts[k] <= #[trigger] cuts[k + 1] by {
                if k < z {
                    assert(old_cuts[k] <= old_cuts[k + 1]);
                }
            }
            assert(adjoining(cuts, z + 1));
        }
        if tail.is_empty() {
            proof {
                if z + 1 < size {
                    lemma_layer_bounds(size as int, z + 1);
                    assert(size * size > 0) by (nonlinear_arith)
                        requires
                            size > 0,
                    ;
                }
                assert(tail_after.len() == 0);
            }
            break ;
        }
        proof {
            if z + 1 == size {
                assert(size * (size * size) == size * size * size) by (nonlinear_arith);
            }
            assert(final(tail)@ == after.subrange(cuts[z + 1], after.len() as int));
        }
        rest = tail;
    }
    layers
}

/// The seed of the cave noise.
pub const NOISE_SEED: i32 = 42;

/// The cave noise has frequency `14 / size`, so that a cave keeps its shape
/// when the resolution changes. This is the `14`.
pub const NOISE_FREQUENCY: u64 = 14;

/// Threshold above which a sample of the cave noise, scaled to `0..1`, is solid:
/// the pattern of `0.6`.
pub const THRESHOLD_BITS: u32 = 0x3F19_999A;

/// Threshold for fractal noise that is taken as it comes, not scaled: the
/// pattern of `0.05`.
pub const FRACTAL_THRESHOLD_BITS: u32 = 0x3D4C_CCCD;

/// Frequency of the cave noise for a grid of resolution `size`: the number
/// nearest to `14 / size`.
pub fn noise_frequency(size: usize) -> (frequency: Scalar)
    requires
        0 < size,
    ensures
        frequency.is_nearest_to(NOISE_FREQUENCY as int, size as int),
{
    Scalar::from_ratio(NOISE_FREQUENCY, size as u64)
}

/// The voxel that generation puts at lattice coordinate `(x, y, z)` for a noise
/// sample: where the sample exceeds the threshold, a solid voxel whose colour
/// channels are `z`, `y` and `x` scaled onto `0..256`; an empty voxel where it
/// does not.
pub open spec fn cave_voxel(x: int, y: int, z: int, size: int, sample: Scalar, threshold: Scalar) -> [u8; 4] {
    if sample.gt(threshold) {
        [color_of(z, size) as u8, color_of(y, size) as u8, color_of(x, size) as u8, 255u8]
    } else {
        ZERO
    }
}

/// The grid that generation gives for a noise field: [`cave_voxel`] in every
/// cell, for the sample at the cell's place.
pub open spec fn cave_grid(noise: Seq<Scalar>, size: int, threshold: Scalar) -> Seq<[u8; 4]> {
    Seq::new(
        volume(size) as nat,
        |i: int| cave_voxel(i % size, i / size % size, i / (size * size), size, noise[i], threshold),
    )
}

/// Number of solid voxels in a buffer.
pub open spec fn solid_count(voxels: Seq<[u8; 4]>) -> nat
    decreases voxels.len(),
{
    if voxels.len() == 0 {
        0
    } else {
        solid_count(voxels.drop_last()) + if is_solid(voxels.last()) {
            1nat
        } else {
            0nat
        }
    }
}

/// A buffer that is solid only where another one is has no more solid voxels.
pub proof fn lemma_solid_count_monotone(fewer: Seq<[u8; 4]>, more: Seq<[u8; 4]>)
    requires
        fewer.len() == more.len(),
        forall|i: int| 0 <= i < fewer.len() && is_solid(#[trigger] fewer[i]) ==> is_solid(more[i]),
    ensures
        solid_count(fewer) <= solid_count(more),
    decreases fewer.len(),
{
    if fewer.len() > 0 {
        assert forall|i: int|
            0 <= i < fewer.drop_last().len() && is_solid(
                #[trigger] fewer.drop_last()[i],
            ) implies is_solid(more.drop_last()[i]) by {
            assert(fewer.drop_last()[i] == fewer[i]);
        }
        lemma_solid_count_monotone(fewer.drop_last(), more.drop_last());
        assert(is_solid(fewer[fewer.len() - 1]) ==> is_solid(more[fewer.len() - 1]));
    }
}

/// Raising the threshold never gives more solid voxels: for one noise field, a
/// threshold that is not below another yields at most as many.
pub proof fn lemma_threshold_monotone(
    noise: Seq<Scalar>,
    size: int,
    lower: Scalar,
    higher: Scalar,
)
    requires
        lower.le(higher),
    ensures
        solid_count(cave_grid(noise, size, higher)) <= solid_count(cave_grid(noise, size, lower)),
{
    let fewer = cave_grid(noise, size, higher);
    let more = cave_grid(noise, size, lower);
    assert forall|i: int| 0 <= i < fewer.len() && is_solid(#[trigger] fewer[i]) implies is_solid(
        more[i],
    ) by {
        assert(noise[i].gt(higher));
        assert(noise[i].gt(lower));
    }
    lemma_solid_count_monotone(fewer, more);
}

/// What painting leaves in the cell at place `r` of the `z`-th layer, which
/// held `before`: the solid voxel of the lattice coordinate where the sample
/// exceeds the threshold, and `before` where it does not.
pub open spec fn painted_cell(
    before: [u8; 4],
    r: int,
    z: int,
    size: int,
    noise: Seq<Scalar>,
    threshold: Scalar,
) -> [u8; 4] {
    let sample = noise[r + z * (size * size)];
    if sample.gt(threshold) {
        cave_voxel(r % size, r / size, z, size, sample, threshold)
    } else {
        before
    }
}

/// Paints one layer of a cave. `slice` is the `z`-th layer of a grid of
/// resolution `size`, `noise` the noise field of the whole grid. Each cell
/// whose sample exceeds the threshold gets its solid voxel; the other cells are
/// left as they are.
#[verifier::rlimit(50)]
pub fn paint_layer(
    slice: &mut [[u8; 4]],
    z: usize,
    size: usize,
    noise: &Vec<Scalar>,
    threshold: Scalar,
)
    requires
        0 <= z < size,
        noise@.len() == volume(size as int),
        old(slice)@.len() == size * size,
    ensures
        final(slice)@.len() == old(slice)@.len(),
        forall|r: int|
            0 <= r < size * size ==> #[trigger] final(slice)@[r] == painted_cell(
                old(slice)@[r],
                r,
                z as int,
                size as int,
                noise@,
                threshold,
            ),
{
    let y_offs = size;
    proof {
        lemma_layer_bounds(size as int, z as int);
        assert(noise.len() <= usize::MAX);
    }
    let z_offs = size * size;
    let color_z = to_color(z, size);
    let mut y: usize = 0;
    proof {
        assert(0 * size == 0) by (nonlinear_arith);
    }
    while y < size
        invariant
            y <= size,
            z < size,
            y_offs == size,
            z_offs == size * size,
            z_offs + z * (size * size) <= usize::MAX,
            0 <= z * (size * size),
            noise@.len() == volume(size as int),
            slice@.len() == size * size,
            color_z == color_of(z as int, size as int),
            forall|r: int|
                0 <= r < size * size ==> #[trigger] slice@[r] == if r < y * size {
                    painted_cell(old(slice)@[r], r, z as int, size as int, noise@, threshold)
                } else {
                    old(slice)@[r]
                },
        decreases size - y,
    {
        let color_y = to_color(y, size);
        let mut x: usize = 0;
        while x < size
            invariant
                x <= size,
                y < size,
                z < size,
                y_offs == size,
                z_offs == size * size,
                z_offs + z * (size * size) <= usize::MAX,
                0 <= z * (size * size),
                noise@.len() == volume(size as int),
                slice@.len() == size * size,
                color_z == color_of(z as int, size as int),
                color_y == color_of(y as int, size as int),
                forall|r: int|
                    0 <= r < size * size ==> #[trigger] slice@[r] == if r < x + y * size {
                        painted_cell(old(slice)@[r], r, z as int, size as int, noise@, threshold)
                    } else {
                        old(slice)@[r]
                    },
            decreases size - x,
        {
            let ghost r = x + y * size;
            proof {
                lemma_cell_index_in_range(x as int, y as int, z as int, size as int);
                assert(0 <= y * size) by (nonlinear_arith)
                    requires
                        0 <= y,
                        0 < size,
                ;
                assert(size * y == y * size) by (nonlinear_arith);
                vstd::arithmetic::div_mod::lemma_fundamental_div_mod_converse(
                    r,
                    size as int,
                    y as int,
                    x as int,
                );
            }
            let i = x + y * y_offs + z * z_offs;
            let n = noise[i];
            if n.exceeds(threshold) {
                slice[x + y * y_offs] = [color_z, color_y, to_color(x, size), 255];
            }
            x = x + 1;
        }
        proof {
            assert(size + y * size == (y + 1) * size) by (nonlinear_arith);
        }
        y = y + 1;
    }
}

/// Generates a cave from a noise field: a grid of resolution `size` whose cell
/// at place `i` is solid, and coloured by its lattice coordinate, exactly if
/// `noise[i]` exceeds `threshold`.
///
/// A resolution of zero is rejected, and so is a noise field that does not hold
/// one sample for each cell.
#[verifier::rlimit(50)]
pub fn caves(size: usize, noise: &Vec<Scalar>, threshold: Scalar) -> (grid: Option<Vec<[u8; 4]>>)
    ensures
        match grid {
            Some(voxels) => 0 < size && noise@.len() == volume(size as int) && voxels@
                == cave_grid(noise@, size as int, threshold),
            None => size == 0 || noise@.len() != volume(size as int),
        },
{
    if size == 0 || !holds_volume(noise.len(), size) {
        return None;
    }
    let mut data: Vec<[u8; 4]> = new_zero_buf(size);
    let mut z: usize = 0;
    while z < size
        invariant
            z <= size,
            0 < size,
            noise@.len() == volume(size as int),
            data@.len() == volume(size as int),
            forall|i: int|
                0 <= i < volume(size as int) ==> #[trigger] data@[i] == if i < z * (size * size) {
                    cave_grid(noise@, size as int, threshold)[i]
                } else {
                    ZERO
                },
        decreases size - z,
    {
        let ghost before = data@;
        proof {
            lemma_layer_bounds(size as int, z as int);
            assert(noise.len() <= usize::MAX);
        }
        let area = size * size;
        let whole = data.as_mut_slice();
        let (_, rest) = whole.split_at_mut(z * area);
        let (slice, _) = rest.split_at_mut(area);
        paint_layer(slice, z, size, noise, threshold);
        proof {
            let start = z * (size * size);
            assert(data@.len() == before.len());
            assert forall|i: int| 0 <= i < volume(size as int) implies #[trigger] data@[i] == if i
                < (z + 1) * (size * size) {
                cave_grid(noise@, size as int, threshold)[i]
            } else {
                ZERO
            } by {
                if start <= i < start + size * size {
                    let x = (i - start) % (size as int);
                    let y = (i - start) / (size as int);
                    lemma_layer_index(i - start, size as int);
                    assert(i == cell_index(x, y, z as int, size as int));
                    lemma_cell_index_inverse(x, y, z as int, size as int);
                    assert(data@[i] == slice@[i - start]);
                } else {
                    assert(data@[i] == before[i]);
                }
            }
        }
        z = z + 1;
    }
    proof {
        assert(size * (size * size) == volume(size as int)) by (nonlinear_arith);
        assert(data@ =~= cave_grid(noise@, size as int, threshold));
    }
    Some(data)
}

/// A place inside one layer belongs to one pair of coordinates.
proof fn lemma_layer_index(r: int, size: int)
    requires
        0 < size,
        0 <= r < size * size,
    ensures
        0 <= r % size < size,
        0 <= r / size < size,
        r == r % size + (r / size) * size,
{
    vstd::arithmetic::div_mod::lemma_fundamental_div_mod(r, size);
    let q = r / size;
    assert(0 <= q < size) by (nonlinear_arith)
        requires
            0 <= r < size * size,
            r == size * q + r % size,
            0 <= r % size < size,
            0 < size,
    ;
    assert(size * q == q * size) by (nonlinear_arith);
}

/// Tells whether `count` is the number of cells of a grid of resolution `size`.
pub fn holds_volume(count: usize, size: usize) -> (holds: bool)
    ensures
        holds == (count == volume(size as int)),
{
    proof {
        assert(size * size * size == size * size * size);
        assert(0 <= size * size && 0 <= size * size * size) by (nonlinear_arith);
    }
    match size.checked_mul(size) {
        Some(area) => match area.checked_mul(size) {
            Some(cells) => cells == count,
            None => false,
        },
        None => {
            proof {
                assert(size * size * size >= size * size) by (nonlinear_arith)
                    requires
                        size * size > usize::MAX,
                        size >= 0,
                ;
            }
            false
        },
    }
}

/// A coordinate carries a voxel of the test lattice: it is one of `32`, `40`,
/// `48` and so on, below `size - 32`.
pub open spec fn on_lattice(c: int, size: int) -> bool {
    32 <= c < size - 32 && (c - 32) % 8 == 0
}

/// The voxel of the test lattice at lattice coordinate `(x, y, z)`: solid, with
/// the low bytes of `z`, `y` and `x` as its colour, where all three coordinates
/// carry one; empty elsewhere.
pub open spec fn lattice_voxel(x: int, y: int, z: int, size: int) -> [u8; 4] {
    if on_lattice(x, size) && on_lattice(y, size) && on_lattice(z, size) {
        [(z % 256) as u8, (y % 256) as u8, (x % 256) as u8, 255u8]
    } else {
        ZERO
    }
}

/// The test lattice as a grid of resolution `size`.
pub open spec fn lattice_grid(size: int) -> Seq<[u8; 4]> {
    Seq::new(
        volume(size) as nat,
        |i: int| lattice_voxel(i % size, i / size % size, i / (size * size), size),
    )
}

/// The cell `(px, py, pz)` comes before `(x, y, z)` in the order of the buffer.
pub open spec fn precedes(px: int, py: int, pz: int, x: int, y: int, z: int) -> bool {
    pz < z || (pz == z && (py < y || (py == y && px < x)))
}

/// The buffer holds the test lattice in the cells before `(x, y, z)` and is
/// empty from there on.
spec fn lattice_upto(data: Seq<[u8; 4]>, size: int, x: int, y: int, z: int) -> bool {
    &&& data.len() == volume(size)
    &&& forall|i: int|
        0 <= i < volume(size) ==> #[trigger] data[i] == if precedes(
            i % size,
            i / size % size,
            i / (size * size),
            x,
            y,
            z,
        ) {
            lattice_voxel(i % size, i / size % size, i / (size * size), size)
        } else {
            ZERO
        }
}

/// Cells between two places of the walk that carry no voxel may be counted as
/// done: the buffer holds the lattice up to the later place as well.
proof fn lemma_lattice_skip(
    data: Seq<[u8; 4]>,
    size: int,
    x: int,
    y: int,
    z: int,
    nx: int,
    ny: int,
    nz: int,
)
    requires
        0 < size,
        lattice_upto(data, size, x, y, z),
        forall|px: int, py: int, pz: int|
            0 <= px < size && 0 <= py < size && 0 <= pz < size && !precedes(px, py, pz, x, y, z)
                && #[trigger] precedes(px, py, pz, nx, ny, nz) ==> lattice_voxel(px, py, pz, size)
                == ZERO,
        forall|px: int, py: int, pz: int|
            #[trigger] precedes(px, py, pz, x, y, z) ==> precedes(px, py, pz, nx, ny, nz),
    ensures
        lattice_upto(data, size, nx, ny, nz),
{
    assert forall|i: int| 0 <= i < volume(size) implies #[trigger] data[i] == if precedes(
        i % size,
        i / size % size,
        i / (size * size),
        nx,
        ny,
        nz,
    ) {
        lattice_voxel(i % size, i / size % size, i / (size * size), size)
    } else {
        ZERO
    } by {
        lemma_cell_index_surjective(i, size);
        let px = i % size;
        let py = i / size % size;
        let pz = i / (size * size);
        if precedes(px, py, pz, x, y, z) {
            assert(precedes(px, py, pz, nx, ny, nz));
        } else if precedes(px, py, pz, nx, ny, nz) {
            assert(lattice_voxel(px, py, pz, size) == ZERO);
        }
    }
}

/// Writing the voxel of the lattice into the cell `(x, y, z)` completes the
/// lattice up to the next cell.
proof fn lemma_lattice_put(
    before: Seq<[u8; 4]>,
    after: Seq<[u8; 4]>,
    size: int,
    x: int,
    y: int,
    z: int,
)
    requires
        0 <= x < size,
        0 <= y < size,
        0 <= z < size,
        lattice_upto(before, size, x, y, z),
        after == before.update(cell_index(x, y, z, size), lattice_voxel(x, y, z, size)),
    ensures
        lattice_upto(after, size, x + 1, y, z),
{
    let place = cell_index(x, y, z, size);
    lemma_cell_index_in_range(x, y, z, size);
    lemma_cell_index_inverse(x, y, z, size);
    assert forall|i: int| 0 <= i < volume(size) implies #[trigger] after[i] == if precedes(
        i % size,
        i / size % size,
        i / (size * size),
        x + 1,
        y,
        z,
    ) {
        lattice_voxel(i % size, i / size % size, i / (size * size), size)
    } else {
        ZERO
    } by {
        lemma_cell_index_surjective(i, size);
        let px = i % size;
        let py = i / size % size;
        let pz = i / (size * size);
        if i == place {
            assert(px == x && py == y && pz == z);
        } else {
            assert(after[i] == before[i]);
            assert(!(px == x && py == y && pz == z));
            assert(precedes(px, py, pz, x + 1, y, z) == precedes(px, py, pz, x, y, z));
        }
    }
}

/// A sparse test pattern: a grid of resolution `size` that is empty but for
/// single solid voxels eight cells apart, in the part of the cube that lies at
/// least `32` cells from each face.
#[verifier::rlimit(50)]
pub fn cubic_lattice(size: usize) -> (data: Vec<[u8; 4]>)
    requires
        32 <= size,
        volume(size as int) <= usize::MAX,
    ensures
        data@ == lattice_grid(size as int),
{
    let mut data = new_zero_buf(size);
    proof {
        lemma_layer_bounds(size as int, 0);
        assert(size * size * size == size * (size * size)) by (nonlinear_arith);
    }
    let y_offs = size;
    let z_offs = size * size;
    let stop = size - 32;
    let mut z: usize = 32;
    proof {
        assert(lattice_upto(data@, size as int, 0, 0, 0));
        lemma_lattice_skip(data@, size as int, 0, 0, 0, 0, 0, 32);
    }
    while z < stop
        invariant
            32 <= z <= size,
            32 <= size,
            stop == size - 32,
            y_offs == size,
            z_offs == size * size,
            volume(size as int) <= usize::MAX,
            (z - 32) % 8 == 0,
            lattice_upto(data@, size as int, 0, 0, z as int),
        decreases size - z,
    {
        let mut y: usize = 32;
        proof {
            lemma_lattice_skip(data@, size as int, 0, 0, z as int, 0, 32, z as int);
        }
        while y < stop
            invariant
                32 <= y,
                32 <= z < stop,
                32 <= size,
                stop == size - 32,
                y_offs == size,
                z_offs == size * size,
                volume(size as int) <= usize::MAX,
                (z - 32) % 8 == 0,
                (y - 32) % 8 == 0,
                lattice_upto(data@, size as int, 0, y as int, z as int),
            decreases size - y,
        {
            let mut x: usize = 32;
            proof {
                lemma_lattice_skip(data@, size as int, 0, y as int, z as int, 32, y as int, z as int);
            }
            while x < stop
                invariant
                    32 <= x,
                    32 <= y < stop,
                    32 <= z < stop,
                    32 <= size,
                    stop == size - 32,
                    y_offs == size,
                    z_offs == size * size,
                    volume(size as int) <= usize::MAX,
                    (z - 32) % 8 == 0,
                    (y - 32) % 8 == 0,
                    (x - 32) % 8 == 0,
                    lattice_upto(data@, size as int, x as int, y as int, z as int),
                decreases size - x,
            {
                let ghost before = data@;
                proof {
                    lemma_cell_index_in_range(x as int, y as int, z as int, size as int);
                    assert(0 <= y * size && 0 <= z * (size * size)) by (nonlinear_arith)
                        requires
                            0 <= y,
                            0 <= z,
                            0 < size,
                    ;
                }
                data.set(
                    x + y * y_offs + z * z_offs,
                    [(z % 256) as u8, (y % 256) as u8, (x % 256) as u8, 255],
                );
                proof {
                    lemma_lattice_put(before, data@, size as int, x as int, y as int, z as int);
                    lemma_lattice_skip(
                        data@,
                        size as int,
                        x + 1,
                        y as int,
                        z as int,
                        x + 8,
                        y as int,
                        z as int,
                    );
                }
                x = x + 8;
            }
            proof {
                lemma_lattice_skip(
                    data@,
                    size as int,
                    x as int,
                    y as int,
                    z as int,
                    0,
                    y + 8,
                    z as int,
                );
            }
            y = y + 8;
        }
        proof {
            lemma_lattice_skip(data@, size as int, 0, y as int, z as int, 0, 0, z + 8);
        }
        z = z + 8;
    }
    proof {
        lemma_lattice_skip(data@, size as int, 0, 0, z as int, 0, 0, size as int);
        assert forall|i: int| 0 <= i < volume(size as int) implies #[trigger] data@[i]
            == lattice_grid(size as int)[i] by {
            lemma_cell_index_surjective(i, size as int);
        }
        assert(data@ =~= lattice_grid(size as int));
    }
    data
}

} // verus!
