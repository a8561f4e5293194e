//! The physics world as the grid sees it: one collider for each solid voxel.
//!
//! The rigid-body engine integrates motion and answers ray queries. What this
//! module holds is the bookkeeping around it: which colliders exist, where the
//! engine last reported them, which colour each carries, and which of them hang
//! on a dynamic body. From that it builds the world for a grid, writes the world
//! back into a grid, evicts what has left the world, and decides what a ray hit
//! does.

use crate::scalar::{lemma_center_lattice, lemma_lattice_in_range, Scalar, WORLD_SIZE};
use crate::voxel::{
    cell_index, empty_grid, is_grid, is_solid, layer, layers, lemma_cell_index_in_range,
    lemma_cell_index_inverse, lemma_cell_index_surjective, lemma_layer_bounds, lemma_layer_cell,
    volume, ZERO,
};
use vstd::prelude::*;

verus! {

/// What a struck collider carries in place of its colour.
pub const STRUCK: u128 = 0xFFFF_FFFF;

/// Speed, in world units per second, at which struck matter is launched along
/// the ray.
pub const LAUNCH_SPEED: u32 = 10;

/// How far a ray reaches, in world units.
pub const MAX_RAY_DISTANCE: u32 = 300;

/// The longest time the engine is asked to integrate in one step: half a second,
/// in nanoseconds.
pub const MAX_STEP_NANOS: u64 = 500_000_000;

/// The mouse button that fires a ray.
pub const FIRE_BUTTON: u32 = 1;

/// Friction of a voxel collider: the pattern of `0.8`.
pub const FRICTION_BITS: u32 = 0x3F4C_CCCD;

/// Restitution of a voxel collider: the pattern of `0.3`.
pub const RESTITUTION_BITS: u32 = 0x3E99_999A;

/// Gravity along `y`: the pattern of `-9.81`.
pub const GRAVITY_Y_BITS: u32 = 0xC11C_F5C3;

/// A point or a direction in world space.
#[derive(Clone, Copy, Debug, PartialEq, Eq, Structural)]
pub struct Vector {
    pub x: Scalar,
    pub y: Scalar,
    pub z: Scalar,
}

/// One collider of the physics world.
#[derive(Clone, Copy, Debug, PartialEq, Eq, Structural)]
pub struct Collider {
    /// Where the engine last reported the collider, in world space.
    pub translation: Vector,
    /// The voxel's four bytes, packed; [`STRUCK`] once a ray has hit.
    pub user_data: u128,
    /// The collider is the sole collider of a dynamic rigid body. A collider
    /// that is not stands free and does not move.
    pub dynamic: bool,
}

/// What the engine is to do after a ray query has been decided.
#[derive(Clone, Copy, Debug, PartialEq, Eq, Structural)]
pub enum Interaction {
    /// The ray hit nothing that still exists: nothing changes.
    Miss,
    /// The collider already hangs on a dynamic body: set that body's linear
    /// velocity to `direction * speed`.
    Redirect { collider: usize, direction: Vector, speed: u32 },
    /// The collider stood free: take it out, and put in its place a dynamic
    /// body with linear velocity `direction * speed` that carries a fresh
    /// collider with the same user data.
    Detach { collider: usize, direction: Vector, speed: u32 },
}

/// The colliders of the physics world, in the order in which the engine walks
/// them.
pub struct Physics {
    colliders: Vec<Collider>,
}

/// The four bytes of a voxel as one number, first byte lowest.
pub open spec fn packed(voxel: [u8; 4]) -> int {
    voxel[0] + voxel[1] * 0x100 + voxel[2] * 0x1_0000 + voxel[3] * 0x100_0000
}

/// The four lowest bytes of a number as a voxel, lowest byte first.
pub open spec fn unpacked(user_data: int) -> [u8; 4] {
    [
        (user_data % 0x100) as u8,
        (user_data / 0x100 % 0x100) as u8,
        (user_data / 0x1_0000 % 0x100) as u8,
        (user_data / 0x100_0000 % 0x100) as u8,
    ]
}

/// Packing a voxel and unpacking it again gives the voxel back.
pub proof fn lemma_unpack_packed(voxel: [u8; 4])
    ensures
        0 <= packed(voxel) <= 0xFFFF_FFFF,
        unpacked(packed(voxel)) == voxel,
{
    lemma_bytes(voxel[0] as int, voxel[1] as int, voxel[2] as int, voxel[3] as int);
    let u = unpacked(packed(voxel));
    assert(u@ =~= voxel@);
}

/// Four bytes are the digits, to base 256, of the number they are packed into.
proof fn lemma_bytes(a: int, b: int, c: int, d: int)
    requires
        0 <= a < 0x100,
        0 <= b < 0x100,
        0 <= c < 0x100,
        0 <= d < 0x100,
    ensures
        ({
            let p = a + b * 0x100 + c * 0x1_0000 + d * 0x100_0000;
            &&& 0 <= p <= 0xFFFF_FFFF
            &&& p % 0x100 == a
            &&& p / 0x100 % 0x100 == b
            &&& p / 0x1_0000 % 0x100 == c
            &&& p / 0x100_0000 % 0x100 == d
        }),
{
    let p = a + b * 0x100 + c * 0x1_0000 + d * 0x100_0000;
    assert(p / 0x100 == b + c * 0x100 + d * 0x1_0000);
    assert(p / 0x1_0000 == c + d * 0x100);
    assert(p / 0x100_0000 == d);
}

/// Packs a voxel into the user data of its collider.
pub fn to_user_data(voxel: [u8; 4]) -> (user_data: u128)
    ensures
        user_data == packed(voxel),
{
    (voxel[0] as u128) + (voxel[1] as u128) * 0x100 + (voxel[2] as u128) * 0x1_0000 + (
    voxel[3] as u128) * 0x100_0000
}

/// Unpacks the user data of a collider into a voxel.
pub fn to_voxel(user_data: u128) -> (voxel: [u8; 4])
    ensures
        voxel == unpacked(user_data as int),
{
    let voxel = [
        (user_data % 0x100) as u8,
        (user_data / 0x100 % 0x100) as u8,
        (user_data / 0x1_0000 % 0x100) as u8,
        (user_data / 0x100_0000 % 0x100) as u8,
    ];
    assert(voxel@ =~= unpacked(user_data as int)@);
    voxel
}

impl Vector {
    /// Every component lies inside the world.
    pub open spec fn in_world(self) -> bool {
        self.x.in_world() && self.y.in_world() && self.z.in_world()
    }

    /// Place in the buffer of the cell that holds a point inside the world.
    pub open spec fn cell(self, size: int) -> int {
        cell_index(self.x.lattice(size), self.y.lattice(size), self.z.lattice(size), size)
    }

    /// The point is the centre of the voxel at lattice coordinate `(x, y, z)`:
    /// each component is the number nearest to `(i + 1/2) * (512 / size)`.
    pub open spec fn is_center_of(self, x: int, y: int, z: int, size: int) -> bool {
        &&& self.x.is_nearest_to((2 * x + 1) * 256, size)
        &&& self.y.is_nearest_to((2 * y + 1) * 256, size)
        &&& self.z.is_nearest_to((2 * z + 1) * 256, size)
    }
}

/// Edge length of one voxel of a grid of resolution `size`, in world units: the
/// number nearest to `512 / size`.
pub fn voxel_world_size(size: usize) -> (edge: Scalar)
    requires
        0 < size,
    ensures
        edge.is_nearest_to(WORLD_SIZE as int, size as int),
{
    Scalar::from_ratio(WORLD_SIZE, size as u64)
}

/// Half the edge length of one voxel of a grid of resolution `size`, the
/// half-extent of its collider: the number nearest to `256 / size`.
pub fn voxel_world_radius(size: usize) -> (radius: Scalar)
    requires
        0 < size,
    ensures
        radius.is_nearest_to(WORLD_SIZE as int / 2, size as int),
{
    Scalar::from_ratio(WORLD_SIZE / 2, size as u64)
}

/// Centre, in world space, of the voxel at lattice coordinate `(x, y, z)` of a
/// grid of resolution `size`.
pub fn position_of(x: usize, y: usize, z: usize, size: usize) -> (position: Vector)
    requires
        x < size,
        y < size,
        z < size,
        size <= 0x7F_FFFF,
    ensures
        position.is_center_of(x as int, y as int, z as int, size as int),
        position.in_world(),
        position.cell(size as int) == cell_index(x as int, y as int, z as int, size as int),
{
    Vector {
        x: Scalar::center(x, size),
        y: Scalar::center(y, size),
        z: Scalar::center(z, size),
    }
}

/// Maps a point to the lattice coordinate of the cell that holds it, on a grid
/// of resolution `size`: `Some` where the point lies inside the world on every
/// axis, `None` where it does not.
pub fn to_index(position: Vector, size: usize) -> (cell: Option<(usize, usize, usize)>)
    requires
        0 < size,
    ensures
        position.in_world() ==> cell == Some(
            (
                position.x.lattice(size as int) as usize,
                position.y.lattice(size as int) as usize,
                position.z.lattice(size as int) as usize,
            ),
        ),
        position.in_world() ==> 0 <= position.x.lattice(size as int) < size && 0
            <= position.y.lattice(size as int) < size && 0 <= position.z.lattice(size as int)
            < size,
        !position.in_world() ==> cell is None,
{
    match (position.x.to_index(size), position.y.to_index(size), position.z.to_index(size)) {
        (Some(x), Some(y), Some(z)) => Some((x, y, z)),
        _ => None,
    }
}

/// A grid of resolution `size` exists only for `size` below `2^22`.
pub proof fn lemma_grid_resolution_bound(size: int)
    requires
        0 < size,
        volume(size) <= usize::MAX,
    ensures
        size <= 0x3F_FFFF,
{
    if size >= 0x40_0000 {
        assert(size * size * size >= 0x40_0000 * 0x40_0000 * 0x40_0000) by (nonlinear_arith)
            requires
                size >= 0x40_0000,
        ;
    }
}

/// The voxel centre formula and the index formula are inverse to each other:
/// the centre of the voxel at `(x, y, z)` lies inside the world, and maps back
/// to `(x, y, z)`.
pub proof fn lemma_index_bijection(position: Vector, x: int, y: int, z: int, size: int)
    requires
        0 <= x < size,
        0 <= y < size,
        0 <= z < size,
        size <= 0x7F_FFFF,
        position.is_center_of(x, y, z, size),
    ensures
        position.in_world(),
        position.x.lattice(size) == x,
        position.y.lattice(size) == y,
        position.z.lattice(size) == z,
        position.cell(size) == cell_index(x, y, z, size),
{
    lemma_center_lattice(position.x, x, size);
    lemma_center_lattice(position.y, y, size);
    lemma_center_lattice(position.z, z, size);
}

/// Places of the solid cells among the first `upto` cells of a buffer,
/// ascending.
pub open spec fn solid_cells(voxels: Seq<[u8; 4]>, upto: int) -> Seq<int>
    decreases upto,
{
    if upto <= 0 {
        Seq::empty()
    } else {
        let before = solid_cells(voxels, upto - 1);
        if is_solid(voxels[upto - 1]) {
            before.push(upto - 1)
        } else {
            before
        }
    }
}

impl Collider {
    /// The collider is the one that is built for the solid voxel `voxel` at
    /// place `i` of a grid of resolution `size`: it sits at the voxel's centre,
    /// carries the voxel's bytes, and hangs on a dynamic body exactly if the
    /// voxel lies in the topmost layer, `y == size - 1`.
    pub open spec fn stands_for(self, i: int, voxel: [u8; 4], size: int) -> bool {
        let x = i % size;
        let y = i / size % size;
        let z = i / (size * size);
        &&& self.translation.is_center_of(x, y, z, size)
        &&& self.user_data == packed(voxel)
        &&& self.dynamic == (y == size - 1)
    }
}

/// The colliders are those of the solid voxels among the first `upto` cells of
/// the grid, one for each, in the order of the cells.
pub open spec fn is_built(
    colliders: Seq<Collider>,
    voxels: Seq<[u8; 4]>,
    size: int,
    upto: int,
) -> bool {
    let cells = solid_cells(voxels, upto);
    &&& colliders.len() == cells.len()
    &&& forall|j: int|
        0 <= j < colliders.len() ==> (#[trigger] colliders[j]).stands_for(
            cells[j],
            voxels[cells[j]],
            size,
        )
}

/// What write-back leaves in a grid of resolution `size`: all cells empty, then
/// for each collider inside the world, in order, its colour in the cell that
/// holds it.
pub open spec fn written(colliders: Seq<Collider>, size: int) -> Seq<[u8; 4]>
    decreases colliders.len(),
{
    if colliders.len() == 0 {
        empty_grid(size)
    } else {
        let before = written(colliders.drop_last(), size);
        let last = colliders.last();
        if last.translation.in_world() {
            before.update(last.translation.cell(size), unpacked(last.user_data as int))
        } else {
            before
        }
    }
}

/// The colliders inside the world, in their order.
pub open spec fn kept(colliders: Seq<Collider>) -> Seq<Collider>
    decreases colliders.len(),
{
    if colliders.len() == 0 {
        Seq::empty()
    } else {
        let before = kept(colliders.drop_last());
        if colliders.last().translation.in_world() {
            before.push(colliders.last())
        } else {
            before
        }
    }
}

/// The places, in the sequence, of the colliders outside the world, ascending.
pub open spec fn evicted(colliders: Seq<Collider>) -> Seq<int>
    decreases colliders.len(),
{
    if colliders.len() == 0 {
        Seq::empty()
    } else {
        let before = evicted(colliders.drop_last());
        if colliders.last().translation.in_world() {
            before
        } else {
            before.push(colliders.len() - 1)
        }
    }
}

/// The grid that a round trip gives: the solid cells of `voxels` among the
/// first `upto` as they are, every other cell empty.
pub open spec fn solid_part(voxels: Seq<[u8; 4]>, size: int, upto: int) -> Seq<[u8; 4]> {
    Seq::new(
        volume(size) as nat,
        |i: int|
            if i < upto && is_solid(voxels[i]) {
                voxels[i]
            } else {
                ZERO
            },
    )
}

/// The solid cells are listed in ascending order, each is solid and lies among
/// the first `upto`, and none is left out.
pub proof fn lemma_solid_cells(voxels: Seq<[u8; 4]>, upto: int)
    requires
        0 <= upto <= voxels.len(),
    ensures
        solid_cells(voxels, upto).len() <= upto,
        forall|j: int|
            0 <= j < solid_cells(voxels, upto).len() ==> 0 <= (#[trigger] solid_cells(
                voxels,
                upto,
            )[j]) < upto && is_solid(voxels[solid_cells(voxels, upto)[j]]),
        forall|j: int, k: int|
            0 <= j < k < solid_cells(voxels, upto).len() ==> (#[trigger] solid_cells(
                voxels,
                upto,
            )[j]) < (#[trigger] solid_cells(voxels, upto)[k]),
        forall|i: int|
            0 <= i < upto && is_solid(#[trigger] voxels[i]) ==> solid_cells(voxels, upto).contains(
                i,
            ),
    decreases upto,
{
    if upto > 0 {
        lemma_solid_cells(voxels, upto - 1);
        let before = solid_cells(voxels, upto - 1);
        let cells = solid_cells(voxels, upto);
        assert forall|i: int| 0 <= i < upto && is_solid(#[trigger] voxels[i]) implies cells.contains(
            i,
        ) by {
            if i < upto - 1 {
                let j = choose|j: int| 0 <= j < before.len() && before[j] == i;
                assert(cells[j] == i);
            } else {
                assert(cells[cells.len() - 1] == i);
            }
        }
    }
}

/// While a world is intact, each solid cell has exactly one collider, at its
/// centre, and no collider exists for an empty cell.
pub proof fn lemma_intact(colliders: Seq<Collider>, voxels: Seq<[u8; 4]>, size: int)
    requires
        is_grid(voxels, size),
        volume(size) <= usize::MAX,
        is_built(colliders, voxels, size, volume(size)),
    ensures
        forall|j: int|
            0 <= j < colliders.len() ==> (#[trigger] colliders[j]).translation.in_world()
                && 0 <= colliders[j].translation.cell(size) < volume(size) && is_solid(
                voxels[colliders[j].translation.cell(size)],
            ),
        forall|j: int, k: int|
            0 <= j < k < colliders.len() ==> (#[trigger] colliders[j]).translation.cell(size) < (
            #[trigger] colliders[k]).translation.cell(size),
        forall|i: int|
            0 <= i < volume(size) && is_solid(#[trigger] voxels[i]) ==> exists|j: int|
                0 <= j < colliders.len() && (#[trigger] colliders[j]).translation.cell(size) == i,
{
    let upto = volume(size);
    let cells = solid_cells(voxels, upto);
    lemma_solid_cells(voxels, upto);
    assert forall|j: int| 0 <= j < colliders.len() implies (#[trigger] colliders[j]).translation.cell(
        size,
    ) == cells[j] && colliders[j].translation.in_world() by {
        lemma_built_cell(colliders, voxels, size, upto, j);
    }
    assert forall|i: int| 0 <= i < volume(size) && is_solid(#[trigger] voxels[i]) implies exists|
        j: int,
    |
        0 <= j < colliders.len() && (#[trigger] colliders[j]).translation.cell(size) == i by {
        let j = choose|j: int| 0 <= j < cells.len() && cells[j] == i;
        assert(colliders[j].translation.cell(size) == i);
    }
}

/// The `j`-th collider of a built world lies inside the world, in the `j`-th
/// solid cell.
pub proof fn lemma_built_cell(
    colliders: Seq<Collider>,
    voxels: Seq<[u8; 4]>,
    size: int,
    upto: int,
    j: int,
)
    requires
        is_grid(voxels, size),
        volume(size) <= usize::MAX,
        0 <= upto <= volume(size),
        is_built(colliders, voxels, size, upto),
        0 <= j < colliders.len(),
    ensures
        colliders[j].translation.in_world(),
        colliders[j].translation.cell(size) == solid_cells(voxels, upto)[j],
        0 <= solid_cells(voxels, upto)[j] < upto,
        colliders[j].user_data == packed(voxels[solid_cells(voxels, upto)[j]]),
{
    let cells = solid_cells(voxels, upto);
    lemma_solid_cells(voxels, upto);
    let i = cells[j];
    assert(colliders[j].stands_for(i, voxels[i], size));
    lemma_cell_index_surjective(i, size);
    lemma_grid_resolution_bound(size);
    lemma_index_bijection(
        colliders[j].translation,
        i % size,
        i / size % size,
        i / (size * size),
        size,
    );
}

/// Round trip: writing back the world that was built from a grid, before
/// anything has moved, reproduces the grid's solid cells colour for colour and
/// leaves every other cell empty; no collider is evicted.
pub proof fn lemma_round_trip(colliders: Seq<Collider>, voxels: Seq<[u8; 4]>, size: int)
    requires
        is_grid(voxels, size),
        volume(size) <= usize::MAX,
        is_built(colliders, voxels, size, volume(size)),
    ensures
        written(colliders, size) == solid_part(voxels, size, volume(size)),
        kept(colliders) == colliders,
        evicted(colliders).len() == 0,
{
    lemma_round_trip_upto(colliders, voxels, size, volume(size));
}

#[verifier::rlimit(50)]
proof fn lemma_round_trip_upto(
    colliders: Seq<Collider>,
    voxels: Seq<[u8; 4]>,
    size: int,
    upto: int,
)
    requires
        is_grid(voxels, size),
        volume(size) <= usize::MAX,
        0 <= upto <= volume(size),
        is_built(colliders, voxels, size, upto),
    ensures
        written(colliders, size) == solid_part(voxels, size, upto),
        kept(colliders) == colliders,
        evicted(colliders).len() == 0,
    decreases upto,
{
    if upto == 0 {
        assert(colliders.len() == 0);
        assert(written(colliders, size) =~= solid_part(voxels, size, upto));
        assert(kept(colliders) =~= colliders);
    } else if !is_solid(voxels[upto - 1]) {
        lemma_round_trip_upto(colliders, voxels, size, upto - 1);
        assert(solid_part(voxels, size, upto - 1) =~= solid_part(voxels, size, upto));
    } else {
        let before = colliders.drop_last();
        let last = colliders.last();
        let cells = solid_cells(voxels, upto);
        assert(cells == solid_cells(voxels, upto - 1).push(upto - 1));
        assert forall|j: int| 0 <= j < before.len() implies (#[trigger] before[j]).stands_for(
            solid_cells(voxels, upto - 1)[j],
            voxels[solid_cells(voxels, upto - 1)[j]],
            size,
        ) by {
            assert(before[j] == colliders[j]);
            assert(cells[j] == solid_cells(voxels, upto - 1)[j]);
        }
        lemma_round_trip_upto(before, voxels, size, upto - 1);
        lemma_built_cell(colliders, voxels, size, upto, colliders.len() - 1);
        lemma_unpack_packed(voxels[upto - 1]);
        assert(written(colliders, size) =~= solid_part(voxels, size, upto));
        assert(kept(colliders) =~= colliders);
    }
}

/// A collider outside the world leaves no trace: the grid that is written and
/// the colliders that are kept are those of the world without it.
pub proof fn lemma_eviction(colliders: Seq<Collider>, size: int, j: int)
    requires
        0 <= j < colliders.len(),
        !colliders[j].translation.in_world(),
    ensures
        written(colliders, size) == written(colliders.remove(j), size),
        kept(colliders) == kept(colliders.remove(j)),
        kept(colliders).len() < colliders.len(),
        evicted(colliders).contains(j),
    decreases colliders.len(),
{
    let before = colliders.drop_last();
    lemma_kept(before);
    if j == colliders.len() - 1 {
        assert(colliders.remove(j) =~= before);
        assert(evicted(colliders).last() == j);
    } else {
        lemma_eviction(before, size, j);
        let shorter = colliders.remove(j);
        assert(shorter.drop_last() =~= before.remove(j));
        assert(shorter.last() == colliders.last());
        let k = choose|k: int| 0 <= k < evicted(before).len() && evicted(before)[k] == j;
        assert(evicted(colliders)[k] == j);
    }
}

/// Every collider that is kept lies inside the world, and a collider is either
/// kept or evicted.
pub proof fn lemma_kept(colliders: Seq<Collider>)
    ensures
        kept(colliders).len() + evicted(colliders).len() == colliders.len(),
        forall|k: int|
            0 <= k < kept(colliders).len() ==> (#[trigger] kept(colliders)[k]).translation.in_world(),
        forall|k: int|
            0 <= k < evicted(colliders).len() ==> 0 <= (#[trigger] evicted(colliders)[k])
                < colliders.len() && !colliders[evicted(colliders)[k]].translation.in_world(),
    decreases colliders.len(),
{
    if colliders.len() > 0 {
        let before = colliders.drop_last();
        lemma_kept(before);
        assert forall|k: int| 0 <= k < evicted(colliders).len() implies 0 <= (#[trigger] evicted(
            colliders,
        )[k]) < colliders.len() && !colliders[evicted(colliders)[k]].translation.in_world() by {
            if k < evicted(before).len() {
                assert(evicted(colliders)[k] == evicted(before)[k]);
                assert(colliders[evicted(before)[k]] == before[evicted(before)[k]]);
            }
        }
    }
}

/// Writing back a world from which nothing is evicted leaves the world as it
/// is, so that a second write-back gives the same grid.
pub proof fn lemma_write_back_settles(colliders: Seq<Collider>, size: int)
    ensures
        kept(kept(colliders)) == kept(colliders),
        evicted(kept(colliders)).len() == 0,
        written(kept(colliders), size) == written(colliders, size),
    decreases colliders.len(),
{
    if colliders.len() > 0 {
        lemma_write_back_settles(colliders.drop_last(), size);
        if colliders.last().translation.in_world() {
            let inner = kept(colliders);
            assert(inner.drop_last() =~= kept(colliders.drop_last()));
        }
    }
}

/// The written grid has one cell for each place, and a place that no collider
/// inside the world maps to is empty.
pub proof fn lemma_written_empty_cell(colliders: Seq<Collider>, size: int, i: int)
    requires
        0 < size,
        0 <= i < volume(size),
        forall|j: int|
            0 <= j < colliders.len() && (#[trigger] colliders[j]).translation.in_world()
                ==> colliders[j].translation.cell(size) != i,
    ensures
        written(colliders, size).len() == volume(size),
        written(colliders, size)[i] == ZERO,
    decreases colliders.len(),
{
    if colliders.len() > 0 {
        let before = colliders.drop_last();
        assert forall|j: int|
            0 <= j < before.len() && (#[trigger] before[j]).translation.in_world()
                implies before[j].translation.cell(size) != i by {
            assert(before[j] == colliders[j]);
        }
        lemma_written_empty_cell(before, size, i);
        assert(colliders.last() == colliders[colliders.len() - 1]);
        lemma_written_len(colliders, size);
    } else {
        lemma_written_len(colliders, size);
    }
}

/// A place that colliders inside the world map to holds the colour of the last
/// of them.
pub proof fn lemma_written_last_wins(colliders: Seq<Collider>, size: int, j: int)
    requires
        0 < size,
        0 <= j < colliders.len(),
        colliders[j].translation.in_world(),
        0 <= colliders[j].translation.cell(size) < volume(size),
        forall|k: int|
            j < k < colliders.len() && (#[trigger] colliders[k]).translation.in_world()
                ==> colliders[k].translation.cell(size) != colliders[j].translation.cell(size),
    ensures
        written(colliders, size).len() == volume(size),
        written(colliders, size)[colliders[j].translation.cell(size)] == unpacked(
            colliders[j].user_data as int,
        ),
    decreases colliders.len(),
{
    let before = colliders.drop_last();
    lemma_written_len(before, size);
    lemma_written_len(colliders, size);
    if j < colliders.len() - 1 {
        assert(before[j] == colliders[j]);
        assert forall|k: int|
            j < k < before.len() && (#[trigger] before[k]).translation.in_world()
                implies before[k].translation.cell(size) != before[j].translation.cell(size) by {
            assert(before[k] == colliders[k]);
        }
        lemma_written_last_wins(before, size, j);
        assert(colliders.last() == colliders[colliders.len() - 1]);
    }
}

/// The written grid has one cell for each place, and a collider inside the
/// world maps to one of them.
pub proof fn lemma_written_len(colliders: Seq<Collider>, size: int)
    requires
        0 < size,
    ensures
        0 < volume(size),
        written(colliders, size).len() == volume(size),
        forall|j: int|
            0 <= j < colliders.len() && (#[trigger] colliders[j]).translation.in_world() ==> 0
                <= colliders[j].translation.cell(size) < volume(size),
    decreases colliders.len(),
{
    assert(0 < size * size * size) by (nonlinear_arith)
        requires
            0 < size,
    ;
    if colliders.len() > 0 {
        let before = colliders.drop_last();
        lemma_written_len(before, size);
        assert forall|j: int|
            0 <= j < colliders.len() && (#[trigger] colliders[j]).translation.in_world() implies 0
            <= colliders[j].translation.cell(size) < volume(size) by {
            lemma_cell_in_range(colliders[j].translation, size);
        }
        assert(colliders.last() == colliders[colliders.len() - 1]);
    }
}

/// A point inside the world lies in one of the cells of the grid.
pub proof fn lemma_cell_in_range(position: Vector, size: int)
    requires
        0 < size,
        position.in_world(),
    ensures
        0 <= position.x.lattice(size) < size,
        0 <= position.y.lattice(size) < size,
        0 <= position.z.lattice(size) < size,
        0 <= position.cell(size) < volume(size),
{
    lemma_lattice_in_range(position.x, size);
    lemma_lattice_in_range(position.y, size);
    lemma_lattice_in_range(position.z, size);
    lemma_cell_index_in_range(
        position.x.lattice(size),
        position.y.lattice(size),
        position.z.lattice(size),
        size,
    );
}

impl View for Physics {
    type V = Seq<Collider>;

    closed spec fn view(&self) -> Seq<Collider> {
        self.colliders@
    }
}

impl Physics {
    /// Builds the world for a grid: one collider for each solid voxel, at the
    /// voxel's centre, carrying the voxel's bytes. The voxels of the topmost
    /// layer, `y == size - 1`, hang on dynamic bodies; the others stand free.
    pub fn new(voxels: &Vec<[u8; 4]>, size: usize) -> (physics: Physics)
        requires
            is_grid(voxels@, size as int),
        ensures
            is_built(physics@, voxels@, size as int, volume(size as int)),
    {
        let mut colliders: Vec<Collider> = Vec::new();
        set_voxels(&mut colliders, voxels, size);
        Physics { colliders }
    }

    /// Discards the world and builds it anew for a grid, as [`Physics::new`]
    /// does.
    pub fn set_voxels(&mut self, voxels: &Vec<[u8; 4]>, size: usize)
        requires
            is_grid(voxels@, size as int),
        ensures
            is_built(final(self)@, voxels@, size as int, volume(size as int)),
    {
        *self = Physics::new(voxels, size);
    }

    /// Number of colliders.
    pub fn len(&self) -> (count: usize)
        ensures
            count == self@.len(),
    {
        self.colliders.len()
    }

    /// The collider at place `index` of the engine's walk.
    pub fn collider(&self, index: usize) -> (collider: Collider)
        requires
            index < self@.len(),
        ensures
            collider == self@[index as int],
    {
        self.colliders[index]
    }

    /// Puts a collider into the world, behind the others.
    pub fn insert(&mut self, collider: Collider)
        ensures
            final(self)@ == old(self)@.push(collider),
    {
        self.colliders.push(collider);
    }

    /// The time that the engine is to integrate for a frame that took
    /// `dt_nanos` nanoseconds: the frame time, but at most half a second.
    pub fn time_step(dt_nanos: u64) -> (step_nanos: u64)
        ensures
            step_nanos == if dt_nanos <= MAX_STEP_NANOS {
                dt_nanos
            } else {
                MAX_STEP_NANOS
            },
    {
        if dt_nanos <= MAX_STEP_NANOS {
            dt_nanos
        } else {
            MAX_STEP_NANOS
        }
    }

    /// Takes over where the engine has moved the colliders in a step:
    /// `translations` holds one point for each collider, in the engine's order.
    /// Nothing else changes.
    pub fn update(&mut self, translations: &Vec<Vector>)
        requires
            translations@.len() == old(self)@.len(),
        ensures
            final(self)@.len() == old(self)@.len(),
            forall|j: int|
                0 <= j < old(self)@.len() ==> #[trigger] final(self)@[j] == (Collider {
                    translation: translations@[j],
                    ..old(self)@[j]
                }),
    {
        let count = self.colliders.len();
        let mut j: usize = 0;
        while j < count
            invariant
                j <= count,
                count == old(self)@.len(),
                translations@.len() == count,
                self.colliders@.len() == count,
                forall|k: int|
                    0 <= k < j ==> #[trigger] self.colliders@[k] == (Collider {
                        translation: translations@[k],
                        ..old(self)@[k]
                    }),
                forall|k: int| j <= k < count ==> #[trigger] self.colliders@[k] == old(self)@[k],
            decreases count - j,
        {
            let moved = Collider { translation: translations[j], ..self.colliders[j] };
            self.colliders.set(j, moved);
            j = j + 1;
        }
    }

    /// Tells whether a button event fires a ray: the fire button, pressed.
    pub fn fires(button: u32, pressed: bool) -> (fire: bool)
        ensures
            fire == (button == FIRE_BUTTON && pressed),
    {
        button == FIRE_BUTTON && pressed
    }

    /// Decides what a ray does. `hit` is the place of the first collider on the
    /// ray, if there is one, and `direction` the direction of the ray.
    ///
    /// A collider that is hit is marked as struck. One that already hangs on a
    /// dynamic body is redirected; one that stood free is detached: from now on
    /// it hangs on a dynamic body at the same place. Either way the body is
    /// launched along the ray. A ray that hits nothing, or a collider that is no
    /// longer there, changes nothing.
    pub fn input(&mut self, hit: Option<usize>, direction: Vector) -> (interaction: Interaction)
        ensures
            match hit {
                Some(index) if index < old(self)@.len() => {
                    &&& final(self)@ == old(self)@.update(
                        index as int,
                        Collider {
                            translation: old(self)@[index as int].translation,
                            user_data: STRUCK,
                            dynamic: true,
                        },
                    )
                    &&& interaction == if old(self)@[index as int].dynamic {
                        Interaction::Redirect { collider: index, direction, speed: LAUNCH_SPEED }
                    } else {
                        Interaction::Detach { collider: index, direction, speed: LAUNCH_SPEED }
                    }
                },
                _ => final(self)@ == old(self)@ && interaction == Interaction::Miss,
            },
    {
        match hit {
            Some(index) => {
                if index < self.colliders.len() {
                    let struck = self.colliders[index];
                    self.colliders.set(
                        index,
                        Collider {
                            translation: struck.translation,
                            user_data: STRUCK,
                            dynamic: true,
                        },
                    );
                    if struck.dynamic {
                        Interaction::Redirect { collider: index, direction, speed: LAUNCH_SPEED }
                    } else {
                        Interaction::Detach { collider: index, direction, speed: LAUNCH_SPEED }
                    }
                } else {
                    Interaction::Miss
                }
            },
            None => Interaction::Miss,
        }
    }

    /// Writes the world back into a grid of resolution `size` and evicts what
    /// has left the world.
    ///
    /// The grid is emptied. Then each collider whose translation lies inside
    /// the world on every axis writes its colour into the cell that holds it, a
    /// later collider over an earlier one. The others are taken out of the
    /// world; their places in the engine's walk, as it was before the call, are
    /// returned in ascending order.
    #[verifier::rlimit(50)]
    pub fn write_voxels(&mut self, size: usize, voxels: &mut Vec<[u8; 4]>) -> (out_of_bounds: Vec<
        usize,
    >)
        requires
            is_grid(old(voxels)@, size as int),
        ensures
            final(voxels)@ == written(old(self)@, size as int),
            final(self)@ == kept(old(self)@),
            out_of_bounds@.map_values(|place: usize| place as int) == evicted(old(self)@),
    {
        let count = voxels.len();
        let mut i: usize = 0;
        while i < count
            invariant
                i <= count,
                voxels@.len() == count,
                forall|k: int| 0 <= k < i ==> #[trigger] voxels@[k] == ZERO,
            decreases count - i,
        {
            voxels.set(i, ZERO);
            i = i + 1;
        }
        assert(voxels@ =~= empty_grid(size as int));

        let total = self.colliders.len();
        let mut kept_colliders: Vec<Collider> = Vec::new();
        let mut out_of_bounds: Vec<usize> = Vec::new();
        let mut j: usize = 0;
        assert(self.colliders@.take(0) =~= Seq::<Collider>::empty());
        while j < total
            invariant
                j <= total,
                total == self.colliders@.len(),
                self.colliders@ == old(self)@,
                0 < size,
                voxels@.len() == volume(size as int),
                voxels@ == written(self.colliders@.take(j as int), size as int),
                kept_colliders@ == kept(self.colliders@.take(j as int)),
                out_of_bounds@.map_values(|place: usize| place as int) == evicted(
                    self.colliders@.take(j as int),
                ),
            decreases total - j,
        {
            let collider = self.colliders[j];
            proof {
                let prefix = self.colliders@.take(j as int + 1);
                assert(prefix.drop_last() =~= self.colliders@.take(j as int));
                assert(prefix.last() == collider);
            }
            match to_index(collider.translation, size) {
                Some((x, y, z)) => {
                    proof {
                        lemma_cell_index_in_range(x as int, y as int, z as int, size as int);
                        assert(0 <= y * size <= size * size && 0 <= z * size <= size * size && size
                            * size <= size * size * size && z * size * size == z * (size * size)
                            && 0 <= z * (size * size)) by (nonlinear_arith)
                            requires
                                0 <= y < size,
                                0 <= z < size,
                                0 < size,
                        ;
                        assert(voxels.len() <= usize::MAX);
                    }
                    voxels.set(x + y * size + z * size * size, to_voxel(collider.user_data));
                    kept_colliders.push(collider);
                },
                None => {
                    let ghost places = out_of_bounds@;
                    out_of_bounds.push(j);
                    assert(out_of_bounds@.map_values(|place: usize| place as int)
                        =~= places.map_values(|place: usize| place as int).push(j as int));
                },
            }
            j = j + 1;
        }
        assert(self.colliders@.take(total as int) =~= self.colliders@);
        self.colliders = kept_colliders;
        out_of_bounds
    }
}

/// Puts one collider for each solid voxel of the grid behind the colliders that
/// are there.
#[verifier::rlimit(50)]
fn set_voxels(colliders: &mut Vec<Collider>, voxels: &Vec<[u8; 4]>, size: usize)
    requires
        is_grid(voxels@, size as int),
        old(colliders)@.len() == 0,
    ensures
        is_built(final(colliders)@, voxels@, size as int, volume(size as int)),
{
    proof {
        assert(voxels.len() <= usize::MAX);
        lemma_grid_resolution_bound(size as int);
    }
    let slices = layers(voxels, size);
    let mut z: usize = 0;
    proof {
        assert(0 * (size * size) == 0) by (nonlinear_arith);
    }
    while z < size
        invariant
            z <= size,
            0 < size <= 0x3F_FFFF,
            is_grid(voxels@, size as int),
            slices.len() == size,
            forall|k: int|
                0 <= k < size ==> (#[trigger] slices[k])@ == layer(voxels@, size as int, k),
            is_built(colliders@, voxels@, size as int, z * (size * size)),
        decreases size - z,
    {
        let slice = slices[z];
        let mut y: usize = 0;
        proof {
            assert(cell_index(0, 0, z as int, size as int) == z * (size * size)) by (nonlinear_arith);
        }
        while y < size
            invariant
                y <= size,
                z < size,
                0 < size <= 0x3F_FFFF,
                is_grid(voxels@, size as int),
                slice@ == layer(voxels@, size as int, z as int),
                is_built(
                    colliders@,
                    voxels@,
                    size as int,
                    cell_index(0, y as int, z as int, size as int),
                ),
            decreases size - y,
        {
            let mut x: usize = 0;
            while x < size
                invariant
                    x <= size,
                    y < size,
                    z < size,
                    0 < size <= 0x3F_FFFF,
                    is_grid(voxels@, size as int),
                    slice@ == layer(voxels@, size as int, z as int),
                    is_built(
                        colliders@,
                        voxels@,
                        size as int,
                        cell_index(x as int, y as int, z as int, size as int),
                    ),
                decreases size - x,
            {
                let ghost i = cell_index(x as int, y as int, z as int, size as int);
                proof {
                    lemma_layer_cell(voxels@, size as int, x as int, y as int, z as int);
                    lemma_cell_index_in_range(x as int, y as int, z as int, size as int);
                    lemma_cell_index_inverse(x as int, y as int, z as int, size as int);
                    assert(0 <= y * size <= (size - 1) * size) by (nonlinear_arith)
                        requires
                            0 <= y <= size - 1,
                            0 < size,
                    ;
                    assert(cell_index(x as int + 1, y as int, z as int, size as int) == i + 1);
                    lemma_layer_bounds(size as int, z as int);
                    assert(voxels.len() <= usize::MAX);
                    assert(0 <= z * (size * size)) by (nonlinear_arith)
                        requires
                            0 <= z,
                            0 < size,
                    ;
                }
                let voxel = slice[x + y * size];
                if voxel[3] != 0 {
                    let ghost before = colliders@;
                    let collider = Collider {
                        translation: position_of(x, y, z, size),
                        user_data: to_user_data(voxel),
                        dynamic: y == size - 1,
                    };
                    colliders.push(collider);
                    proof {
                        let cells = solid_cells(voxels@, i + 1);
                        assert(cells == solid_cells(voxels@, i).push(i));
                        assert(collider.stands_for(i, voxels@[i], size as int));
                        assert forall|j: int| 0 <= j < colliders@.len() implies (
                        #[trigger] colliders@[j]).stands_for(cells[j], voxels@[cells[j]], size as int) by {
                            if j < before.len() {
                                assert(colliders@[j] == before[j]);
                                assert(cells[j] == solid_cells(voxels@, i)[j]);
                            }
                        }
                    }
                }
                x = x + 1;
            }
            proof {
                assert(cell_index(size as int, y as int, z as int, size as int) == cell_index(
                    0,
                    y as int + 1,
                    z as int,
                    size as int,
                )) by (nonlinear_arith);
            }
            y = y + 1;
        }
        proof {
            assert(cell_index(0, size as int, z as int, size as int) == (z + 1) * (size * size))
                by (nonlinear_arith);
        }
        z = z + 1;
    }
    proof {
        assert(size * (size * size) == volume(size as int)) by (nonlinear_arith);
    }
}

} // verus!
