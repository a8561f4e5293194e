//! One grid and one physics world, kept in step.
//!
//! The orchestrator owns the grid and the world that was built from it. Each
//! frame it takes over where the engine has moved the colliders and writes the
//! world back into the grid, which is then handed to the renderer. A change of
//! resolution regenerates the grid and rebuilds the world from nothing.

use crate::physics::{
    evicted, is_built, kept, lemma_round_trip, solid_part, written, Collider, Interaction, Physics,
    Vector, LAUNCH_SPEED, STRUCK,
};
use crate::scalar::Scalar;
use crate::voxel::{cave_grid, caves, is_grid, volume};
use vstd::prelude::*;

verus! {

/// Why a resolution, or the noise field for it, is refused.
#[derive(Clone, Copy, Debug, PartialEq, Eq, Structural)]
pub enum ConfigError {
    /// The resolution is zero.
    NotPositive,
    /// The resolution is not a power of two, which the renderer's mip levels
    /// need.
    NotPowerOfTwo,
    /// A grid of this resolution has more cells than a buffer can hold.
    TooLarge,
    /// The noise field, or the grid, does not hold one entry for each cell.
    SizeMismatch,
}

/// `n` is `1`, `2`, `4`, `8` and so on.
pub open spec fn is_power_of_two(n: int) -> bool
    decreases n,
{
    n == 1 || (n > 1 && n % 2 == 0 && is_power_of_two(n / 2))
}

/// The resolution can be that of a grid: positive, a power of two, and with no
/// more cells than a buffer can hold.
pub open spec fn is_resolution(size: int) -> bool {
    0 < size && is_power_of_two(size) && volume(size) <= usize::MAX
}

/// What is wrong with a resolution and the length of a noise field or a grid
/// for it, if anything is: the first of the reasons of [`ConfigError`] that
/// applies.
pub open spec fn config_error(size: int, samples: int) -> Option<ConfigError> {
    if size <= 0 {
        Some(ConfigError::NotPositive)
    } else if !is_power_of_two(size) {
        Some(ConfigError::NotPowerOfTwo)
    } else if volume(size) > usize::MAX {
        Some(ConfigError::TooLarge)
    } else if samples != volume(size) {
        Some(ConfigError::SizeMismatch)
    } else {
        None
    }
}

/// Tells whether a number is a power of two.
pub fn power_of_two(n: usize) -> (power: bool)
    ensures
        power == is_power_of_two(n as int),
{
    if n == 0 {
        return false;
    }
    let mut rest = n;
    while rest % 2 == 0
        invariant
            0 < rest,
            is_power_of_two(rest as int) == is_power_of_two(n as int),
        decreases rest,
    {
        rest = rest / 2;
    }
    rest == 1
}

/// Number of cells of a grid of resolution `size`, where a buffer can hold that
/// many.
pub fn checked_volume(size: usize) -> (cells: Option<usize>)
    ensures
        match cells {
            Some(count) => count == volume(size as int),
            None => volume(size as int) > usize::MAX,
        },
{
    proof {
        assert(0 <= size * size) by (nonlinear_arith);
    }
    match size.checked_mul(size) {
        Some(area) => area.checked_mul(size),
        None => {
            proof {
                assert(size * size * size >= size * size) by (nonlinear_arith)
                    requires
                        size * size > usize::MAX,
                        size >= 0,
                ;
            }
            None
        },
    }
}

/// Checks a resolution before anything is allocated for it: `Ok` with the
/// number of cells exactly if the resolution can be that of a grid, else the
/// first reason that applies.
pub fn check_resolution(size: usize) -> (checked: Result<usize, ConfigError>)
    ensures
        match checked {
            Ok(cells) => is_resolution(size as int) && cells == volume(size as int),
            Err(error) => !is_resolution(size as int) && config_error(size as int, 0) == Some(
                error,
            ) && error != ConfigError::SizeMismatch,
        },
{
    if size == 0 {
        return Err(ConfigError::NotPositive);
    }
    if !power_of_two(size) {
        return Err(ConfigError::NotPowerOfTwo);
    }
    match checked_volume(size) {
        Some(cells) => Ok(cells),
        None => Err(ConfigError::TooLarge),
    }
}

/// The grid, the physics world built from it, and a note of the last change of
/// resolution that the renderer has not yet been told of.
pub struct State {
    voxel_resolution: usize,
    voxels: Vec<[u8; 4]>,
    physics: Physics,
    resolution_change: Option<usize>,
}

impl State {
    /// The grid holds one voxel for each cell of its resolution.
    pub closed spec fn wf(&self) -> bool {
        is_grid(self.voxels@, self.voxel_resolution as int)
    }

    /// The resolution of the grid.
    pub closed spec fn resolution(&self) -> int {
        self.voxel_resolution as int
    }

    /// The grid.
    pub closed spec fn grid(&self) -> Seq<[u8; 4]> {
        self.voxels@
    }

    /// The colliders of the physics world.
    pub closed spec fn colliders(&self) -> Seq<Collider> {
        self.physics@
    }

    /// The resolution that the renderer has yet to be told of.
    pub closed spec fn pending_change(&self) -> Option<usize> {
        self.resolution_change
    }

    /// Takes over a grid of the given resolution and builds the physics world
    /// for it. The resolution and the length of the grid are checked first; what
    /// is wrong with them is returned.
    pub fn with_voxels(voxel_resolution: usize, voxels: Vec<[u8; 4]>) -> (state: Result<
        State,
        ConfigError,
    >)
        ensures
            match state {
                Ok(state) => {
                    &&& config_error(voxel_resolution as int, voxels@.len() as int) is None
                    &&& state.wf()
                    &&& state.resolution() == voxel_resolution
                    &&& state.grid() == voxels@
                    &&& is_built(
                        state.colliders(),
                        voxels@,
                        voxel_resolution as int,
                        volume(voxel_resolution as int),
                    )
                    &&& state.pending_change() is None
                },
                Err(error) => config_error(voxel_resolution as int, voxels@.len() as int) == Some(
                    error,
                ),
            },
    {
        match check_resolution(voxel_resolution) {
            Err(error) => Err(error),
            Ok(cells) => {
                if voxels.len() != cells {
                    return Err(ConfigError::SizeMismatch);
                }
                let physics = Physics::new(&voxels, voxel_resolution);
                Ok(State { voxel_resolution, voxels, physics, resolution_change: None })
            },
        }
    }

    /// Generates the grid for a resolution from a noise field and builds the
    /// physics world for it. The resolution and the field are checked before
    /// anything is allocated; what is wrong with them is returned.
    pub fn new(voxel_resolution: usize, noise: &Vec<Scalar>, threshold: Scalar) -> (state: Result<
        State,
        ConfigError,
    >)
        ensures
            match state {
                Ok(state) => {
                    &&& config_error(voxel_resolution as int, noise@.len() as int) is None
                    &&& state.wf()
                    &&& state.resolution() == voxel_resolution
                    &&& state.grid() == cave_grid(noise@, voxel_resolution as int, threshold)
                    &&& is_built(
                        state.colliders(),
                        state.grid(),
                        voxel_resolution as int,
                        volume(voxel_resolution as int),
                    )
                    &&& state.pending_change() is None
                },
                Err(error) => config_error(voxel_resolution as int, noise@.len() as int) == Some(
                    error,
                ),
            },
    {
        match check_resolution(voxel_resolution) {
            Err(error) => Err(error),
            Ok(_) => match caves(voxel_resolution, noise, threshold) {
                None => Err(ConfigError::SizeMismatch),
                Some(voxels) => State::with_voxels(voxel_resolution, voxels),
            },
        }
    }

    /// Changes the resolution: regenerates the grid from a noise field for the
    /// new resolution, rebuilds the physics world from nothing, and notes the
    /// change for the renderer. Where the resolution or the field is refused,
    /// nothing changes.
    pub fn set_voxel_resolution(
        &mut self,
        voxel_resolution: usize,
        noise: &Vec<Scalar>,
        threshold: Scalar,
    ) -> (changed: Result<(), ConfigError>)
        requires
            old(self).wf(),
        ensures
            final(self).wf(),
            match changed {
                Ok(()) => {
                    &&& config_error(voxel_resolution as int, noise@.len() as int) is None
                    &&& final(self).resolution() == voxel_resolution
                    &&& final(self).grid() == cave_grid(noise@, voxel_resolution as int, threshold)
                    &&& is_built(
                        final(self).colliders(),
                        final(self).grid(),
                        voxel_resolution as int,
                        volume(voxel_resolution as int),
                    )
                    &&& final(self).pending_change() == Some(voxel_resolution)
                },
                Err(error) => {
                    &&& config_error(voxel_resolution as int, noise@.len() as int) == Some(error)
                    &&& *final(self) == *old(self)
                },
            },
    {
        match State::new(voxel_resolution, noise, threshold) {
            Err(error) => Err(error),
            Ok(state) => {
                *self = state;
                self.resolution_change = Some(voxel_resolution);
                Ok(())
            },
        }
    }

    /// Changes the resolution to that of a grid that was generated elsewhere:
    /// takes the grid over, rebuilds the physics world from nothing, and notes
    /// the change for the renderer. Where the resolution or the grid is refused,
    /// nothing changes.
    pub fn set_voxels(&mut self, voxel_resolution: usize, voxels: Vec<[u8; 4]>) -> (changed: Result<
        (),
        ConfigError,
    >)
        requires
            old(self).wf(),
        ensures
            final(self).wf(),
            match changed {
                Ok(()) => {
                    &&& config_error(voxel_resolution as int, voxels@.len() as int) is None
                    &&& final(self).resolution() == voxel_resolution
                    &&& final(self).grid() == voxels@
                    &&& is_built(
                        final(self).colliders(),
                        voxels@,
                        voxel_resolution as int,
                        volume(voxel_resolution as int),
                    )
                    &&& final(self).pending_change() == Some(voxel_resolution)
                },
                Err(error) => {
                    &&& config_error(voxel_resolution as int, voxels@.len() as int) == Some(error)
                    &&& *final(self) == *old(self)
                },
            },
    {
        match State::with_voxels(voxel_resolution, voxels) {
            Err(error) => Err(error),
            Ok(state) => {
                *self = state;
                self.resolution_change = Some(voxel_resolution);
                Ok(())
            },
        }
    }

    /// The resolution of the grid.
    pub fn voxel_resolution(&self) -> (size: usize)
        ensures
            size == self.resolution(),
    {
        self.voxel_resolution
    }

    /// The grid as the last write-back left it, for the renderer.
    pub fn current_voxel_grid(&self) -> (voxels: &Vec<[u8; 4]>)
        ensures
            voxels@ == self.grid(),
    {
        &self.voxels
    }

    /// The physics world.
    pub fn physics(&self) -> (physics: &Physics)
        ensures
            physics@ == self.colliders(),
    {
        &self.physics
    }

    /// Tells the renderer of a change of resolution, once: the new resolution if
    /// it has changed since the last call, `None` if it has not.
    pub fn resolution_changed(&mut self) -> (change: Option<usize>)
        ensures
            change == old(self).pending_change(),
            final(self).pending_change() is None,
            final(self).wf() == old(self).wf(),
            final(self).resolution() == old(self).resolution(),
            final(self).grid() == old(self).grid(),
            final(self).colliders() == old(self).colliders(),
    {
        let change = self.resolution_change;
        self.resolution_change = None;
        change
    }

    /// One frame: takes over where the engine has moved the colliders, writes
    /// the world back into the grid and evicts what has left the world. The
    /// places of the evicted colliders are returned for the engine to take them
    /// out as well.
    pub fn update(&mut self, translations: &Vec<Vector>) -> (out_of_bounds: Vec<usize>)
        requires
            old(self).wf(),
            translations@.len() == old(self).colliders().len(),
        ensures
            final(self).wf(),
            final(self).resolution() == old(self).resolution(),
            final(self).pending_change() == old(self).pending_change(),
            final(self).grid() == written(
                moved(old(self).colliders(), translations@),
                old(self).resolution(),
            ),
            final(self).colliders() == kept(moved(old(self).colliders(), translations@)),
            out_of_bounds@.map_values(|place: usize| place as int) == evicted(
                moved(old(self).colliders(), translations@),
            ),
    {
        self.physics.update(translations);
        assert(self.physics@ =~= moved(old(self).colliders(), translations@));
        proof {
            crate::physics::lemma_written_len(self.physics@, self.voxel_resolution as int);
        }
        self.physics.write_voxels(self.voxel_resolution, &mut self.voxels)
    }

    /// Decides what a ray does to the world, as [`Physics::input`] does: a
    /// collider that is hit is marked as struck and hangs on a dynamic body from
    /// then on; the grid changes only with the next write-back.
    pub fn input(&mut self, hit: Option<usize>, direction: Vector) -> (interaction: Interaction)
        ensures
            final(self).wf() == old(self).wf(),
            final(self).resolution() == old(self).resolution(),
            final(self).grid() == old(self).grid(),
            final(self).pending_change() == old(self).pending_change(),
            match hit {
                Some(index) if index < old(self).colliders().len() => {
                    &&& final(self).colliders() == old(self).colliders().update(
                        index as int,
                        Collider {
                            translation: old(self).colliders()[index as int].translation,
                            user_data: STRUCK,
                            dynamic: true,
                        },
                    )
                    &&& interaction == if old(self).colliders()[index as int].dynamic {
                        Interaction::Redirect { collider: index, direction, speed: LAUNCH_SPEED }
                    } else {
                        Interaction::Detach { collider: index, direction, speed: LAUNCH_SPEED }
                    }
                },
                _ => final(self).colliders() == old(self).colliders() && interaction
                    == Interaction::Miss,
            },
    {
        self.physics.input(hit, direction)
    }
}

/// The colliders after the engine has moved them: each at its new translation,
/// otherwise as it was.
pub open spec fn moved(colliders: Seq<Collider>, translations: Seq<Vector>) -> Seq<Collider> {
    Seq::new(
        colliders.len(),
        |j: int| Collider { translation: translations[j], ..colliders[j] },
    )
}

/// Where the engine reports every collider at the place it had, nothing has
/// moved.
pub proof fn lemma_moved_nowhere(colliders: Seq<Collider>, translations: Seq<Vector>)
    requires
        translations.len() == colliders.len(),
        forall|j: int|
            0 <= j < colliders.len() ==> #[trigger] translations[j] == colliders[j].translation,
    ensures
        moved(colliders, translations) == colliders,
{
    assert(moved(colliders, translations) =~= colliders);
}

/// Static equilibrium: where the engine, after any number of steps, reports
/// every collider of an intact world at the place it had, write-back yields the
/// grid that it yielded before the steps, and evicts nothing.
pub proof fn lemma_still_world_is_conserved(
    colliders: Seq<Collider>,
    voxels: Seq<[u8; 4]>,
    size: int,
    translations: Seq<Vector>,
)
    requires
        is_grid(voxels, size),
        volume(size) <= usize::MAX,
        is_built(colliders, voxels, size, volume(size)),
        translations.len() == colliders.len(),
        forall|j: int|
            0 <= j < colliders.len() ==> #[trigger] translations[j] == colliders[j].translation,
    ensures
        written(moved(colliders, translations), size) == written(colliders, size),
        written(colliders, size) == solid_part(voxels, size, volume(size)),
        kept(moved(colliders, translations)) == colliders,
        evicted(moved(colliders, translations)).len() == 0,
{
    lemma_moved_nowhere(colliders, translations);
    lemma_round_trip(colliders, voxels, size);
}

} // verus!
