//! Depth control of the radiance integrator.
//!
//! The integrator follows one sample ray from surface to surface. At each
//! depth it asks the scene for the nearest hit and the struck material for a
//! scattered ray; what it does next is decided here, from the depth and from
//! what happened to the ray.
use vstd::prelude::*;

verus! {

/// Deepest level at which a ray is still traced; from here on a ray
/// contributes black.
pub const MAX_DEPTH: u32 = 50;

/// What happened to the ray at one depth.
#[derive(Clone, Copy, Debug, PartialEq, Eq, Structural)]
pub enum Bounce {
    /// The ray left the scene.
    Missed,
    /// The ray struck a surface whose material absorbed it.
    Absorbed,
    /// The ray struck a surface and the material sent a new ray on.
    Scattered,
}

/// What the integrator does with the ray.
#[derive(Clone, Copy, Debug, PartialEq, Eq, Structural)]
pub enum PathStep {
    /// The ray contributes black.
    Black,
    /// The ray contributes the sky gradient along its direction.
    Sky,
    /// The ray contributes the attenuation times the colour of the scattered
    /// ray, traced at the given depth.
    Continue(u32),
}

/// The step taken at `depth` after `bounce`.
pub open spec fn step_at(depth: u32, bounce: Bounce) -> PathStep {
    if depth >= MAX_DEPTH {
        PathStep::Black
    } else {
        match bounce {
            Bounce::Missed => PathStep::Sky,
            Bounce::Absorbed => PathStep::Black,
            Bounce::Scattered => PathStep::Continue((depth + 1) as u32),
        }
    }
}

/// Whether a ray at `depth` is traced at all. A ray beyond the limit is not
/// tested against the scene.
pub fn traces(depth: u32) -> (go: bool)
    ensures
        go == (depth < MAX_DEPTH),
{
    depth < MAX_DEPTH
}

/// Decides the step at `depth` after `bounce`: the sky on a miss, black on
/// absorption, and the next depth on a scatter; black in every case once the
/// depth limit is reached.
pub fn path_step(depth: u32, bounce: Bounce) -> (step: PathStep)
    ensures
        step == step_at(depth, bounce),
        depth >= MAX_DEPTH ==> step == PathStep::Black,
{
    if depth >= MAX_DEPTH {
        PathStep::Black
    } else {
        match bounce {
            Bounce::Missed => PathStep::Sky,
            Bounce::Absorbed => PathStep::Black,
            Bounce::Scattered => PathStep::Continue(depth + 1),
        }
    }
}

/// How many times a path that is at `depth` goes one level deeper when the
/// rays it traces meet `bounces` in turn.
pub open spec fn descents(depth: u32, bounces: Seq<Bounce>) -> nat
    decreases bounces.len(),
{
    if bounces.len() == 0 {
        0
    } else {
        match step_at(depth, bounces[0]) {
            PathStep::Continue(next) => 1 + descents(next, bounces.drop_first()),
            _ => 0,
        }
    }
}

/// Whatever the rays meet, a path that starts at depth `depth` goes at most
/// `MAX_DEPTH - depth` levels deeper, so no ray is traced below the limit.
pub proof fn lemma_depth_bounded(depth: u32, bounces: Seq<Bounce>)
    requires
        depth <= MAX_DEPTH,
    ensures
        descents(depth, bounces) <= MAX_DEPTH - depth,
    decreases bounces.len(),
{
    if bounces.len() > 0 {
        if let PathStep::Continue(next) = step_at(depth, bounces[0]) {
            lemma_depth_bounded(next, bounces.drop_first());
        }
    }
}

/// At the depth limit the contribution is black, whether the ray would
/// have missed the scene, been absorbed or been scattered.
pub proof fn lemma_black_at_limit(depth: u32, bounce: Bounce)
    requires
        depth >= MAX_DEPTH,
    ensures
        step_at(depth, bounce) == PathStep::Black,
        descents(depth, seq![bounce]) == 0,
{
}

} // verus!
