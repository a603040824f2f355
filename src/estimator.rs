//! The decisions of the path-tracing estimator: how a traced path moves between
//! tracing and its three ways of ending. The radiance arithmetic that goes with
//! each step is floating-point and is done by the caller.
use vstd::prelude::*;

verus! {

/// Bounces a path always survives before Russian roulette may end it.
pub const MIN_BOUNCES: u32 = 3;

/// Where a traced path stands.
#[derive(Clone, Copy, Debug, PartialEq, Eq, Structural)]
pub enum PathState {
    /// Still bouncing, after `depth` scatters.
    Tracing { depth: u32 },
    /// Ended on a light.
    TerminatedEmission,
    /// Left the scene.
    TerminatedBackground,
    /// Cut by Russian roulette.
    TerminatedRoulette,
}

/// What the last ray of a path met.
#[derive(Clone, Copy, Debug, PartialEq, Eq, Structural)]
pub enum PathEvent {
    /// No face.
    Miss,
    /// A face whose material is an emitter.
    HitEmitter,
    /// A non-emitting face, which scattered the path.
    Scattered,
}

/// Whether a path that has scattered `depth` times faces Russian roulette.
pub open spec fn roulette_due_spec(depth: u32) -> bool {
    depth >= MIN_BOUNCES
}

pub fn roulette_due(depth: u32) -> (r: bool)
    ensures
        r == roulette_due_spec(depth),
{
    depth >= MIN_BOUNCES
}

/// The state after `event`, for a path that was tracing at `depth`. A scattered
/// path counts one more bounce (saturating); if roulette is then due it goes on
/// only when `survives` (the outcome of the caller's draw) holds.
pub open spec fn next_state(depth: u32, event: PathEvent, survives: bool) -> PathState {
    match event {
        PathEvent::Miss => PathState::TerminatedBackground,
        PathEvent::HitEmitter => PathState::TerminatedEmission,
        PathEvent::Scattered => {
            let d = if depth < u32::MAX {
                (depth + 1) as u32
            } else {
                depth
            };
            if roulette_due_spec(d) && !survives {
                PathState::TerminatedRoulette
            } else {
                PathState::Tracing { depth: d }
            }
        },
    }
}

pub fn step(depth: u32, event: PathEvent, survives: bool) -> (r: PathState)
    ensures
        r == next_state(depth, event, survives),
{
    match event {
        PathEvent::Miss => PathState::TerminatedBackground,
        PathEvent::HitEmitter => PathState::TerminatedEmission,
        PathEvent::Scattered => {
            let d = depth.saturating_add(1);
            if roulette_due(d) && !survives {
                PathState::TerminatedRoulette
            } else {
                PathState::Tracing { depth: d }
            }
        },
    }
}

/// A path is only ever cut by roulette after its minimum number of bounces, and a
/// path that meets a light or leaves the scene ends whatever the draw.
pub proof fn lemma_roulette_only_after_min_bounces(depth: u32, event: PathEvent, survives: bool)
    ensures
        next_state(depth, event, survives) == PathState::TerminatedRoulette ==> depth + 1
            >= MIN_BOUNCES,
        depth + 1 < MIN_BOUNCES && event == PathEvent::Scattered ==> next_state(
            depth,
            event,
            survives,
        ) == (PathState::Tracing { depth: (depth + 1) as u32 }),
        event == PathEvent::HitEmitter ==> next_state(depth, event, survives)
            == PathState::TerminatedEmission,
        event == PathEvent::Miss ==> next_state(depth, event, survives)
            == PathState::TerminatedBackground,
{
}

} // verus!
