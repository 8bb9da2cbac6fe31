//! The per-structure construction/destruction lifecycle: a structure is
//! idle, under construction, or under destruction, with transitions gated
//! on elapsed time, plus the presentation-only highlight advisory.

use vstd::prelude::*;

verus! {

/// Fixed construction and destruction duration, in milliseconds.
pub const BUILD_DURATION_MS: u64 = 3000;

/// Largest random stagger added to a destruction start, in milliseconds.
pub const MAX_DESTRUCT_JITTER_MS: u64 = 500;

/// Presentation advisory for a structure; a side channel only — the
/// simulation itself never reads it.
#[derive(Clone, Copy, Debug, PartialEq, Eq, Structural)]
pub enum HighlightState {
    Off,
    White,
    Green,
    Orange,
    Red,
}

/// Lifecycle action of one structure: idle, under construction since a
/// start instant, or under destruction since a start instant (both in
/// milliseconds).
#[derive(Clone, Copy, Debug, PartialEq, Eq, Structural)]
pub enum ActionState {
    Idle,
    Construct(u64),
    Destruct(u64),
}

/// Lifecycle state of one placed structure.
#[derive(Clone, Copy, Debug, PartialEq, Eq, Structural)]
pub struct NodeState {
    pub highlight: HighlightState,
    pub action: ActionState,
}

/// What one timing step decides for an action at instant `now_ms`: the
/// next action, and whether the structure is to be removed.
pub open spec fn spec_action_step(a: ActionState, now_ms: int) -> (ActionState, bool) {
    match a {
        ActionState::Idle => (a, false),
        ActionState::Construct(t0) => if now_ms >= t0 + BUILD_DURATION_MS {
            (ActionState::Idle, false)
        } else {
            (a, false)
        },
        ActionState::Destruct(t0) => if now_ms >= t0 + BUILD_DURATION_MS {
            (a, true)
        } else {
            (a, false)
        },
    }
}

/// One timing step of the lifecycle machine. Timing law: a structure under
/// construction since `t0` becomes idle at the first instant `now_ms >=
/// t0 + BUILD_DURATION_MS` and not before; one under destruction since
/// `t0` is flagged for removal at the first such instant and not before;
/// an idle structure stays idle.
pub fn action_step(a: ActionState, now_ms: u64) -> (r: (ActionState, bool))
    ensures
        r == spec_action_step(a, now_ms as int),
        a matches ActionState::Construct(t0) ==> r.1 == false && r.0 == (
        if now_ms >= t0 + BUILD_DURATION_MS {
            ActionState::Idle
        } else {
            a
        }),
        a matches ActionState::Destruct(t0) ==> r.0 == a && (r.1 <==> now_ms >= t0
            + BUILD_DURATION_MS),
        a == ActionState::Idle ==> r == (a, false),
{
    match a {
        ActionState::Idle => (a, false),
        ActionState::Construct(t0) => {
            if now_ms >= BUILD_DURATION_MS && now_ms - BUILD_DURATION_MS >= t0 {
                (ActionState::Idle, false)
            } else {
                (a, false)
            }
        },
        ActionState::Destruct(t0) => {
            if now_ms >= BUILD_DURATION_MS && now_ms - BUILD_DURATION_MS >= t0 {
                (a, true)
            } else {
                (a, false)
            }
        },
    }
}

} // verus!
