//! The bounce policy of the radiance integrator.
//!
//! The integrator follows one path: at each bounce the scene reports what
//! happened to the ray, and the policy decides whether the path ends (with
//! the background radiance or with the surface's emission alone) or goes on
//! with the scattered ray one level deeper.
use vstd::prelude::*;

verus! {

/// The deepest bounce level at which a scattered ray is still followed.
pub const MAX_DEPTH: u32 = 50;

/// What the scene did with the ray traced at the current depth.
#[derive(Clone, Copy, Debug, PartialEq, Eq, Structural)]
pub enum Event {
    /// The ray hit nothing.
    Miss,
    /// The ray hit a surface whose material did not scatter it.
    Absorbed,
    /// The ray hit a surface whose material scattered it.
    Scattered,
}

/// What the integrator does next.
#[derive(Clone, Copy, Debug, PartialEq, Eq, Structural)]
pub enum Step {
    /// The path ends with the configured background radiance.
    Background,
    /// The path ends with the emission of the surface that was hit.
    Emitted,
    /// The emission is added to the attenuated radiance of the scattered
    /// ray, traced at the given depth.
    Bounce(u32),
}

/// The step taken at `depth` after `event`.
pub open spec fn step_spec(depth: nat, event: Event) -> Step {
    match event {
        Event::Miss => Step::Background,
        Event::Absorbed => Step::Emitted,
        Event::Scattered => if depth < MAX_DEPTH {
            Step::Bounce((depth + 1) as u32)
        } else {
            Step::Emitted
        },
    }
}

/// Decides the next step of a path at `depth` once the scene has reported
/// `event` for the ray traced there.
pub fn next_step(depth: u32, event: Event) -> (r: Step)
    ensures
        r == step_spec(depth as nat, event),
{
    match event {
        Event::Miss => Step::Background,
        Event::Absorbed => Step::Emitted,
        Event::Scattered => if depth < MAX_DEPTH {
            Step::Bounce(depth + 1)
        } else {
            Step::Emitted
        },
    }
}

/// The steps of a path that starts at `depth`, where `events[k]` is what the
/// scene does with the ray of the path's `k`-th segment. The path stops at
/// its first step that is not a bounce, or when the events run out.
pub open spec fn path_steps(depth: nat, events: Seq<Event>) -> Seq<Step>
    decreases events.len(),
{
    if events.len() == 0 {
        Seq::empty()
    } else {
        match step_spec(depth, events[0]) {
            Step::Bounce(d) => seq![Step::Bounce(d)] + path_steps(d as nat, events.drop_first()),
            s => seq![s],
        }
    }
}

/// A path whose first ray hits nothing ends at once with the background.
pub proof fn lemma_miss_is_background(depth: nat, events: Seq<Event>)
    requires
        events.len() > 0,
        events[0] == Event::Miss,
    ensures
        path_steps(depth, events) == seq![Step::Background],
{
}

/// A path whose first surface does not scatter ends at once with that
/// surface's emission: nothing comes from further bounces.
pub proof fn lemma_absorbed_is_emission(depth: nat, events: Seq<Event>)
    requires
        events.len() > 0,
        events[0] == Event::Absorbed,
    ensures
        path_steps(depth, events) == seq![Step::Emitted],
{
}

/// Whatever the scene does, a path started at `depth` takes at most
/// `MAX_DEPTH + 1 - depth` steps, and every bounce goes one level deeper.
pub proof fn lemma_depth_bound(depth: nat, events: Seq<Event>)
    requires
        depth <= MAX_DEPTH,
    ensures
        path_steps(depth, events).len() <= MAX_DEPTH + 1 - depth,
        forall|k: int|
            0 <= k < path_steps(depth, events).len() && #[trigger] path_steps(depth, events)[k] is Bounce
                ==> path_steps(depth, events)[k] == Step::Bounce((depth + k + 1) as u32),
    decreases events.len(),
{
    if events.len() > 0 {
        if let Step::Bounce(d) = step_spec(depth, events[0]) {
            lemma_depth_bound(d as nat, events.drop_first());
            let rest = path_steps(d as nat, events.drop_first());
            assert forall|k: int|
                0 <= k < path_steps(depth, events).len() && #[trigger] path_steps(depth, events)[k] is Bounce
                implies path_steps(depth, events)[k] == Step::Bounce((depth + k + 1) as u32) by {
                if k > 0 {
                    assert(path_steps(depth, events)[k] == rest[k - 1]);
                }
            }
        }
    }
}

/// A path that is scattered at every surface (an enclosure of mirrors)
/// bounces exactly `MAX_DEPTH` times from depth 0 and then ends with the
/// emission of the surface it reached, whatever lies beyond.
pub proof fn lemma_depth_cap(events: Seq<Event>)
    requires
        events.len() > MAX_DEPTH,
        forall|k: int| 0 <= k < events.len() ==> events[k] == Event::Scattered,
    ensures
        path_steps(0, events).len() == MAX_DEPTH + 1,
        path_steps(0, events)[MAX_DEPTH as int] == Step::Emitted,
        forall|k: int| 0 <= k < MAX_DEPTH ==> path_steps(0, events)[k] == Step::Bounce((k + 1) as u32),
{
    lemma_scattered_from(0, events);
}

proof fn lemma_scattered_from(depth: nat, events: Seq<Event>)
    requires
        depth <= MAX_DEPTH,
        events.len() > MAX_DEPTH - depth,
        forall|k: int| 0 <= k < events.len() ==> events[k] == Event::Scattered,
    ensures
        path_steps(depth, events).len() == MAX_DEPTH + 1 - depth,
        path_steps(depth, events)[MAX_DEPTH - depth] == Step::Emitted,
        forall|k: int|
            0 <= k < MAX_DEPTH - depth ==> path_steps(depth, events)[k] == Step::Bounce(
                (depth + k + 1) as u32,
            ),
    decreases MAX_DEPTH - depth,
{
    if depth < MAX_DEPTH {
        let rest = events.drop_first();
        lemma_scattered_from(depth + 1, rest);
        assert forall|k: int| 0 <= k < MAX_DEPTH - depth implies path_steps(depth, events)[k]
            == Step::Bounce((depth + k + 1) as u32) by {
            if k > 0 {
                assert(path_steps(depth, events)[k] == path_steps(depth + 1, rest)[k - 1]);
            }
        }
    }
}

} // verus!
