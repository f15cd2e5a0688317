use crate::bvh::Hit;
use vstd::prelude::*;

verus! {

/// The surface a ray meets first.
#[derive(Clone, Copy, Debug, PartialEq, Eq, Structural)]
pub enum Surface {
    /// The standalone background primitive, kept outside the hierarchy.
    Background,
    /// The primitive at this position of the hierarchy's list.
    Indexed(usize),
}

/// The nearer of the background's hit (the key of its time) and the
/// hierarchy's hit; on equal times the hierarchy's primitive is taken.
pub open spec fn spec_pick_surface(background: Option<u64>, indexed: Hit) -> Option<(Surface, u64)> {
    match (background, indexed) {
        (None, None) => None,
        (Some(tb), None) => Some((Surface::Background, tb)),
        (None, Some((p, t))) => Some((Surface::Indexed(p), t)),
        (Some(tb), Some((p, t))) => if t <= tb {
            Some((Surface::Indexed(p), t))
        } else {
            Some((Surface::Background, tb))
        },
    }
}

pub fn pick_surface(background: Option<u64>, indexed: Hit) -> (r: Option<(Surface, u64)>)
    ensures
        r == spec_pick_surface(background, indexed),
{
    match (background, indexed) {
        (None, None) => None,
        (Some(tb), None) => Some((Surface::Background, tb)),
        (None, Some((p, t))) => Some((Surface::Indexed(p), t)),
        (Some(tb), Some((p, t))) => if t <= tb {
            Some((Surface::Indexed(p), t))
        } else {
            Some((Surface::Background, tb))
        },
    }
}

/// What a path met at its current bounce.
#[derive(Clone, Copy, Debug, PartialEq, Eq, Structural)]
pub enum HitKind {
    /// No surface.
    Miss,
    /// A surface whose emission is not black.
    Emissive,
    /// A surface that emits nothing and scatters the ray.
    Scattering,
}

/// What the integrator does at a bounce.
#[derive(Clone, Copy, Debug, PartialEq, Eq, Structural)]
pub enum TraceStep {
    /// The path is spent: its color is black.
    Black,
    /// Nothing was met: the color is the ambient one.
    Ambient,
    /// The color is the surface's emission; the path ends.
    Emission,
    /// Scatter, trace on with this depth, and weight the result by the
    /// surface's albedo.
    Bounce(i32),
}

/// The step at a bounce with `depth` left: a spent path (negative depth) is
/// black whatever it met; else a miss gives the ambient color, an emissive
/// surface its emission, and any other surface a bounce with one less depth.
pub open spec fn spec_next_step(depth: int, hit: HitKind) -> TraceStep {
    if depth < 0 {
        TraceStep::Black
    } else {
        match hit {
            HitKind::Miss => TraceStep::Ambient,
            HitKind::Emissive => TraceStep::Emission,
            HitKind::Scattering => TraceStep::Bounce((depth - 1) as i32),
        }
    }
}

pub fn next_step(depth: i32, hit: HitKind) -> (r: TraceStep)
    ensures
        r == spec_next_step(depth as int, hit),
{
    if depth < 0 {
        TraceStep::Black
    } else {
        match hit {
            HitKind::Miss => TraceStep::Ambient,
            HitKind::Emissive => TraceStep::Emission,
            HitKind::Scattering => TraceStep::Bounce(depth - 1),
        }
    }
}

/// A ray that meets an emissive surface, with any depth left, takes that
/// surface's emission: the step is the same for every such depth.
pub proof fn lemma_emission_ignores_depth(d1: int, d2: int)
    requires
        d1 >= 0,
        d2 >= 0,
    ensures
        spec_next_step(d1, HitKind::Emissive) == TraceStep::Emission,
        spec_next_step(d1, HitKind::Emissive) == spec_next_step(d2, HitKind::Emissive),
{
}

/// The depth left after `n` bounces on surfaces that all scatter, from
/// `depth`; `None` once the path has ended.
pub open spec fn depth_after(depth: int, n: nat) -> Option<int>
    decreases n,
{
    if n == 0 {
        Some(depth)
    } else {
        match depth_after(depth, (n - 1) as nat) {
            Some(d) => match spec_next_step(d, HitKind::Scattering) {
                TraceStep::Bounce(e) => Some(e as int),
                _ => None,
            },
            None => None,
        }
    }
}

/// A path that meets a scattering surface at every bounce bounces exactly
/// `depth + 1` times and then is spent, so it ends black.
pub proof fn lemma_scattering_path_ends_black(depth: int, n: nat)
    requires
        0 <= depth <= i32::MAX,
        n <= depth + 1,
    ensures
        depth_after(depth, n) == Some(depth - n),
        n == depth + 1 ==> spec_next_step(depth - n, HitKind::Scattering) == TraceStep::Black,
    decreases n,
{
    if n > 0 {
        lemma_scattering_path_ends_black(depth, (n - 1) as nat);
    }
}

} // verus!
