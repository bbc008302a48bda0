use vstd::prelude::*;

verus! {

/// Bounces after which a path that still hits the scene ends in black.
pub const MAX_DEPTH: u32 = 64;

/// What the integrator does with a ray once it knows whether the ray hit the scene.
#[derive(Clone, Copy, Debug, PartialEq, Eq, Structural)]
pub enum TraceStep {
    /// The ray escaped: its radiance is the sky gradient along its direction.
    Background,
    /// The path ends without light.
    Black,
    /// Ask the hit material to scatter the ray.
    Scatter,
}

/// The integrator's rule after the nearest-hit search for a ray at bounce
/// `depth`: a miss shows the sky, a hit below the depth limit scatters, and a
/// hit at or past the limit ends the path in black without recursing.
pub fn step_after_hit_test(depth: u32, hit: bool) -> (s: TraceStep)
    ensures
        !hit ==> s == TraceStep::Background,
        hit && depth < MAX_DEPTH ==> s == TraceStep::Scatter,
        hit && depth >= MAX_DEPTH ==> s == TraceStep::Black,
{
    if !hit {
        TraceStep::Background
    } else if depth < MAX_DEPTH {
        TraceStep::Scatter
    } else {
        TraceStep::Black
    }
}

/// The integrator's rule after a material scattered (or absorbed) a ray at
/// bounce `depth`: a scattered ray is traced at the next depth, an absorbed
/// one ends the path in black.
pub fn depth_after_scatter(depth: u32, scattered: bool) -> (next: Option<u32>)
    requires
        depth < MAX_DEPTH,
    ensures
        scattered ==> next == Some((depth + 1) as u32),
        !scattered ==> next is None,
{
    if scattered {
        Some(depth + 1)
    } else {
        None
    }
}

/// Number of bounces that a path starting at `depth` can still take.
pub open spec fn bounces_left(depth: u32) -> nat {
    if depth < MAX_DEPTH {
        (MAX_DEPTH - depth) as nat
    } else {
        0
    }
}

/// Every bounce that the integrator's rules allow uses up one of the bounces
/// left, so no path has more than `MAX_DEPTH` of them and a ray traced at the
/// limit is never scattered.
pub proof fn lemma_depth_bounded(depth: u32, scattered: bool)
    ensures
        bounces_left(MAX_DEPTH) == 0,
        depth < MAX_DEPTH && scattered ==> bounces_left((depth + 1) as u32) < bounces_left(depth),
        bounces_left(0) == MAX_DEPTH,
{
}

/// Entry `j` of `keys` is a hit whose key lies below `bound`. A key stands
/// for one object: `None` where the ray misses it, else a number that orders
/// hits as their ray parameters do.
pub open spec fn key_below(keys: Seq<Option<u32>>, j: int, bound: u32) -> bool {
    keys[j] is Some && keys[j]->0 < bound
}

/// Entry `i` is the nearest hit among `keys` below `bound`: it is below the
/// bound, no entry is nearer, and every earlier entry is farther.
pub open spec fn is_nearest(keys: Seq<Option<u32>>, bound: u32, i: int) -> bool {
    &&& 0 <= i < keys.len()
    &&& key_below(keys, i, bound)
    &&& forall|j: int| 0 <= j < i && #[trigger] key_below(keys, j, bound) ==> keys[j]->0 > keys[i]->0
    &&& forall|j: int| i < j < keys.len() && #[trigger] key_below(keys, j, bound) ==> keys[j]->0 >= keys[i]->0
}

/// The scene-level nearest hit: the index of the smallest key below `bound`,
/// the first one where several tie, or `None` where no key is below it.
pub fn nearest_hit(keys: &Vec<Option<u32>>, bound: u32) -> (r: Option<usize>)
    ensures
        r matches Some(i) ==> is_nearest(keys@, bound, i as int),
        r is None <==> forall|j: int| 0 <= j < keys@.len() ==> !#[trigger] key_below(keys@, j, bound),
{
    let mut closest: u32 = bound;
    let mut result: Option<usize> = None;
    let mut i: usize = 0;
    while i < keys.len()
        invariant
            i <= keys@.len(),
            result matches Some(b) ==> b < i && is_nearest(keys@.subrange(0, i as int), bound, b as int)
                && keys@[b as int] == Some(closest),
            result is None ==> closest == bound && forall|j: int| 0 <= j < i ==> !#[trigger] key_below(keys@, j, bound),
        decreases keys.len() - i,
    {
        let ghost prev = keys@.subrange(0, i as int);
        let ghost next = keys@.subrange(0, i + 1);
        assert forall|j: int| 0 <= j < i implies #[trigger] key_below(next, j, bound) == key_below(prev, j, bound)
            && key_below(prev, j, bound) == key_below(keys@, j, bound) by {
            assert(next[j] == keys@[j] && prev[j] == keys@[j]);
        }
        match keys[i] {
            None => {},
            Some(k) => {
                if k < closest {
                    closest = k;
                    result = Some(i);
                }
            },
        }
        i = i + 1;
    }
    proof {
        assert(keys@.subrange(0, i as int) =~= keys@);
    }
    result
}

} // verus!
