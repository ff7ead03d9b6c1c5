use vstd::prelude::*;

verus! {

/// What the scene query and the material did at one vertex of a path.
#[derive(Clone, Copy, PartialEq, Eq, Structural)]
pub enum PathEvent {
    /// The ray hit nothing.
    Miss,
    /// The ray hit a surface whose material absorbed it.
    Absorbed,
    /// The ray hit a surface whose material sent out a new ray.
    Scattered,
}

/// What the path tracer does next.
#[derive(Clone, Copy, PartialEq, Eq, Structural)]
pub enum PathAction {
    /// Query the scene with the current ray, `depth` bounces being left.
    Trace { depth: i32 },
    /// End the path with no radiance.
    Zero,
    /// End the path with the background seen along the current ray, times
    /// the attenuations gathered so far.
    Background,
}

/// The recursive path tracer. It holds no parameters of its own: the scene,
/// the sampler and the depth bound are handed to each evaluation.
pub struct TestIntegrator {}

pub open spec fn spec_first_action(depth: i32) -> PathAction {
    if depth <= 0 {
        PathAction::Zero
    } else {
        PathAction::Trace { depth }
    }
}

pub open spec fn spec_next_action(depth: i32, event: PathEvent) -> PathAction {
    match event {
        PathEvent::Miss => PathAction::Background,
        PathEvent::Absorbed => PathAction::Zero,
        PathEvent::Scattered => spec_first_action((depth - 1) as i32),
    }
}

/// Where a path started with `depth` ends when its vertices answer `events`
/// in turn; `None` while the events run out before the path ends.
pub open spec fn spec_run(depth: i32, events: Seq<PathEvent>) -> Option<PathAction>
    decreases events.len(),
{
    match spec_first_action(depth) {
        PathAction::Trace { depth: d } => if events.len() == 0 {
            None
        } else {
            match spec_next_action(d, events[0]) {
                PathAction::Trace { depth: e } => spec_run(e, events.drop_first()),
                other => Some(other),
            }
        },
        other => Some(other),
    }
}

impl TestIntegrator {
    pub fn new() -> (r: TestIntegrator)
        ensures
            r == (TestIntegrator {}),
    {
        TestIntegrator {}
    }

    /// How a path with `depth` bounces allowed begins: with no depth left it
    /// ends at once with no radiance, whatever the scene holds.
    pub fn first_action(&self, depth: i32) -> (r: PathAction)
        ensures
            r == spec_first_action(depth),
            depth <= 0 ==> r == PathAction::Zero,
    {
        if depth <= 0 {
            PathAction::Zero
        } else {
            PathAction::Trace { depth }
        }
    }

    /// How a path goes on after the vertex traced at `depth` gave `event`: a
    /// miss shows the background, an absorption ends with no radiance, and a
    /// scattered ray is traced with one bounce less.
    pub fn next_action(&self, depth: i32, event: PathEvent) -> (r: PathAction)
        requires
            depth > 0,
        ensures
            r == spec_next_action(depth, event),
            r matches PathAction::Trace { depth: d } ==> d == depth - 1 && event
                == PathEvent::Scattered,
    {
        match event {
            PathEvent::Miss => PathAction::Background,
            PathEvent::Absorbed => PathAction::Zero,
            PathEvent::Scattered => self.first_action(depth - 1),
        }
    }
}

/// A path ends after at most `depth` vertices: once that many events have
/// come, whatever they are, the path has ended.
pub proof fn lemma_path_ends(depth: i32, events: Seq<PathEvent>)
    requires
        events.len() >= depth,
    ensures
        spec_run(depth, events) is Some,
    decreases events.len(),
{
    if depth > 0 {
        if events[0] == PathEvent::Scattered && depth - 1 > 0 {
            lemma_path_ends((depth - 1) as i32, events.drop_first());
        }
    }
}

/// A path with no depth left ends with no radiance before any query.
pub proof fn lemma_depth_exhausted(depth: i32, events: Seq<PathEvent>)
    requires
        depth <= 0,
    ensures
        spec_run(depth, events) == Some(PathAction::Zero),
{
}

} // verus!
