use vstd::prelude::*;

use crate::world::{step_view, World, WorldView};

verus! {

/// The world `n` steps later.
pub open spec fn steps_view(v: WorldView, n: nat) -> WorldView
    decreases n,
{
    if n == 0 {
        v
    } else {
        step_view(steps_view(v, (n - 1) as nat))
    }
}

/// A step keeps the grid's size and its well-formedness and advances the
/// tick by one.
pub proof fn lemma_step_keeps_shape(v: WorldView)
    requires
        v.tick < u64::MAX,
    ensures
        v.wf() ==> step_view(v).wf(),
        step_view(v).dims == v.dims,
        step_view(v).tick == v.tick + 1,
{
}

/// Running `n` steps keeps the grid's size and advances the tick by `n`.
pub proof fn lemma_steps_keep_shape(v: WorldView, n: nat)
    requires
        v.tick + n <= u64::MAX,
    ensures
        v.wf() ==> steps_view(v, n).wf(),
        steps_view(v, n).dims == v.dims,
        steps_view(v, n).tick == v.tick + n,
    decreases n,
{
    if n > 0 {
        lemma_steps_keep_shape(v, (n - 1) as nat);
        lemma_step_keeps_shape(steps_view(v, (n - 1) as nat));
    }
}

/// Running `a` steps and then `b` more is running `a + b` steps.
pub proof fn lemma_steps_compose(v: WorldView, a: nat, b: nat)
    ensures
        steps_view(steps_view(v, a), b) == steps_view(v, a + b),
    decreases b,
{
    if b > 0 {
        lemma_steps_compose(v, a, (b - 1) as nat);
        assert(steps_view(v, a + b) == step_view(steps_view(v, (a + b - 1) as nat)));
    }
}

/// A named world that runs on request.
pub struct WorldSim {
    name: String,
    w: World,
}

/// A copy of a simulated world, handed back after each request.
pub struct WorldResponse(World);

/// A request to run a world for a number of steps.
pub struct MsgRunForTicks(u16);

/// A request to make one tile of a world live or dead.
pub struct MsgSetTileState(pub (usize, usize), pub bool);

impl WorldSim {
    pub closed spec fn spec_name(&self) -> Seq<char> {
        self.name@
    }

    pub closed spec fn spec_world(&self) -> WorldView {
        self.w@
    }

    /// A simulation named `name` of a blank world of size `dim`.
    pub fn new(name: String, dim: (usize, usize)) -> (s: WorldSim)
        requires
            dim.0 * dim.1 <= usize::MAX,
        ensures
            s.spec_name() == name@,
            s.spec_world().dims == dim,
            s.spec_world().tick == 0,
            s.spec_world().cells == Seq::new(
                (dim.0 * dim.1) as nat,
                |i: int| crate::world::blank_tile(false),
            ),
    {
        WorldSim { name: name, w: World::new(dim) }
    }

    /// A simulation named `name` of the world `w`.
    pub fn with_world(name: String, w: World) -> (s: WorldSim)
        ensures
            s.spec_name() == name@,
            s.spec_world() == w@,
    {
        WorldSim { name: name, w: w }
    }

    pub fn name(&self) -> (r: &String)
        ensures
            r@ == self.spec_name(),
    {
        &self.name
    }

    pub fn world(&self) -> (r: &World)
        ensures
            r@ == self.spec_world(),
    {
        &self.w
    }

    /// Runs the world for the requested number of steps and hands back a copy
    /// of the result.
    pub fn handle_run_for_ticks(&mut self, msg: MsgRunForTicks) -> (r: WorldResponse)
        requires
            old(self).spec_world().tick + msg.spec_ticks() <= u64::MAX,
        ensures
            final(self).spec_name() == old(self).spec_name(),
            final(self).spec_world() == steps_view(old(self).spec_world(), msg.spec_ticks() as nat),
            r.spec_world() == final(self).spec_world(),
    {
        let ticks = msg.0;
        let mut k: u16 = 0;
        while k < ticks
            invariant
                k <= ticks,
                ticks == msg.spec_ticks(),
                self.w@ == steps_view(old(self).spec_world(), k as nat),
                self.name@ == old(self).spec_name(),
                old(self).spec_world().tick + ticks <= u64::MAX,
            decreases ticks - k,
        {
            proof {
                lemma_steps_keep_shape(old(self).spec_world(), k as nat);
            }
            self.w = self.w.step();
            k = k + 1;
        }
        WorldResponse(self.w.clone())
    }

    /// Sets the liveness of the requested tile, where it lies on the grid,
    /// and hands back a copy of the result.
    pub fn handle_set_tile_state(&mut self, msg: MsgSetTileState) -> (r: WorldResponse)
        ensures
            final(self).spec_name() == old(self).spec_name(),
            final(self).spec_world() == old(self).spec_world().with_liveness(msg.0, msg.1),
            r.spec_world() == final(self).spec_world(),
    {
        match self.w.cell_at_mut(msg.0) {
            Some(t) => t.live = msg.1,
            None => {},
        }
        WorldResponse(self.w.clone())
    }
}

impl WorldResponse {
    pub closed spec fn spec_world(&self) -> WorldView {
        self.0@
    }

    pub fn world(&self) -> (r: &World)
        ensures
            r@ == self.spec_world(),
    {
        &self.0
    }
}

impl MsgRunForTicks {
    pub closed spec fn spec_ticks(&self) -> u16 {
        self.0
    }

    pub fn new(ticks: u16) -> (m: MsgRunForTicks)
        ensures
            m.spec_ticks() == ticks,
    {
        MsgRunForTicks(ticks)
    }

    pub fn ticks(&self) -> (r: u16)
        ensures
            r == self.spec_ticks(),
    {
        self.0
    }
}

} // verus!
