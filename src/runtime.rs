use crate::addr::Addr;
use crate::fs::{FileSystem, FileSystemRuntime, FsModel};
use vstd::prelude::*;

verus! {

/// A simulation: the seed that fixes its every outcome, and the
/// disks of all simulated nodes. The caller constructs and owns it.
pub struct Runtime {
    pub seed: u64,
    pub fs: FileSystemRuntime,
}

/// A capability over every node of a simulation.
#[derive(Clone, Copy, Debug, PartialEq, Eq, Structural)]
pub struct Handle {
    pub seed: u64,
}

/// A capability pinned to the node at one address.
#[derive(Clone, Copy, Debug, PartialEq, Eq, Structural)]
pub struct LocalHandle {
    pub seed: u64,
    pub addr: Addr,
}

/// The context that simulated code runs in: the simulation being driven, if
/// any. Code receives it from `Runtime::block_on`, which is the only place an
/// active one is made, so it is gone once that call returns.
pub struct Context {
    current: Option<Handle>,
}

impl Context {
    /// A context outside any simulation.
    pub fn new() -> (r: Context)
        ensures
            r.current() is None,
    {
        Context { current: None }
    }

    pub closed spec fn current(&self) -> Option<Handle> {
        self.current
    }

    /// Whether a simulation is being driven.
    pub fn is_active(&self) -> (r: bool)
        ensures
            r == self.current() is Some,
    {
        self.current.is_some()
    }
}

impl Runtime {
    /// A simulation with seed 0.
    pub fn new() -> (r: Runtime)
        ensures
            r.seed == 0,
            r.fs.wf(),
            r.fs@.wf(),
            r.fs@.lengths_fit(),
            r.fs@ == FsModel::empty(),
    {
        Self::new_with_seed(0)
    }

    /// A simulation with the given seed and no disk yet.
    pub fn new_with_seed(seed: u64) -> (r: Runtime)
        ensures
            r.seed == seed,
            r.fs.wf(),
            r.fs@.wf(),
            r.fs@.lengths_fit(),
            r.fs@ == FsModel::empty(),
    {
        Runtime { seed, fs: FileSystemRuntime::new() }
    }

    /// The capability over every node of this simulation.
    pub fn handle(&self) -> (r: Handle)
        ensures
            r.seed == self.seed,
    {
        Handle { seed: self.seed }
    }

    /// The capability pinned to the node at `addr`.
    pub fn local_handle(&self, addr: Addr) -> (r: LocalHandle)
        ensures
            r.seed == self.seed,
            r.addr == addr,
    {
        LocalHandle { seed: self.seed, addr }
    }

    /// Runs `work` to completion in the context of this simulation and
    /// returns its result. The context that `work` receives is active, with
    /// this simulation's handle; it exists only for the duration of the call.
    pub fn block_on<R, F: FnOnce(&Context) -> R>(&self, work: F) -> (r: R)
        requires
            forall|c: Context|
                c.current() == Some(Handle { seed: self.seed }) ==> #[trigger] work.requires((&c,)),
        ensures
            exists|c: Context|
                c.current() == Some(Handle { seed: self.seed }) && #[trigger] work.ensures((&c,), r),
    {
        let ctx = Context { current: Some(self.handle()) };
        assert(ctx.current() == Some(Handle { seed: self.seed }));
        work(&ctx)
    }
}

impl Handle {
    /// The handle of the simulation that is being driven; only code running
    /// inside `Runtime::block_on` has one.
    pub fn current(ctx: &Context) -> (r: Handle)
        requires
            ctx.current() is Some,
        ensures
            r == ctx.current()->Some_0,
    {
        ctx.current.unwrap()
    }

    /// The capability pinned to the node at `addr`, sharing this one's seed.
    pub fn local_handle(&self, addr: Addr) -> (r: LocalHandle)
        ensures
            r.seed == self.seed,
            r.addr == addr,
    {
        LocalHandle { seed: self.seed, addr }
    }
}

impl Handle {
    /// The disk of the node at `addr`, created empty on first use.
    pub fn fs(&self, rt: &mut FileSystemRuntime, addr: Addr) -> (r: FileSystem)
        requires
            old(rt).wf(),
        ensures
            final(rt).wf(),
            final(rt)@.wf(),
            final(rt)@.lengths_fit(),
            (final(rt)@, r.id()) == old(rt)@.handle(addr),
            r.id() < final(rt)@.disks.len(),
    {
        rt.handle(addr)
    }
}

impl LocalHandle {
    /// The disk of this handle's node, created empty on first use.
    pub fn fs(&self, rt: &mut FileSystemRuntime) -> (r: FileSystem)
        requires
            old(rt).wf(),
        ensures
            final(rt).wf(),
            final(rt)@.wf(),
            final(rt)@.lengths_fit(),
            (final(rt)@, r.id()) == old(rt)@.handle(self.addr),
            r.id() < final(rt)@.disks.len(),
    {
        rt.handle(self.addr)
    }
}

} // verus!
