//! One of the two frames of a scope: an arena and the root that was last
//! published into it.
use crate::nodes::RenderReturn;
use bumpalo::AllocErr;
use bumpalo::Bump;
use vstd::prelude::*;

verus! {

/// `bumpalo::Bump`: a bump-allocation arena. Its memory is opaque here.
#[verifier::external_type_specification]
#[verifier::external_body]
pub struct ExBump<const MIN_ALIGN: usize>(Bump<MIN_ALIGN>);

/// `bumpalo::AllocErr`: the arena could not get memory.
#[verifier::external_type_specification]
#[verifier::external_body]
pub struct ExAllocErr(AllocErr);

/// What lies in an arena: the bytes of all that was allocated in it since
/// it was made or last rewound.
pub uninterp spec fn arena_holds(arena: Bump) -> Seq<u8>;

/// `Bump::try_with_capacity`: a new arena with room for `capacity` bytes,
/// or the allocation error. With a capacity of zero no memory is requested,
/// so the call succeeds. Nothing is allocated in a new arena.
#[verifier::external_body]
fn arena_try_with_capacity(capacity: usize) -> (made: Result<Bump, AllocErr>)
    ensures
        capacity == 0 ==> made is Ok,
        made matches Ok(arena) ==> arena_holds(arena).len() == 0,
{
    Bump::try_with_capacity(capacity)
}

/// `Bump::allocated_bytes`: the size of the chunks that the arena has got
/// from the allocator. The number depends on the allocator, so nothing is
/// stated of it.
#[verifier::external_body]
fn arena_allocated_bytes(arena: &Bump) -> (bytes: usize) {
    arena.allocated_bytes()
}

/// `Bump::reset`: frees all that was allocated in the arena and keeps its
/// last chunk for reuse. Nothing is allocated in the arena afterwards.
#[verifier::external_body]
fn arena_reset(arena: &mut Bump)
    ensures
        arena_holds(*final(arena)).len() == 0,
{
    arena.reset()
}

/// The arena could not be given the memory it asked for.
#[derive(Clone, Copy, Debug, PartialEq, Eq, Structural)]
pub enum ArenaError {
    OutOfMemory,
}

/// How a frame is made ready to be written again.
#[derive(Clone, Copy, Debug, PartialEq, Eq, Structural)]
pub enum CyclePlan {
    /// The arena has memory: rewind it.
    Reset,
    /// The arena was never used: replace it by one with this capacity.
    Allocate(usize),
}

/// A frame that holds no bytes yet is sized after the other frame; one
/// that holds bytes is rewound.
pub open spec fn spec_plan_cycle(target_bytes: usize, other_bytes: usize) -> CyclePlan {
    if target_bytes == 0 {
        CyclePlan::Allocate(other_bytes)
    } else {
        CyclePlan::Reset
    }
}

pub fn plan_cycle(target_bytes: usize, other_bytes: usize) -> (plan: CyclePlan)
    ensures
        plan == spec_plan_cycle(target_bytes, other_bytes),
{
    if target_bytes == 0 {
        CyclePlan::Allocate(other_bytes)
    } else {
        CyclePlan::Reset
    }
}

/// An arena together with the slot of the root published into it.
#[verifier::reject_recursive_types(N)]
pub struct BumpFrame<N> {
    bump: Bump,
    node: Option<RenderReturn<N>>,
}

impl<N> BumpFrame<N> {
    /// The published root, if the frame holds one.
    pub closed spec fn spec_root(&self) -> Option<RenderReturn<N>> {
        self.node
    }

    /// A frame with an arena of the given capacity and no root. A frame
    /// without capacity asks for no memory and is always made.
    pub fn new(capacity: usize) -> (made: Result<Self, ArenaError>)
        ensures
            capacity == 0 ==> made is Ok,
            made matches Ok(frame) ==> frame.spec_root() is None && arena_holds(
                frame.spec_bump(),
            ).len() == 0,
    {
        match arena_try_with_capacity(capacity) {
            Ok(bump) => Ok(BumpFrame { bump, node: None }),
            Err(_) => Err(ArenaError::OutOfMemory),
        }
    }

    /// The arena of the frame.
    pub closed spec fn spec_bump(&self) -> Bump {
        self.bump
    }

    /// The arena of this frame, for a component to allocate in while it
    /// renders. Whoever allocates in the arena holds it exclusively, so
    /// the frame has the arena as the holder leaves it.
    pub fn bump_mut(&mut self) -> (arena: &mut Bump)
        ensures
            *arena == old(self).spec_bump(),
            final(self).spec_bump() == *final(arena),
            final(self).spec_root() == old(self).spec_root(),
    {
        &mut self.bump
    }

    /// The size of the chunks that the arena has got from the allocator.
    pub fn allocated_bytes(&self) -> usize {
        arena_allocated_bytes(&self.bump)
    }

    pub fn root(&self) -> (found: Option<&RenderReturn<N>>)
        ensures
            found == (match self.spec_root() {
                Some(root) => Some(&root),
                None => None,
            }),
    {
        self.node.as_ref()
    }

    /// Makes the frame the write target of the next render: drops the root
    /// it holds and carries out `plan_cycle` on its arena, which holds
    /// nothing afterwards. `other_bytes` is what the other frame of the
    /// scope holds. Where a new arena cannot be had, the frame is left as
    /// it was; that cannot happen where no capacity is asked for.
    pub fn cycle(&mut self, other_bytes: usize) -> (done: Result<CyclePlan, ArenaError>)
        ensures
            other_bytes == 0 ==> done is Ok,
            done is Ok ==> final(self).spec_root() is None,
            done is Ok ==> arena_holds(final(self).spec_bump()).len() == 0,
            done is Err ==> *final(self) == *old(self),
            done matches Ok(CyclePlan::Allocate(capacity)) ==> capacity == other_bytes,
    {
        let plan = plan_cycle(arena_allocated_bytes(&self.bump), other_bytes);
        match plan {
            CyclePlan::Allocate(capacity) => {
                match arena_try_with_capacity(capacity) {
                    Ok(bump) => {
                        self.bump = bump;
                    },
                    Err(_) => {
                        return Err(ArenaError::OutOfMemory);
                    },
                }
            },
            CyclePlan::Reset => {
                arena_reset(&mut self.bump);
            },
        }
        self.node = None;
        Ok(plan)
    }

    /// Stores `root` as the published root of the frame.
    pub fn publish(&mut self, root: RenderReturn<N>)
        ensures
            final(self).spec_root() == Some(root),
            final(self).spec_bump() == old(self).spec_bump(),
    {
        self.node = Some(root);
    }
}

} // verus!
