//! The capability that a component gives the render step.
use crate::hooks::HookList;
use crate::hooks::HookView;
use crate::nodes::RenderReturn;
use bumpalo::Bump;
use vstd::prelude::*;

verus! {

/// The properties of a component instance, able to render it.
pub trait AnyProps {
    /// The node tree that a render produces.
    type Nodes;

    /// The state that one hook of the component keeps between renders.
    type Hook;

    /// What a scope shares with its descendants.
    type Context;

    /// What one render of these properties can give: `out` as the output
    /// and `after` as the hooks it leaves, when it is handed the hooks
    /// `before` and the arena as it is in `arena`. An implementation that says
    /// nothing of its renders allows every one.
    open spec fn renders(
        &self,
        before: HookView<Self::Hook>,
        arena: Bump,
        out: RenderReturn<Self::Nodes>,
        after: HookView<Self::Hook>,
    ) -> bool {
        true
    }

    /// Renders the component once. The hooks come with the cursor on the
    /// first slot; `arena` is the memory of the frame being written, for
    /// the component to allocate in. The
    /// hooks stay well formed under every implementation: a hook list has
    /// no operation that takes its cursor past its slots.
    fn render(
        &self,
        hooks: &mut HookList<Self::Hook>,
        arena: &mut Bump,
    ) -> (out: RenderReturn<Self::Nodes>)
        requires
            old(hooks).wf(),
            old(hooks)@.cursor == 0,
        ensures
            final(hooks).wf(),
            self.renders(old(hooks)@, *old(arena), out, final(hooks)@),
    ;
}

} // verus!
