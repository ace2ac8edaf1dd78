//! The state of one component instance.
use crate::any_props::AnyProps;
use crate::bump_frame::arena_holds;
use crate::bump_frame::ArenaError;
use crate::bump_frame::BumpFrame;
use crate::bump_frame::CyclePlan;
use crate::hooks::HookList;
use crate::hooks::HookView;
use crate::nodes::RenderReturn;
use bumpalo::Bump;
use vstd::prelude::*;

verus! {

/// The identifier of a scope: unique among the live scopes, and handed out
/// again only after the scope was removed.
#[derive(Clone, Copy, Debug, PartialEq, Eq, Structural)]
pub struct ScopeId(pub usize);

/// The value that stands under `key` among the shared values: the first
/// that carries the key.
pub open spec fn spec_lookup<C>(contexts: Seq<(usize, C)>, key: usize) -> Option<C>
    decreases contexts.len(),
{
    if contexts.len() == 0 {
        None
    } else if contexts[0].0 == key {
        Some(contexts[0].1)
    } else {
        spec_lookup(contexts.drop_first(), key)
    }
}

/// The shared values with `value` under `key`: in the place of the value
/// that stood there, or at the end.
pub open spec fn spec_provide<C>(
    contexts: Seq<(usize, C)>,
    key: usize,
    value: C,
) -> Seq<(usize, C)>
    decreases contexts.len(),
{
    if contexts.len() == 0 {
        seq![(key, value)]
    } else if contexts[0].0 == key {
        contexts.update(0, (key, value))
    } else {
        seq![contexts[0]] + spec_provide(contexts.drop_first(), key, value)
    }
}

/// A value that was provided is found under its key, and the values
/// under other keys are found as before.
pub proof fn lemma_provide_then_lookup<C>(
    contexts: Seq<(usize, C)>,
    key: usize,
    value: C,
    other: usize,
)
    ensures
        spec_lookup(spec_provide(contexts, key, value), key) == Some(value),
        other != key ==> spec_lookup(spec_provide(contexts, key, value), other) == spec_lookup(
            contexts,
            other,
        ),
    decreases contexts.len(),
{
    let provided = spec_provide(contexts, key, value);
    if contexts.len() == 0 {
        assert(provided[0] == (key, value));
        assert(provided.drop_first() =~= contexts);
    } else if contexts[0].0 != key {
        let rest = spec_provide(contexts.drop_first(), key, value);
        lemma_provide_then_lookup(contexts.drop_first(), key, value, other);
        assert(provided[0] == contexts[0]);
        assert(provided.drop_first() =~= rest);
    } else {
        assert(provided[0] == (key, value));
        assert(provided.drop_first() =~= contexts.drop_first());
    }
}

/// The render count after one more render. It starts again at zero where
/// the counter of the machine ends; the frames keep taking turns there,
/// because the largest count is odd.
pub open spec fn spec_next_count(count: usize) -> usize {
    if count == usize::MAX {
        0
    } else {
        (count + 1) as usize
    }
}

/// Whatever the count, one more render makes the other frame the current
/// one.
pub proof fn lemma_counts_take_turns(count: usize)
    ensures
        (spec_next_count(count) % 2 == 0) != (count % 2 == 0),
{
}

/// One component instance: who it is, where it hangs in the tree, its
/// properties, its two frames, its hooks and its bookkeeping.
#[verifier::reject_recursive_types(P)]
pub struct ScopeState<P: AnyProps> {
    parent: Option<ScopeId>,
    id: ScopeId,
    height: u32,
    name: &'static str,
    props: Option<P>,
    node_arena_1: BumpFrame<P::Nodes>,
    node_arena_2: BumpFrame<P::Nodes>,
    render_cnt: usize,
    hooks: HookList<P::Hook>,
    shared_contexts: Vec<(usize, P::Context)>,
    borrowed_props: Vec<ScopeId>,
    listeners: Vec<usize>,
}

/// All of a scope but the memory of its arenas.
#[verifier::ext_equal]
#[verifier::reject_recursive_types(P)]
pub struct ScopeView<P: AnyProps> {
    pub parent: Option<ScopeId>,
    pub id: ScopeId,
    pub height: u32,
    pub name: &'static str,
    /// Absent once the scope is torn down.
    pub props: Option<P>,
    pub render_count: usize,
    pub hooks: HookView<P::Hook>,
    /// The root published into the first frame.
    pub root_1: Option<RenderReturn<P::Nodes>>,
    /// The root published into the second frame.
    pub root_2: Option<RenderReturn<P::Nodes>>,
    /// What the scope shares with its descendants, each value under its
    /// key.
    pub shared_contexts: Seq<(usize, P::Context)>,
    /// The children that hold properties borrowed from this scope.
    pub borrowed_props: Seq<ScopeId>,
    pub listeners: Seq<usize>,
}

impl<P: AnyProps> ScopeView<P> {
    pub open spec fn wf(self) -> bool {
        self.hooks.cursor <= self.hooks.slots.len()
    }

    /// The current frame is the one written last: the frames take turns
    /// with the render count.
    pub open spec fn first_is_current(self) -> bool {
        self.render_count % 2 == 0
    }

    /// The root of the current frame: what the rest of the system sees.
    pub open spec fn current_root(self) -> Option<RenderReturn<P::Nodes>> {
        if self.first_is_current() {
            self.root_1
        } else {
            self.root_2
        }
    }

    /// The root of the other frame, which the next render overwrites.
    pub open spec fn previous_root(self) -> Option<RenderReturn<P::Nodes>> {
        if self.first_is_current() {
            self.root_2
        } else {
            self.root_1
        }
    }

    /// A scope that was just allocated.
    pub open spec fn fresh(
        id: ScopeId,
        parent: Option<ScopeId>,
        height: u32,
        name: &'static str,
        props: P,
    ) -> Self {
        ScopeView {
            parent,
            id,
            height,
            name,
            props: Some(props),
            render_count: 0,
            hooks: HookView { slots: Seq::empty(), cursor: 0 },
            root_1: None,
            root_2: None,
            shared_contexts: Seq::empty(),
            borrowed_props: Seq::empty(),
            listeners: Seq::empty(),
        }
    }

    /// After the safety pass: nothing is left of the listeners and the
    /// borrowed properties of the render before.
    pub open spec fn swept(self) -> Self {
        ScopeView { borrowed_props: Seq::empty(), listeners: Seq::empty(), ..self }
    }

    /// After the frames were cycled: the frame that is written next holds
    /// nothing, and the hook cursor is on the first slot.
    pub open spec fn cycled(self) -> Self {
        let hooks = HookView { slots: self.hooks.slots, cursor: 0 };
        if self.first_is_current() {
            ScopeView { hooks, root_2: None, ..self }
        } else {
            ScopeView { hooks, root_1: None, ..self }
        }
    }

    /// After `root` was published: it is the root of the frame that was
    /// written, and that frame is the current one.
    pub open spec fn published(self, root: RenderReturn<P::Nodes>) -> Self {
        let render_count = spec_next_count(self.render_count);
        if self.first_is_current() {
            ScopeView { render_count, root_2: Some(root), ..self }
        } else {
            ScopeView { render_count, root_1: Some(root), ..self }
        }
    }
}

/// The two frames take turns. After two renders the scope holds the
/// roots of both, the later one as the current root; the cycle that
/// opens the third render wipes the root of the first and leaves that of
/// the second, and every cycle puts the hook cursor on the first slot.
pub proof fn lemma_frames_take_turns<P: AnyProps>(
    scope: ScopeView<P>,
    first: RenderReturn<P::Nodes>,
    second: RenderReturn<P::Nodes>,
)
    ensures
        scope.cycled().hooks.cursor == 0,
        scope.cycled().previous_root() is None,
        scope.cycled().current_root() == scope.current_root(),
        scope.cycled().published(first).current_root() == Some(first),
        scope.cycled().published(first).cycled().hooks.cursor == 0,
        scope.cycled().published(first).cycled().published(second).current_root() == Some(second),
        scope.cycled().published(first).cycled().published(second).previous_root() == Some(first),
        scope.cycled().published(first).cycled().published(second).cycled().previous_root() is None,
        scope.cycled().published(first).cycled().published(second).cycled().current_root() == Some(
            second,
        ),
        scope.cycled().published(first).cycled().published(second).render_count == spec_next_count(
            spec_next_count(scope.render_count),
        ),
{
    lemma_counts_take_turns(scope.render_count);
    lemma_counts_take_turns(spec_next_count(scope.render_count));
}

proof fn lemma_lookup_at<C>(contexts: Seq<(usize, C)>, key: usize, at: int)
    requires
        0 <= at <= contexts.len(),
        forall|i: int| 0 <= i < at ==> (#[trigger] contexts[i]).0 != key,
        at < contexts.len() ==> contexts[at].0 == key,
    ensures
        spec_lookup(contexts, key) == (if at < contexts.len() {
            Some(contexts[at].1)
        } else {
            None
        }),
    decreases contexts.len(),
{
    if contexts.len() > 0 && at > 0 {
        assert(contexts[0].0 != key);
        let rest = contexts.drop_first();
        assert forall|i: int| 0 <= i < at - 1 implies (#[trigger] rest[i]).0 != key by {
            assert(contexts[i + 1].0 != key);
        }
        lemma_lookup_at(rest, key, at - 1);
    }
}

proof fn lemma_provide_at<C>(contexts: Seq<(usize, C)>, key: usize, value: C, at: int)
    requires
        0 <= at <= contexts.len(),
        forall|i: int| 0 <= i < at ==> (#[trigger] contexts[i]).0 != key,
        at < contexts.len() ==> contexts[at].0 == key,
    ensures
        spec_provide(contexts, key, value) == (if at < contexts.len() {
            contexts.update(at, (key, value))
        } else {
            contexts.push((key, value))
        }),
    decreases contexts.len(),
{
    if contexts.len() > 0 && at > 0 {
        assert(contexts[0].0 != key);
        let rest = contexts.drop_first();
        assert forall|i: int| 0 <= i < at - 1 implies (#[trigger] rest[i]).0 != key by {
            assert(contexts[i + 1].0 != key);
        }
        lemma_provide_at(rest, key, value, at - 1);
        if at < contexts.len() {
            assert(seq![contexts[0]] + rest.update(at - 1, (key, value)) =~= contexts.update(
                at,
                (key, value),
            ));
        } else {
            assert(seq![contexts[0]] + rest.push((key, value)) =~= contexts.push((key, value)));
        }
    } else if contexts.len() == 0 {
        assert(seq![(key, value)] =~= contexts.push((key, value)));
    }
}

impl<P: AnyProps> View for ScopeState<P> {
    type V = ScopeView<P>;

    closed spec fn view(&self) -> ScopeView<P> {
        ScopeView {
            parent: self.parent,
            id: self.id,
            height: self.height,
            name: self.name,
            props: self.props,
            render_count: self.render_cnt,
            hooks: self.hooks@,
            root_1: self.node_arena_1.spec_root(),
            root_2: self.node_arena_2.spec_root(),
            shared_contexts: self.shared_contexts@,
            borrowed_props: self.borrowed_props@,
            listeners: self.listeners@,
        }
    }
}

impl<P: AnyProps> ScopeState<P> {
    pub fn new(
        id: ScopeId,
        parent: Option<ScopeId>,
        height: u32,
        name: &'static str,
        props: P,
    ) -> (scope: Self)
        ensures
            scope@ == ScopeView::fresh(id, parent, height, name, props),
            arena_holds(scope.spec_write_arena()).len() == 0,
            arena_holds(scope.spec_current_arena()).len() == 0,
    {
        let scope = ScopeState {
            parent,
            id,
            height,
            name,
            props: Some(props),
            node_arena_1: BumpFrame::new(0).unwrap(),
            node_arena_2: BumpFrame::new(0).unwrap(),
            render_cnt: 0,
            hooks: HookList::new(),
            shared_contexts: Vec::new(),
            borrowed_props: Vec::new(),
            listeners: Vec::new(),
        };
        scope
    }

    pub fn id(&self) -> (id: ScopeId)
        ensures
            id == self@.id,
    {
        self.id
    }

    pub fn parent(&self) -> (parent: Option<ScopeId>)
        ensures
            parent == self@.parent,
    {
        self.parent
    }

    pub fn height(&self) -> (height: u32)
        ensures
            height == self@.height,
    {
        self.height
    }

    pub fn name(&self) -> (name: &'static str)
        ensures
            name == self@.name,
    {
        self.name
    }

    pub fn has_props(&self) -> (present: bool)
        ensures
            present == (self@.props is Some),
    {
        self.props.is_some()
    }

    /// How often the scope was rendered. The count starts again at zero
    /// where the counter of the machine ends.
    pub fn generation(&self) -> (count: usize)
        ensures
            count == self@.render_count,
    {
        self.render_cnt
    }

    pub fn hooks(&self) -> (hooks: &HookList<P::Hook>)
        ensures
            hooks@ == self@.hooks,
    {
        &self.hooks
    }

    /// The frame written last.
    pub fn current_frame(&self) -> (frame: &BumpFrame<P::Nodes>)
        ensures
            frame.spec_root() == self@.current_root(),
            frame.spec_bump() == self.spec_current_arena(),
    {
        if self.render_cnt % 2 == 0 {
            &self.node_arena_1
        } else {
            &self.node_arena_2
        }
    }

    /// The frame that the next render writes.
    pub fn previous_frame(&self) -> (frame: &BumpFrame<P::Nodes>)
        ensures
            frame.spec_root() == self@.previous_root(),
            frame.spec_bump() == self.spec_write_arena(),
    {
        if self.render_cnt % 2 == 0 {
            &self.node_arena_2
        } else {
            &self.node_arena_1
        }
    }

    /// The published root of the last render, if the scope was rendered.
    pub fn root_node(&self) -> (found: Option<&RenderReturn<P::Nodes>>)
        ensures
            found == (match self@.current_root() {
                Some(root) => Some(&root),
                None => None,
            }),
    {
        self.current_frame().root()
    }

    /// The place of `key` among the shared values, if it has one.
    fn context_slot(&self, key: usize) -> (at: usize)
        ensures
            at <= self@.shared_contexts.len(),
            forall|i: int| 0 <= i < at ==> (#[trigger] self@.shared_contexts[i]).0 != key,
            at < self@.shared_contexts.len() ==> self@.shared_contexts[at as int].0 == key,
    {
        let mut at: usize = 0;
        while at < self.shared_contexts.len() && self.shared_contexts[at].0 != key
            invariant
                at <= self.shared_contexts@.len(),
                forall|i: int| 0 <= i < at ==> (#[trigger] self.shared_contexts@[i]).0 != key,
            decreases self.shared_contexts@.len() - at,
        {
            at = at + 1;
        }
        at
    }

    /// The value that this scope shares under `key`.
    pub fn context(&self, key: usize) -> (found: Option<&P::Context>)
        ensures
            found == (match spec_lookup(self@.shared_contexts, key) {
                Some(value) => Some(&value),
                None => None,
            }),
    {
        let at = self.context_slot(key);
        proof {
            lemma_lookup_at(self@.shared_contexts, key, at as int);
        }
        if at < self.shared_contexts.len() {
            Some(&self.shared_contexts[at].1)
        } else {
            None
        }
    }

    /// Shares `value` with the descendants of this scope under `key`, in
    /// the place of what the scope shared under that key before.
    pub fn provide_context(&mut self, key: usize, value: P::Context)
        ensures
            final(self)@ == (ScopeView {
                shared_contexts: spec_provide(old(self)@.shared_contexts, key, value),
                ..old(self)@
            }),
    {
        let at = self.context_slot(key);
        proof {
            lemma_provide_at(self@.shared_contexts, key, value, at as int);
        }
        if at < self.shared_contexts.len() {
            self.shared_contexts[at] = (key, value);
        } else {
            self.shared_contexts.push((key, value));
        }
    }

    pub fn borrowed_props(&self) -> (children: &Vec<ScopeId>)
        ensures
            children@ == self@.borrowed_props,
    {
        &self.borrowed_props
    }

    pub fn listeners(&self) -> (listeners: &Vec<usize>)
        ensures
            listeners@ == self@.listeners,
    {
        &self.listeners
    }

    /// Records a listener that the output of this render holds.
    pub fn add_listener(&mut self, listener: usize)
        ensures
            final(self)@ == (ScopeView {
                listeners: old(self)@.listeners.push(listener),
                ..old(self)@
            }),
    {
        self.listeners.push(listener);
    }

    /// Records that `child` was handed properties borrowed from this
    /// scope.
    pub fn lend_props(&mut self, child: ScopeId)
        ensures
            final(self)@ == (ScopeView {
                borrowed_props: old(self)@.borrowed_props.push(child),
                ..old(self)@
            }),
    {
        self.borrowed_props.push(child);
    }

    /// Tears the scope down: takes its properties. It cannot be rendered
    /// any more.
    pub fn teardown(&mut self) -> (props: Option<P>)
        ensures
            props == old(self)@.props,
            final(self)@ == (ScopeView { props: None, ..old(self)@ }),
    {
        self.props.take()
    }

    /// The safety pass before a render: drops what the render before left
    /// of listeners and of properties lent to children.
    pub fn ensure_drop_safety(&mut self)
        ensures
            final(self)@ == old(self)@.swept(),
    {
        self.borrowed_props.clear();
        self.listeners.clear();
        assert(self@.borrowed_props =~= Seq::empty());
        assert(self@.listeners =~= Seq::empty());
    }

    /// Makes the frame that is not current the write target: its root
    /// is gone, its arena holds nothing, and the hook cursor is back on
    /// the first slot. The current frame is not touched. Where the arena
    /// cannot get its memory the scope is left as it was.
    pub fn cycle(&mut self) -> (done: Result<CyclePlan, ArenaError>)
        ensures
            done is Ok ==> final(self)@ == old(self)@.cycled(),
            done is Ok ==> arena_holds(final(self).spec_write_arena()).len() == 0,
            done is Err ==> *final(self) == *old(self),
            final(self).spec_current_arena() == old(self).spec_current_arena(),
    {
        let other_bytes = self.current_frame().allocated_bytes();
        let done = if self.render_cnt % 2 == 0 {
            self.node_arena_2.cycle(other_bytes)
        } else {
            self.node_arena_1.cycle(other_bytes)
        };
        match done {
            Ok(plan) => {
                self.hooks.reset();
                Ok(plan)
            },
            Err(error) => Err(error),
        }
    }

    /// The arena of the frame that the next render writes.
    pub closed spec fn spec_write_arena(&self) -> Bump {
        if self.render_cnt % 2 == 0 {
            self.node_arena_2.spec_bump()
        } else {
            self.node_arena_1.spec_bump()
        }
    }

    /// The arena of the frame that was written last.
    pub closed spec fn spec_current_arena(&self) -> Bump {
        if self.render_cnt % 2 == 0 {
            self.node_arena_1.spec_bump()
        } else {
            self.node_arena_2.spec_bump()
        }
    }

    /// Runs the component's render function on the properties of the
    /// scope, with the hooks of the scope and the arena of the write
    /// target, and hands back what it gives. Nothing of the scope changes
    /// but the hooks and the arena of the write target, which are as the
    /// component leaves them.
    pub fn render(&mut self) -> (out: RenderReturn<P::Nodes>)
        requires
            old(self)@.wf(),
            old(self)@.props is Some,
            old(self)@.hooks.cursor == 0,
        ensures
            final(self)@.wf(),
            final(self)@ == (ScopeView { hooks: final(self)@.hooks, ..old(self)@ }),
            final(self).spec_current_arena() == old(self).spec_current_arena(),
            old(self)@.props.unwrap().renders(
                old(self)@.hooks,
                old(self).spec_write_arena(),
                out,
                final(self)@.hooks,
            ),
    {
        match &self.props {
            Some(props) => {
                if self.render_cnt % 2 == 0 {
                    props.render(&mut self.hooks, self.node_arena_2.bump_mut())
                } else {
                    props.render(&mut self.hooks, self.node_arena_1.bump_mut())
                }
            },
            None => RenderReturn::Aborted,
        }
    }

    /// Publishes `root` into the frame that was written and moves the
    /// render count on, which makes that frame the current one.
    pub fn publish(&mut self, root: RenderReturn<P::Nodes>)
        ensures
            final(self)@ == old(self)@.published(root),
            final(self)@.current_root() == Some(root),
            final(self)@.previous_root() == old(self)@.current_root(),
    {
        if self.render_cnt % 2 == 0 {
            self.node_arena_2.publish(root);
        } else {
            self.node_arena_1.publish(root);
        }
        proof {
            lemma_counts_take_turns(self.render_cnt);
        }
        self.render_cnt = self.render_cnt.wrapping_add(1);
    }
}

} // verus!
