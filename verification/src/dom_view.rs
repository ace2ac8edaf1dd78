//! The runtime as the contracts see it, and what holds of it.
use crate::any_props::AnyProps;
use crate::bump_frame::arena_holds;
use crate::dirty::dirty_before;
use crate::dirty::lemma_marked_is_dirty;
use crate::dirty::lemma_kept_ordered;
use crate::dirty::lemma_mark_keeps_order;
use crate::dirty::lemma_unmark;
use crate::dirty::ordered;
use crate::dirty::spec_mark;
use crate::dirty::spec_unmark;
use crate::dirty::DirtyScope;
use crate::hooks::HookView;
use crate::nodes::RenderReturn;
use crate::scheduler::spec_keys_after_drop;
use crate::scheduler::LeafView;
use crate::scheduler::SuspenseId;
use crate::scheduler::TaskId;
use crate::scopes::lemma_counts_take_turns;
use crate::scopes::spec_lookup;
use crate::scopes::spec_next_count;
use crate::scopes::ScopeId;
use crate::scopes::ScopeView;
use crate::slot_table::KeysView;
use bumpalo::Bump;
use vstd::prelude::*;

verus! {

/// The identifiers that the runtime hands out next.
#[verifier::ext_equal]
pub struct DomKeys {
    pub scopes: KeysView,
    pub leaves: KeysView,
    pub tasks: KeysView,
}

/// The runtime as the contracts see it.
#[verifier::ext_equal]
#[verifier::reject_recursive_types(P)]
pub struct DomView<P: AnyProps> {
    /// The live scopes, by identifier.
    pub scopes: Map<usize, ScopeView<P>>,
    /// The dirty scopes, in the order in which they are rendered.
    pub dirty: Seq<DirtyScope>,
    /// The scopes that are being rendered, the innermost last.
    pub stack: Seq<ScopeId>,
    /// The renders that wait for the scheduler, by leaf identifier.
    pub leaves: Map<usize, LeafView>,
    /// The live tasks, each with the scope that owns it.
    pub tasks: Map<usize, ScopeId>,
    /// The leaves registered since the list was last taken.
    pub collected: Seq<SuspenseId>,
    /// How often one render step may poll a suspended computation.
    pub poll_budget: usize,
    /// The identifiers that come next.
    pub keys: DomKeys,
}

impl<P: AnyProps> DomView<P> {
    /// The identifier that the next scope gets.
    pub open spec fn next_scope(self) -> ScopeId {
        ScopeId(self.keys.scopes.next())
    }

    /// The identifier that the next leaf gets.
    pub open spec fn next_leaf(self) -> SuspenseId {
        SuspenseId(self.keys.leaves.next())
    }

    /// The identifier that the next task gets.
    pub open spec fn next_task(self) -> TaskId {
        TaskId(self.keys.tasks.next())
    }

    /// The leaves that wait for a scope.
    pub open spec fn leaves_of(self, id: ScopeId) -> Set<usize> {
        Set::new(|k: usize| self.leaves.dom().contains(k) && self.leaves[k].scope_id == id)
    }

    /// The tasks that a scope owns.
    pub open spec fn tasks_of(self, id: ScopeId) -> Set<usize> {
        Set::new(|k: usize| self.tasks.dom().contains(k) && self.tasks[k] == id)
    }

    /// Every task is owned by a live scope, and every leaf waits for one.
    pub open spec fn owners_alive(self) -> bool {
        &&& forall|k: usize| #[trigger]
            self.tasks.dom().contains(k) ==> self.scopes.dom().contains(self.tasks[k].0)
        &&& forall|k: usize| #[trigger]
            self.leaves.dom().contains(k) ==> self.scopes.dom().contains(
                self.leaves[k].scope_id.0,
            )
    }

    /// The scope on top of the stack, if it is still alive.
    pub open spec fn current_scope(self) -> Option<ScopeId> {
        if self.stack.len() > 0 && self.scopes.dom().contains(self.stack.last().0) {
            Some(self.stack.last())
        } else {
            None
        }
    }

    /// The depth of a scope allocated now: one below the current scope,
    /// or that of a root.
    pub open spec fn child_height(self) -> int {
        match self.current_scope() {
            Some(parent) => self.scopes[parent.0].height + 1,
            None => 0,
        }
    }

    /// The entry under which a live scope stands in the dirty set.
    pub open spec fn dirty_entry(self, id: ScopeId) -> DirtyScope {
        DirtyScope { height: self.scopes[id.0].height, id }
    }

    /// After a scope was marked dirty. A scope that is not alive is not
    /// marked.
    pub open spec fn marked(self, id: ScopeId) -> Self {
        if self.scopes.dom().contains(id.0) {
            DomView { dirty: spec_mark(self.dirty, self.dirty_entry(id)), ..self }
        } else {
            self
        }
    }

    /// After the output of a render of a live scope was published: it is
    /// the root of the frame that was written, the scope is no longer
    /// dirty, and where the output is pending and a leaf was made for
    /// it, that leaf is registered under the identifier that came next.
    pub open spec fn published(
        self,
        id: ScopeId,
        output: RenderReturn<P::Nodes>,
        with_leaf: bool,
    ) -> Self {
        let waits = output is Pending && with_leaf;
        let leaf = self.next_leaf();
        DomView {
            scopes: self.scopes.insert(id.0, self.scopes[id.0].published(output)),
            dirty: spec_unmark(self.dirty, self.dirty_entry(id)),
            leaves: if waits {
                self.leaves.insert(leaf.0, LeafView { scope_id: id, id: leaf })
            } else {
                self.leaves
            },
            collected: if waits {
                self.collected.push(leaf)
            } else {
                self.collected
            },
            keys: if waits {
                DomKeys { leaves: self.keys.leaves.taken(), ..self.keys }
            } else {
                self.keys
            },
            ..self
        }
    }

    /// After a scope was allocated for `props`: it stands under the
    /// identifier that came next, below the current scope, and is fresh.
    pub open spec fn allocated(self, name: &'static str, props: P) -> Self {
        let id = self.next_scope();
        DomView {
            scopes: self.scopes.insert(
                id.0,
                ScopeView::fresh(
                    id,
                    self.current_scope(),
                    self.child_height() as u32,
                    name,
                    props,
                ),
            ),
            keys: DomKeys { scopes: self.keys.scopes.taken(), ..self.keys },
            ..self
        }
    }

    /// What a render of a live scope that left the hooks as `hooks` and
    /// published `root` says of the component: its properties render some
    /// output on the hooks with the cursor on the first slot and on an
    /// arena that holds nothing, and `root` is that output unless the
    /// output is pending.
    pub open spec fn render_claim(
        self,
        id: ScopeId,
        hooks: HookView<P::Hook>,
        root: RenderReturn<P::Nodes>,
    ) -> bool {
        exists|arena: Bump, output: RenderReturn<P::Nodes>|
            #[trigger] self.scopes[id.0].props.unwrap().renders(
                self.scopes[id.0].cycled().hooks,
                arena,
                output,
                hooks,
            ) && arena_holds(arena).len() == 0 && (output is Pending || root == output)
    }

    /// The runtime after a batch went through as many dirty entries as
    /// `hooks` is long. An entry that can be rendered is rendered, and
    /// `hooks` and `roots` hold at its place what that render left; any
    /// other entry is dropped.
    pub open spec fn after_batch(
        self,
        hooks: Seq<HookView<P::Hook>>,
        roots: Seq<RenderReturn<P::Nodes>>,
    ) -> Self
        decreases hooks.len(),
    {
        if hooks.len() == 0 {
            self
        } else {
            let so_far = self.after_batch(hooks.drop_last(), roots.drop_last());
            let entry = self.dirty[hooks.len() - 1];
            if self.renderable(entry) {
                so_far.rendered(entry.id, hooks.last(), roots.last())
            } else {
                DomView { dirty: so_far.dirty.drop_first(), ..so_far }
            }
        }
    }

    /// Every render of a batch says of its component what `render_claim`
    /// says.
    pub open spec fn batch_claims(
        self,
        hooks: Seq<HookView<P::Hook>>,
        roots: Seq<RenderReturn<P::Nodes>>,
    ) -> bool {
        &&& hooks.len() == roots.len()
        &&& hooks.len() <= self.dirty.len()
        &&& forall|i: int|
            0 <= i < hooks.len() && self.renderable(#[trigger] self.dirty[i]) ==> self.render_claim(
                self.dirty[i].id,
                hooks[i],
                roots[i],
            )
    }

    /// A batch that went through all its entries and left the runtime as
    /// `after`.
    pub open spec fn batch_done(
        self,
        hooks: Seq<HookView<P::Hook>>,
        roots: Seq<RenderReturn<P::Nodes>>,
        after: Self,
    ) -> bool {
        &&& self.batch_claims(hooks, roots)
        &&& hooks.len() == self.dirty.len()
        &&& after == self.after_batch(hooks, roots)
    }

    /// A batch that went through the entries before the one it stopped
    /// at, swept the scope of that entry and left the runtime as `after`.
    pub open spec fn batch_stopped(
        self,
        hooks: Seq<HookView<P::Hook>>,
        roots: Seq<RenderReturn<P::Nodes>>,
        after: Self,
    ) -> bool {
        let so_far = self.after_batch(hooks, roots);
        let id = self.dirty[hooks.len() as int].id;
        &&& self.batch_claims(hooks, roots)
        &&& hooks.len() < self.dirty.len()
        &&& self.renderable(self.dirty[hooks.len() as int])
        &&& after == (DomView {
            scopes: so_far.scopes.insert(id.0, so_far.scopes[id.0].swept()),
            ..so_far
        })
    }

    /// After a render of a live scope that went through: the scope was
    /// swept and cycled, the component left its hooks as `hooks`, and
    /// `root` was published.
    pub open spec fn rendered(
        self,
        id: ScopeId,
        hooks: HookView<P::Hook>,
        root: RenderReturn<P::Nodes>,
    ) -> Self {
        DomView {
            scopes: self.scopes.insert(
                id.0,
                ScopeView { hooks, ..self.scopes[id.0].swept().cycled() },
            ),
            ..self
        }.published(id, root, true)
    }

    /// After a scope was removed: it is gone, and so are the tasks it
    /// owned and the leaves that waited for it. Their identifiers are
    /// free again.
    pub open spec fn without_scope(self, id: ScopeId) -> Self {
        if self.scopes.dom().contains(id.0) {
            DomView {
                scopes: self.scopes.remove(id.0),
                leaves: self.leaves.remove_keys(self.leaves_of(id)),
                tasks: self.tasks.remove_keys(self.tasks_of(id)),
                keys: DomKeys {
                    scopes: self.keys.scopes.released(id.0),
                    leaves: spec_keys_after_drop(self.keys.leaves, self.leaves_of(id)),
                    tasks: spec_keys_after_drop(self.keys.tasks, self.tasks_of(id)),
                },
                ..self
            }
        } else {
            self
        }
    }

    /// After the scheduler acted on the wake of a leaf: the leaf is gone
    /// and its scope, if it is alive, is dirty. A leaf that is not in the
    /// table changes nothing.
    pub open spec fn woken(self, leaf: SuspenseId) -> Self {
        if self.leaves.dom().contains(leaf.0) {
            DomView {
                leaves: self.leaves.remove(leaf.0),
                keys: DomKeys { leaves: self.keys.leaves.released(leaf.0), ..self.keys },
                ..self
            }.marked(self.leaves[leaf.0].scope_id)
        } else {
            self
        }
    }

    /// The scope that a wake of `leaf` makes dirty, if there is one.
    pub open spec fn waiting_scope(self, leaf: SuspenseId) -> Option<ScopeId> {
        if self.leaves.dom().contains(leaf.0) && self.scopes.dom().contains(
            self.leaves[leaf.0].scope_id.0,
        ) {
            Some(self.leaves[leaf.0].scope_id)
        } else {
            None
        }
    }

    /// A scope can be rendered: it is alive and holds its properties.
    pub open spec fn can_run(self, id: ScopeId) -> bool {
        &&& self.scopes.dom().contains(id.0)
        &&& self.scopes[id.0].props is Some
    }

    /// A dirty entry is rendered: its scope can be rendered and is the
    /// scope that was marked, at the depth that the entry names.
    pub open spec fn renderable(self, entry: DirtyScope) -> bool {
        self.can_run(entry.id) && self.scopes[entry.id.0].height == entry.height
    }

    /// How far up a search for a shared value can still go from a scope.
    pub open spec fn climb(self, id: ScopeId) -> nat {
        if self.scopes.dom().contains(id.0) {
            (self.scopes[id.0].height + 1) as nat
        } else {
            0
        }
    }

    /// The parent of a live scope, where the search for a shared value
    /// goes on: it has to be alive and less deep than the scope.
    pub open spec fn lender(self, id: ScopeId) -> Option<ScopeId> {
        match self.scopes[id.0].parent {
            Some(parent) => if self.scopes.dom().contains(parent.0) && self.scopes[parent.0].height
                < self.scopes[id.0].height {
                Some(parent)
            } else {
                None
            },
            None => None,
        }
    }

    /// The value that a scope sees under `key`: its own, or that of the
    /// nearest ancestor that shares one.
    pub open spec fn context_of(self, id: ScopeId, key: usize) -> Option<P::Context>
        decreases self.climb(id),
    {
        if !self.scopes.dom().contains(id.0) {
            None
        } else {
            match spec_lookup(self.scopes[id.0].shared_contexts, key) {
                Some(value) => Some(value),
                None => match self.lender(id) {
                    Some(parent) => self.context_of(parent, key),
                    None => None,
                },
            }
        }
    }

    /// A batch that stopped at the dirty entry `n` and left the runtime as
    /// `after`: the entry could be rendered, but the arena of its scope
    /// got no memory. That scope is swept and still dirty, as are the
    /// entries behind it; the scopes rendered before it have moved on by
    /// one render; every other scope is as it was.
    pub open spec fn stopped_at(self, n: int, after: Self) -> bool {
        let entry = self.dirty[n];
        &&& 0 <= n < self.dirty.len()
        &&& self.renderable(entry)
        &&& after.dirty == self.dirty.skip(n)
        &&& after.scopes.dom() == self.scopes.dom()
        &&& after.scopes[entry.id.0] == self.scopes[entry.id.0].swept()
        &&& forall|k: usize|
            k != entry.id.0 && #[trigger] self.scopes.dom().contains(k) ==> (if self.rendered_of(
                n,
            ).contains(ScopeId(k)) {
                after.scopes[k].render_count == spec_next_count(self.scopes[k].render_count)
            } else {
                after.scopes[k] == self.scopes[k]
            })
    }

    /// The test that `renderable` makes of an entry.
    pub open spec fn renderable_test(self) -> spec_fn(DirtyScope) -> bool {
        |entry: DirtyScope| self.renderable(entry)
    }

    /// The scopes that one batch renders, in the order in which it
    /// renders them: the dirty scopes that can be rendered, ancestors
    /// first.
    pub open spec fn render_order(self) -> Seq<ScopeId> {
        self.rendered_of(self.dirty.len() as int)
    }

    /// The scopes that a batch has rendered once it is through the first
    /// `n` dirty entries.
    pub open spec fn rendered_of(self, n: int) -> Seq<ScopeId> {
        self.dirty.take(n).filter(self.renderable_test()).map_values(|entry: DirtyScope| entry.id)
    }
}

/// Going through one more dirty entry adds its scope to the rendered
/// ones if the entry can be rendered, and nothing else.
pub proof fn lemma_rendered_step<P: AnyProps>(dom: DomView<P>, n: int)
    requires
        0 <= n < dom.dirty.len(),
    ensures
        dom.rendered_of(n + 1) == (if dom.renderable(dom.dirty[n]) {
            dom.rendered_of(n).push(dom.dirty[n].id)
        } else {
            dom.rendered_of(n)
        }),
{
    reveal(Seq::filter);
    let upto = dom.dirty.take(n + 1);
    assert(upto.drop_last() =~= dom.dirty.take(n));
    assert(upto.last() == dom.dirty[n]);
    let kept = dom.dirty.take(n).filter(dom.renderable_test());
    if dom.renderable(dom.dirty[n]) {
        assert(upto.filter(dom.renderable_test()) == kept.push(dom.dirty[n]));
        assert(kept.push(dom.dirty[n]).map_values(|entry: DirtyScope| entry.id) =~= kept.map_values(
            |entry: DirtyScope| entry.id,
        ).push(dom.dirty[n].id));
    }
}

/// Every rendered scope comes from a dirty entry that can be rendered.
pub proof fn lemma_rendered_members<P: AnyProps>(dom: DomView<P>, n: int, id: ScopeId)
    requires
        0 <= n <= dom.dirty.len(),
        dom.rendered_of(n).contains(id),
    ensures
        exists|j: int| 0 <= j < n && (#[trigger] dom.dirty[j]).id == id && dom.renderable(dom.dirty[j]),
    decreases n,
{
    if n == 0 {
        reveal(Seq::filter);
        assert(dom.dirty.take(0).len() == 0);
        assert(dom.rendered_of(0).len() == 0);
    } else {
        lemma_rendered_step(dom, n - 1);
        if dom.renderable(dom.dirty[n - 1]) && dom.dirty[n - 1].id == id {
        } else {
            let earlier = dom.rendered_of(n - 1);
            let i = choose|i: int| 0 <= i < dom.rendered_of(n).len() && dom.rendered_of(n)[i] == id;
            assert(earlier[i] == id);
            lemma_rendered_members(dom, n - 1, id);
        }
    }
}

/// A batch renders its scopes by depth: no scope comes before one that
/// is shallower.
pub proof fn lemma_render_order_by_depth<P: AnyProps>(dom: DomView<P>, i: int, j: int)
    requires
        ordered(dom.dirty),
        0 <= i <= j < dom.render_order().len(),
    ensures
        dom.can_run(dom.render_order()[i]),
        dom.can_run(dom.render_order()[j]),
        dom.scopes[dom.render_order()[i].0].height <= dom.scopes[dom.render_order()[j].0].height,
{
    let whole = dom.dirty.len() as int;
    assert(dom.dirty.take(whole) =~= dom.dirty);
    let kept = dom.dirty.filter(dom.renderable_test());
    lemma_kept_ordered(dom.dirty, dom.renderable_test());
    assert(dom.renderable(kept[i]));
    assert(dom.renderable(kept[j]));
    if i < j {
        assert(dirty_before(kept[i], kept[j]));
    }
}

/// A batch renders every dirty scope that can be rendered, each of them
/// once, and no other scope.
pub proof fn lemma_render_order_complete<P: AnyProps>(dom: DomView<P>)
    requires
        ordered(dom.dirty),
    ensures
        dom.render_order().no_duplicates(),
        forall|id: ScopeId|
            #[trigger] dom.render_order().contains(id) <==> dom.can_run(id) && dom.dirty.contains(
                dom.dirty_entry(id),
            ),
{
    let whole = dom.dirty.len() as int;
    assert(dom.dirty.take(whole) =~= dom.dirty);
    let kept = dom.dirty.filter(dom.renderable_test());
    let order = dom.render_order();
    lemma_kept_ordered(dom.dirty, dom.renderable_test());
    assert forall|i: int, j: int| 0 <= i < order.len() && 0 <= j < order.len() && i != j implies order[i]
        != order[j] by {
        assert(dom.renderable(kept[i]) && dom.renderable(kept[j]));
        if i < j {
            assert(dirty_before(kept[i], kept[j]));
        } else {
            assert(dirty_before(kept[j], kept[i]));
        }
    }
    assert forall|id: ScopeId| #[trigger]
        order.contains(id) <==> dom.can_run(id) && dom.dirty.contains(dom.dirty_entry(id)) by {
        if order.contains(id) {
            let i = choose|i: int| 0 <= i < order.len() && order[i] == id;
            assert(dom.renderable(kept[i]));
            assert(kept[i] == dom.dirty_entry(id));
        }
        if dom.can_run(id) && dom.dirty.contains(dom.dirty_entry(id)) {
            let entry = dom.dirty_entry(id);
            let at = choose|at: int| 0 <= at < dom.dirty.len() && dom.dirty[at] == entry;
            assert(dom.renderable(dom.dirty[at]));
            dom.dirty.lemma_filter_contains(dom.renderable_test(), at);
            let i = choose|i: int| 0 <= i < kept.len() && kept[i] == entry;
            assert(order[i] == id);
        }
    }
}

/// A batch with nothing to render needs no arena: where a dirty entry can
/// be rendered, the batch renders a scope.
pub proof fn lemma_renderable_is_rendered<P: AnyProps>(dom: DomView<P>, n: int)
    requires
        ordered(dom.dirty),
        0 <= n < dom.dirty.len(),
        dom.renderable(dom.dirty[n]),
    ensures
        dom.render_order().contains(dom.dirty[n].id),
        dom.render_order().len() > 0,
{
    lemma_render_order_complete(dom);
    assert(dom.dirty[n] == dom.dirty_entry(dom.dirty[n].id));
    assert(dom.dirty.contains(dom.dirty[n]));
}

/// What a render that went through does. The cycle wipes the frame that
/// was not current and puts the hook cursor on the first slot; afterwards
/// that frame holds the new root and is the current one, and the root of
/// the render before is the previous one. The scope leaves the dirty set
/// and no other entry does. A root that is not pending leaves the leaves
/// and the collected list alone; a pending one adds one leaf for the
/// scope, under the identifier that was free. No other scope changes.
pub proof fn lemma_render_step<P: AnyProps>(
    dom: DomView<P>,
    id: ScopeId,
    hooks: HookView<P::Hook>,
    root: RenderReturn<P::Nodes>,
)
    requires
        dom.scopes.dom().contains(id.0),
        ordered(dom.dirty),
    ensures
        ({
            let before = dom.scopes[id.0];
            let target = before.swept().cycled();
            let after = dom.rendered(id, hooks, root);
            let leaf = dom.next_leaf();
            &&& target.previous_root() is None
            &&& target.current_root() == before.current_root()
            &&& target.hooks.cursor == 0
            &&& target.hooks.slots == before.hooks.slots
            &&& after.scopes[id.0].current_root() == Some(root)
            &&& after.scopes[id.0].previous_root() == before.current_root()
            &&& after.scopes[id.0].render_count == spec_next_count(before.render_count)
            &&& after.scopes[id.0].hooks == hooks
            &&& after.scopes.dom() == dom.scopes.dom()
            &&& forall|k: usize|
                k != id.0 && #[trigger] dom.scopes.dom().contains(k) ==> after.scopes[k]
                    == dom.scopes[k]
            &&& ordered(after.dirty)
            &&& forall|entry: DirtyScope| #[trigger]
                after.dirty.contains(entry) <==> dom.dirty.contains(entry) && entry
                    != dom.dirty_entry(id)
            &&& after.tasks == dom.tasks
            &&& after.stack == dom.stack
            &&& !(root is Pending) ==> after.leaves == dom.leaves && after.collected
                == dom.collected && after.keys == dom.keys
            &&& root is Pending ==> after.leaves == dom.leaves.insert(
                leaf.0,
                LeafView { scope_id: id, id: leaf },
            ) && after.collected == dom.collected.push(leaf) && after.leaves_of(id).contains(leaf.0)
        }),
{
    lemma_unmark(dom.dirty, dom.dirty_entry(id));
    lemma_counts_take_turns(dom.scopes[id.0].render_count);
    let after = dom.rendered(id, hooks, root);
    assert(after.scopes.dom() =~= dom.scopes.dom());
}

/// A scope that was removed stays out: a wake that comes later for one of
/// its leaves changes nothing, and a render of another scope brings back
/// neither the scope nor a leaf or a task of it.
pub proof fn lemma_removed_scope_stays_out<P: AnyProps>(
    dom: DomView<P>,
    gone: ScopeId,
    leaf: SuspenseId,
    other: ScopeId,
    hooks: HookView<P::Hook>,
    root: RenderReturn<P::Nodes>,
)
    requires
        dom.scopes.dom().contains(gone.0),
        dom.scopes.dom().contains(other.0),
        other != gone,
        dom.leaves.dom().contains(leaf.0) ==> dom.leaves[leaf.0].scope_id == gone,
    ensures
        ({
            let removed = dom.without_scope(gone);
            let after = removed.woken(leaf).rendered(other, hooks, root);
            &&& removed.woken(leaf) == removed
            &&& !after.scopes.dom().contains(gone.0)
            &&& after.scopes.dom().contains(other.0)
            &&& after.leaves_of(gone) == Set::<usize>::empty()
            &&& after.tasks_of(gone) == Set::<usize>::empty()
        }),
{
    let removed = dom.without_scope(gone);
    let after = removed.woken(leaf).rendered(other, hooks, root);
    assert(after.leaves_of(gone) =~= Set::<usize>::empty());
    assert(after.tasks_of(gone) =~= Set::<usize>::empty());
}

/// A scope that is allocated after a removal under the identifier of the
/// removed scope shares nothing with it: it is fresh, no task is owned by
/// it and no leaf waits for it, and the other scopes are as they were.
pub proof fn lemma_reused_identifier_is_fresh<P: AnyProps>(
    dom: DomView<P>,
    gone: ScopeId,
    name: &'static str,
    props: P,
)
    requires
        dom.scopes.dom().contains(gone.0),
    ensures
        ({
            let removed = dom.without_scope(gone);
            let after = removed.allocated(name, props);
            &&& removed.next_scope() == gone
            &&& after.scopes.dom().contains(gone.0)
            &&& after.scopes[gone.0] == ScopeView::fresh(
                gone,
                removed.current_scope(),
                removed.child_height() as u32,
                name,
                props,
            )
            &&& after.scopes[gone.0].render_count == 0
            &&& after.scopes[gone.0].hooks.slots.len() == 0
            &&& after.scopes[gone.0].current_root() is None
            &&& after.scopes[gone.0].previous_root() is None
            &&& after.tasks_of(gone) == Set::<usize>::empty()
            &&& after.leaves_of(gone) == Set::<usize>::empty()
            &&& forall|k: usize|
                k != gone.0 && #[trigger] dom.scopes.dom().contains(k) ==> after.scopes[k]
                    == dom.scopes[k]
        }),
{
    let removed = dom.without_scope(gone);
    let after = removed.allocated(name, props);
    assert(removed.keys.scopes.free[0] == gone.0);
    assert(after.tasks_of(gone) =~= Set::<usize>::empty());
    assert(after.leaves_of(gone) =~= Set::<usize>::empty());
}

/// The identifier of a removed scope is the next to be handed out, and
/// it comes back clean: no task and no leaf names it.
pub proof fn lemma_removed_identifier_comes_back_clean<P: AnyProps>(dom: DomView<P>, gone: ScopeId)
    requires
        dom.scopes.dom().contains(gone.0),
    ensures
        dom.without_scope(gone).next_scope() == gone,
        dom.without_scope(gone).tasks_of(gone) == Set::<usize>::empty(),
        dom.without_scope(gone).leaves_of(gone) == Set::<usize>::empty(),
{
    let after = dom.without_scope(gone);
    assert(after.keys.scopes.free[0] == gone.0);
    assert(after.tasks_of(gone) =~= Set::<usize>::empty());
    assert(after.leaves_of(gone) =~= Set::<usize>::empty());
}

/// The wake of a leaf takes the leaf away and makes its scope dirty; a
/// render of that scope that does not end pending then publishes its
/// root, takes the scope off the dirty set and registers no leaf.
pub proof fn lemma_wake_then_render<P: AnyProps>(
    dom: DomView<P>,
    leaf: SuspenseId,
    hooks: HookView<P::Hook>,
    root: RenderReturn<P::Nodes>,
)
    requires
        ordered(dom.dirty),
        dom.leaves.dom().contains(leaf.0),
        dom.scopes.dom().contains(dom.leaves[leaf.0].scope_id.0),
        !(root is Pending),
    ensures
        ({
            let scope = dom.leaves[leaf.0].scope_id;
            let woke = dom.woken(leaf);
            let after = woke.rendered(scope, hooks, root);
            &&& woke.dirty.contains(dom.dirty_entry(scope))
            &&& woke.leaves == dom.leaves.remove(leaf.0)
            &&& after.leaves == dom.leaves.remove(leaf.0)
            &&& after.collected == dom.collected
            &&& after.scopes[scope.0].current_root() == Some(root)
            &&& !after.dirty.contains(dom.dirty_entry(scope))
        }),
{
    let scope = dom.leaves[leaf.0].scope_id;
    let woke = dom.woken(leaf);
    lemma_marked_is_dirty(dom.dirty, dom.dirty_entry(scope));
    lemma_mark_keeps_order(dom.dirty, dom.dirty_entry(scope));
    lemma_counts_take_turns(dom.scopes[scope.0].render_count);
    lemma_unmark(woke.dirty, woke.dirty_entry(scope));
}

/// Once a scope is removed it owns no task and no leaf waits for it; a
/// wake that comes later for one of its leaves changes nothing.
pub proof fn lemma_removed_scope_is_silent<P: AnyProps>(
    dom: DomView<P>,
    scope: ScopeId,
    leaf: SuspenseId,
)
    requires
        dom.scopes.dom().contains(scope.0),
        dom.leaves.dom().contains(leaf.0) ==> dom.leaves[leaf.0].scope_id == scope,
    ensures
        ({
            let after = dom.without_scope(scope);
            &&& !after.scopes.dom().contains(scope.0)
            &&& forall|k: usize| #[trigger] after.tasks.dom().contains(k) ==> after.tasks[k] != scope
            &&& forall|k: usize| #[trigger]
                after.leaves.dom().contains(k) ==> after.leaves[k].scope_id != scope
            &&& after.woken(leaf) == after
            &&& after.waiting_scope(leaf) is None
        }),
{
}

/// Removing a scope leaves every other scope under its identifier, with
/// its tasks and its leaves.
pub proof fn lemma_removal_spares_the_rest<P: AnyProps>(dom: DomView<P>, scope: ScopeId)
    ensures
        ({
            let after = dom.without_scope(scope);
            &&& forall|k: usize|
                k != scope.0 && #[trigger] dom.scopes.dom().contains(k)
                    ==> after.scopes.dom().contains(k) && after.scopes[k] == dom.scopes[k]
            &&& forall|k: usize|
                #[trigger] dom.tasks.dom().contains(k) && dom.tasks[k] != scope
                    ==> after.tasks.dom().contains(k) && after.tasks[k] == dom.tasks[k]
            &&& forall|k: usize|
                #[trigger] dom.leaves.dom().contains(k) && dom.leaves[k].scope_id != scope
                    ==> after.leaves.dom().contains(k) && after.leaves[k] == dom.leaves[k]
        }),
{
}

} // verus!
