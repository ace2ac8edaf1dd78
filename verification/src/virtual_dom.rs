//! The registry of scopes and the render step.
use crate::any_props::AnyProps;
use crate::bump_frame::arena_holds;
use crate::bump_frame::ArenaError;
use crate::dirty::dirty_before;
use crate::dirty::lemma_first_filtered_out;
use crate::dirty::ordered;
use crate::dirty::DirtyScope;
use crate::dirty::DirtySet;
use crate::dom_view::lemma_renderable_is_rendered;
use crate::dom_view::lemma_rendered_members;
use crate::dom_view::lemma_rendered_step;
use crate::dom_view::DomKeys;
use crate::dom_view::DomView;
use crate::hooks::HookView;
use crate::nodes::RenderReturn;
use crate::scheduler::clone_sender;
use crate::scheduler::drop_owned;
use crate::scheduler::spec_owned;
use crate::scheduler::LeafView;
use crate::scheduler::LocalTask;
use crate::scheduler::SchedulerMsg;
use crate::scheduler::SuspenseId;
use crate::scheduler::SuspenseLeaf;
use crate::scheduler::TaskId;
use crate::scopes::spec_next_count;
use crate::scopes::spec_provide;
use crate::scopes::ScopeId;
use crate::scopes::ScopeState;
use crate::scopes::ScopeView;
use crate::slot_table::KeysView;
use crate::slot_table::SlotTable;
use crate::suspense::resolve_suspended;
use std::sync::mpsc::Sender;
use std::sync::Arc;
use vstd::prelude::*;

verus! {

/// The runtime: it owns every scope, knows which of them are dirty and
/// which renders wait for the scheduler.
#[verifier::reject_recursive_types(P)]
pub struct VirtualDom<P: AnyProps> {
    scopes: SlotTable<ScopeState<P>>,
    dirty_scopes: DirtySet,
    scope_stack: Vec<ScopeId>,
    sender: Sender<SchedulerMsg>,
    leaves: SlotTable<Arc<SuspenseLeaf>>,
    tasks: SlotTable<LocalTask>,
    collected_leaves: Vec<SuspenseId>,
    poll_budget: usize,
}

impl<P: AnyProps> View for VirtualDom<P> {
    type V = DomView<P>;

    closed spec fn view(&self) -> DomView<P> {
        DomView {
            scopes: self.scopes@.map_values(|scope: ScopeState<P>| scope@),
            dirty: self.dirty_scopes@,
            stack: self.scope_stack@,
            leaves: self.leaves@.map_values(|leaf: Arc<SuspenseLeaf>| leaf@),
            tasks: self.tasks@.map_values(|task: LocalTask| task.scope),
            collected: self.collected_leaves@,
            poll_budget: self.poll_budget,
            keys: DomKeys {
                scopes: self.scopes.spec_keys(),
                leaves: self.leaves.spec_keys(),
                tasks: self.tasks.spec_keys(),
            },
        }
    }
}

impl<P: AnyProps> VirtualDom<P> {
    /// Every scope sits under its own identifier, every leaf under its
    /// own, every task is owned by a live scope and every leaf waits for
    /// one, and the tables and the dirty set are in order.
    pub closed spec fn wf(&self) -> bool {
        &&& self.scopes.wf()
        &&& self.leaves.wf()
        &&& self.tasks.wf()
        &&& self.dirty_scopes.wf()
        &&& forall|k: usize| #[trigger]
            self.scopes@.dom().contains(k) ==> self.scopes@[k]@.id == ScopeId(k)
                && self.scopes@[k]@.wf()
        &&& forall|k: usize| #[trigger]
            self.leaves@.dom().contains(k) ==> self.leaves@[k]@.id == SuspenseId(k)
                && self.scopes@.dom().contains(self.leaves@[k]@.scope_id.0)
        &&& forall|k: usize| #[trigger]
            self.tasks@.dom().contains(k) ==> self.scopes@.dom().contains(self.tasks@[k].scope.0)
    }

    /// What `wf` says of the view: identifiers and keys agree, tasks and
    /// leaves belong to live scopes, and the identifiers that come next
    /// are free.
    pub proof fn lemma_wf_view(&self)
        requires
            self.wf(),
        ensures
            ordered(self@.dirty),
            self@.owners_alive(),
            forall|k: usize| #[trigger]
                self@.scopes.dom().contains(k) ==> self@.scopes[k].id == ScopeId(k)
                    && self@.scopes[k].wf(),
            forall|k: usize| #[trigger]
                self@.leaves.dom().contains(k) ==> self@.leaves[k].id == SuspenseId(k),
            !self@.scopes.dom().contains(self@.next_scope().0),
            !self@.leaves.dom().contains(self@.next_leaf().0),
            !self@.tasks.dom().contains(self@.next_task().0),
    {
        self.scopes.lemma_vacant_key_free();
        self.leaves.lemma_vacant_key_free();
        self.tasks.lemma_vacant_key_free();
    }

    /// A runtime without scopes. `sender` is the channel on which the
    /// scheduler hears of wakes; a suspended computation is polled as long
    /// as it wakes itself.
    pub fn new(sender: Sender<SchedulerMsg>) -> (dom: Self)
        ensures
            dom.wf(),
            dom@ == (DomView::<P> {
                scopes: Map::empty(),
                dirty: Seq::empty(),
                stack: Seq::empty(),
                leaves: Map::empty(),
                tasks: Map::empty(),
                collected: Seq::empty(),
                poll_budget: usize::MAX,
                keys: DomKeys {
                    scopes: KeysView::fresh(),
                    leaves: KeysView::fresh(),
                    tasks: KeysView::fresh(),
                },
            }),
    {
        let dom = VirtualDom {
            scopes: SlotTable::new(),
            dirty_scopes: DirtySet::new(),
            scope_stack: Vec::new(),
            sender,
            leaves: SlotTable::new(),
            tasks: SlotTable::new(),
            collected_leaves: Vec::new(),
            poll_budget: usize::MAX,
        };
        proof {
            assert(dom@.scopes =~= Map::empty());
            assert(dom@.leaves =~= Map::empty());
            assert(dom@.tasks =~= Map::empty());
            assert(dom@.dirty =~= Seq::empty());
        }
        dom
    }

    /// Sets how often one render step may poll a suspended computation
    /// that keeps waking itself. It is polled once in any case.
    pub fn set_poll_budget(&mut self, budget: usize)
        requires
            old(self).wf(),
        ensures
            final(self).wf(),
            final(self)@ == (DomView { poll_budget: budget, ..old(self)@ }),
    {
        self.poll_budget = budget;
    }

    /// Enters a scope: it is the current one until it is left.
    pub fn push_scope(&mut self, id: ScopeId)
        requires
            old(self).wf(),
        ensures
            final(self).wf(),
            final(self)@ == (DomView { stack: old(self)@.stack.push(id), ..old(self)@ }),
    {
        self.scope_stack.push(id);
    }

    /// Leaves the scope entered last.
    pub fn pop_scope(&mut self) -> (left: Option<ScopeId>)
        requires
            old(self).wf(),
        ensures
            final(self).wf(),
            left == (if old(self)@.stack.len() > 0 {
                Some(old(self)@.stack.last())
            } else {
                None
            }),
            final(self)@ == (DomView {
                stack: if old(self)@.stack.len() > 0 {
                    old(self)@.stack.drop_last()
                } else {
                    old(self)@.stack
                },
                ..old(self)@
            }),
    {
        let left = self.scope_stack.pop();
        assert(self@.stack =~= if old(self)@.stack.len() > 0 {
            old(self)@.stack.drop_last()
        } else {
            old(self)@.stack
        });
        left
    }

    /// The scope that is being rendered: the top of the stack, if that
    /// scope is still in the registry.
    pub fn acquire_current_scope_raw(&self) -> (current: Option<ScopeId>)
        ensures
            current == self@.current_scope(),
    {
        let depth = self.scope_stack.len();
        if depth == 0 {
            return None;
        }
        let top = self.scope_stack[depth - 1];
        if self.scopes.contains(top.0) {
            Some(top)
        } else {
            None
        }
    }

    pub fn get_scope(&self, id: ScopeId) -> (found: Option<&ScopeState<P>>)
        ensures
            found is Some == self@.scopes.dom().contains(id.0),
            found matches Some(scope) ==> scope@ == self@.scopes[id.0],
    {
        self.scopes.get(id.0)
    }

    /// Whether a scope can be allocated below the current one: its depth
    /// has to fit the counter.
    pub fn can_nest(&self) -> (ok: bool)
        ensures
            ok == (self@.child_height() <= u32::MAX),
    {
        match self.acquire_current_scope_raw() {
            Some(parent) => self.scopes.get(parent.0).unwrap().height() < u32::MAX,
            None => true,
        }
    }

    /// Allocates the scope of a new component instance as a child of the
    /// current scope, or as a root where no scope is current. It gets an
    /// identifier that no live scope has.
    pub fn new_scope(&mut self, props: P, name: &'static str) -> (scope: &ScopeState<P>)
        requires
            old(self).wf(),
            old(self)@.child_height() <= u32::MAX,
        ensures
            final(self).wf(),
            !old(self)@.scopes.dom().contains(scope@.id.0),
            scope@.id == old(self)@.next_scope(),
            scope@ == ScopeView::fresh(
                scope@.id,
                old(self)@.current_scope(),
                old(self)@.child_height() as u32,
                name,
                props,
            ),
            final(self)@ == old(self)@.allocated(name, props),
            final(self)@.tasks_of(scope@.id) == Set::<usize>::empty(),
            final(self)@.leaves_of(scope@.id) == Set::<usize>::empty(),
            arena_holds(scope.spec_write_arena()).len() == 0,
            arena_holds(scope.spec_current_arena()).len() == 0,
    {
        proof {
            self.lemma_wf_view();
        }
        let parent = self.acquire_current_scope_raw();
        let height: u32 = match parent {
            Some(parent) => self.scopes.get(parent.0).unwrap().height() + 1,
            None => 0,
        };
        let id = ScopeId(self.scopes.vacant_key());
        let key = self.scopes.insert(ScopeState::new(id, parent, height, name, props));
        proof {
            assert(self@.scopes =~= old(self)@.scopes.insert(key, self.scopes@[key]@));
            assert(self@.tasks_of(id) =~= Set::<usize>::empty());
            assert(self@.leaves_of(id) =~= Set::<usize>::empty());
        }
        self.scopes.get(key).unwrap()
    }

    pub fn contains_scope(&self, id: ScopeId) -> (alive: bool)
        ensures
            alive == self@.scopes.dom().contains(id.0),
    {
        self.scopes.contains(id.0)
    }

    /// The dirty scopes, in the order in which they are rendered.
    pub fn dirty_scopes(&self) -> (dirty: &DirtySet)
        ensures
            dirty@ == self@.dirty,
    {
        &self.dirty_scopes
    }

    /// Marks a live scope dirty. Says whether the scope is alive.
    pub fn mark_dirty(&mut self, id: ScopeId) -> (alive: bool)
        requires
            old(self).wf(),
        ensures
            final(self).wf(),
            alive == old(self)@.scopes.dom().contains(id.0),
            final(self)@ == old(self)@.marked(id),
    {
        match self.scopes.get(id.0) {
            Some(scope) => {
                let entry = DirtyScope { height: scope.height(), id };
                self.dirty_scopes.insert(entry);
                true
            },
            None => false,
        }
    }

    /// The scope that a leaf waits for, if the leaf is in the table.
    pub fn leaf_scope(&self, leaf: SuspenseId) -> (scope: Option<ScopeId>)
        ensures
            scope == (if self@.leaves.dom().contains(leaf.0) {
                Some(self@.leaves[leaf.0].scope_id)
            } else {
                None
            }),
    {
        match self.leaves.get(leaf.0) {
            Some(found) => Some(found.scope_id()),
            None => None,
        }
    }

    /// How many renders wait for the scheduler.
    pub fn leaf_count(&self) -> (count: usize)
        requires
            self.wf(),
        ensures
            count == self@.leaves.dom().len(),
    {
        proof {
            assert(self@.leaves.dom() =~= self.leaves@.dom());
        }
        self.leaves.len()
    }

    /// Hands out the leaves that were registered since the last call.
    pub fn take_collected_leaves(&mut self) -> (leaves: Vec<SuspenseId>)
        requires
            old(self).wf(),
        ensures
            final(self).wf(),
            leaves@ == old(self)@.collected,
            final(self)@ == (DomView { collected: Seq::empty(), ..old(self)@ }),
    {
        let mut leaves = Vec::new();
        core::mem::swap(&mut self.collected_leaves, &mut leaves);
        leaves
    }

    /// Another sending end of the channel to the scheduler.
    pub fn sender(&self) -> Sender<SchedulerMsg> {
        clone_sender(&self.sender)
    }

    /// Registers a task that `scope` spawned. A scope that is not alive
    /// owns no task.
    pub fn spawn_task(&mut self, scope: ScopeId) -> (task: Option<TaskId>)
        requires
            old(self).wf(),
        ensures
            final(self).wf(),
            task is Some == old(self)@.scopes.dom().contains(scope.0),
            task matches Some(id) ==> id == old(self)@.next_task()
                && !old(self)@.tasks.dom().contains(id.0)
                && final(self)@ == (DomView {
                tasks: old(self)@.tasks.insert(id.0, scope),
                keys: DomKeys { tasks: old(self)@.keys.tasks.taken(), ..old(self)@.keys },
                ..old(self)@
            }),
            task is None ==> final(self)@ == old(self)@,
    {
        if self.scopes.contains(scope.0) {
            let key = self.tasks.insert(LocalTask { scope });
            proof {
                assert(self@.tasks =~= old(self)@.tasks.insert(key, scope));
            }
            Some(TaskId(key))
        } else {
            None
        }
    }

    /// The scope that owns a task, if the task is alive.
    pub fn task_owner(&self, task: TaskId) -> (owner: Option<ScopeId>)
        ensures
            owner == (if self@.tasks.dom().contains(task.0) {
                Some(self@.tasks[task.0])
            } else {
                None
            }),
    {
        match self.tasks.get(task.0) {
            Some(found) => Some(found.scope),
            None => None,
        }
    }

    /// Takes a task that has ended out of the table. Says whether it was
    /// alive.
    pub fn remove_task(&mut self, task: TaskId) -> (alive: bool)
        requires
            old(self).wf(),
        ensures
            final(self).wf(),
            alive == old(self)@.tasks.dom().contains(task.0),
            final(self)@ == (DomView {
                tasks: old(self)@.tasks.remove(task.0),
                keys: if alive {
                    DomKeys { tasks: old(self)@.keys.tasks.released(task.0), ..old(self)@.keys }
                } else {
                    old(self)@.keys
                },
                ..old(self)@
            }),
    {
        let removed = self.tasks.remove(task.0);
        proof {
            assert(self@.tasks =~= old(self)@.tasks.remove(task.0));
        }
        removed.is_some()
    }

    /// Records a listener in the output of a scope. Says whether the
    /// scope is alive.
    pub fn add_listener(&mut self, id: ScopeId, listener: usize) -> (alive: bool)
        requires
            old(self).wf(),
        ensures
            final(self).wf(),
            alive == old(self)@.scopes.dom().contains(id.0),
            alive ==> final(self)@ == (DomView {
                scopes: old(self)@.scopes.insert(
                    id.0,
                    ScopeView {
                        listeners: old(self)@.scopes[id.0].listeners.push(listener),
                        ..old(self)@.scopes[id.0]
                    },
                ),
                ..old(self)@
            }),
            !alive ==> final(self)@ == old(self)@,
    {
        match self.scopes.get_mut(id.0) {
            Some(scope) => {
                scope.add_listener(listener);
                proof {
                    assert(self@.scopes =~= old(self)@.scopes.insert(id.0, self.scopes@[id.0]@));
                }
                true
            },
            None => {
                proof {
                    assert(self@.scopes =~= old(self)@.scopes);
                }
                false
            },
        }
    }

    /// Records that `child` holds properties borrowed from a scope. Says
    /// whether the scope is alive.
    pub fn lend_props(&mut self, id: ScopeId, child: ScopeId) -> (alive: bool)
        requires
            old(self).wf(),
        ensures
            final(self).wf(),
            alive == old(self)@.scopes.dom().contains(id.0),
            alive ==> final(self)@ == (DomView {
                scopes: old(self)@.scopes.insert(
                    id.0,
                    ScopeView {
                        borrowed_props: old(self)@.scopes[id.0].borrowed_props.push(child),
                        ..old(self)@.scopes[id.0]
                    },
                ),
                ..old(self)@
            }),
            !alive ==> final(self)@ == old(self)@,
    {
        match self.scopes.get_mut(id.0) {
            Some(scope) => {
                scope.lend_props(child);
                proof {
                    assert(self@.scopes =~= old(self)@.scopes.insert(id.0, self.scopes@[id.0]@));
                }
                true
            },
            None => {
                proof {
                    assert(self@.scopes =~= old(self)@.scopes);
                }
                false
            },
        }
    }

    /// Shares `value` under `key` with the descendants of a scope. Says
    /// whether the scope is alive.
    pub fn provide_context(&mut self, id: ScopeId, key: usize, value: P::Context) -> (alive: bool)
        requires
            old(self).wf(),
        ensures
            final(self).wf(),
            alive == old(self)@.scopes.dom().contains(id.0),
            alive ==> final(self)@ == (DomView {
                scopes: old(self)@.scopes.insert(
                    id.0,
                    ScopeView {
                        shared_contexts: spec_provide(
                            old(self)@.scopes[id.0].shared_contexts,
                            key,
                            value,
                        ),
                        ..old(self)@.scopes[id.0]
                    },
                ),
                ..old(self)@
            }),
            !alive ==> final(self)@ == old(self)@,
    {
        match self.scopes.get_mut(id.0) {
            Some(scope) => {
                scope.provide_context(key, value);
                proof {
                    assert(self@.scopes =~= old(self)@.scopes.insert(id.0, self.scopes@[id.0]@));
                }
                true
            },
            None => {
                proof {
                    assert(self@.scopes =~= old(self)@.scopes);
                }
                false
            },
        }
    }

    /// The value that a scope sees under `key`: what it shares itself, or
    /// what the nearest of its ancestors shares.
    pub fn consume_context(&self, id: ScopeId, key: usize) -> (found: Option<&P::Context>)
        ensures
            found == (match self@.context_of(id, key) {
                Some(value) => Some(&value),
                None => None,
            }),
    {
        let mut at = id;
        loop
            invariant
                self@.context_of(at, key) == self@.context_of(id, key),
            decreases self@.climb(at),
        {
            let scope = match self.scopes.get(at.0) {
                Some(scope) => scope,
                None => {
                    return None;
                },
            };
            match scope.context(key) {
                Some(value) => {
                    return Some(value);
                },
                None => {},
            }
            let parent = match scope.parent() {
                Some(parent) => parent,
                None => {
                    return None;
                },
            };
            match self.scopes.get(parent.0) {
                Some(above) => {
                    if above.height() < scope.height() {
                        at = parent;
                    } else {
                        return None;
                    }
                },
                None => {
                    return None;
                },
            }
        }
    }

    /// Tears a scope down: takes its properties and leaves it in the
    /// registry. A scope without properties cannot be rendered.
    pub fn teardown_scope(&mut self, id: ScopeId) -> (props: Option<P>)
        requires
            old(self).wf(),
        ensures
            final(self).wf(),
            props == (if old(self)@.scopes.dom().contains(id.0) {
                old(self)@.scopes[id.0].props
            } else {
                None
            }),
            old(self)@.scopes.dom().contains(id.0) ==> final(self)@ == (DomView {
                scopes: old(self)@.scopes.insert(
                    id.0,
                    ScopeView { props: None, ..old(self)@.scopes[id.0] },
                ),
                ..old(self)@
            }),
            !old(self)@.scopes.dom().contains(id.0) ==> final(self)@ == old(self)@,
    {
        match self.scopes.get_mut(id.0) {
            Some(scope) => {
                let props = scope.teardown();
                proof {
                    assert(self@.scopes =~= old(self)@.scopes.insert(id.0, self.scopes@[id.0]@));
                }
                props
            },
            None => {
                proof {
                    assert(self@.scopes =~= old(self)@.scopes);
                }
                None
            },
        }
    }

    /// Removes a scope from the registry, cancels the tasks it owns and
    /// drops the leaves that wait for it. Every other scope keeps its
    /// identifier.
    pub fn remove_scope(&mut self, id: ScopeId) -> (removed: Option<ScopeState<P>>)
        requires
            old(self).wf(),
        ensures
            final(self).wf(),
            final(self)@ == old(self)@.without_scope(id),
            removed is Some == old(self)@.scopes.dom().contains(id.0),
            removed matches Some(scope) ==> scope@ == old(self)@.scopes[id.0],
    {
        let removed = self.scopes.remove(id.0);
        if removed.is_some() {
            drop_owned(&mut self.tasks, id);
            drop_owned(&mut self.leaves, id);
            proof {
                assert(self@.scopes =~= old(self)@.scopes.remove(id.0));
                assert(spec_owned(old(self).tasks@, id) =~= old(self)@.tasks_of(id));
                assert(spec_owned(old(self).leaves@, id) =~= old(self)@.leaves_of(id));
                assert(self@.tasks =~= old(self)@.tasks.remove_keys(old(self)@.tasks_of(id)));
                assert(self@.leaves =~= old(self)@.leaves.remove_keys(old(self)@.leaves_of(id)));
            }
        } else {
            proof {
                assert(self@.scopes =~= old(self)@.scopes);
            }
        }
        removed
    }

    /// The scheduler's answer to the wake of a leaf: the leaf leaves the
    /// table and its scope is marked dirty, so that the next render step
    /// renders it afresh. Gives the scope that became dirty. A leaf that
    /// is not in the table, as after its scope was removed, changes
    /// nothing.
    pub fn handle_suspense_wakeup(&mut self, leaf: SuspenseId) -> (scope: Option<ScopeId>)
        requires
            old(self).wf(),
        ensures
            final(self).wf(),
            final(self)@ == old(self)@.woken(leaf),
            scope == old(self)@.waiting_scope(leaf),
    {
        match self.leaves.remove(leaf.0) {
            Some(found) => {
                let waiting = found.scope_id();
                proof {
                    assert(self@.leaves =~= old(self)@.leaves.remove(leaf.0));
                }
                if self.mark_dirty(waiting) {
                    Some(waiting)
                } else {
                    None
                }
            },
            None => {
                proof {
                    assert(self@.leaves =~= old(self)@.leaves);
                }
                None
            },
        }
    }

    /// Acts on a message of the scheduler's channel: marks the scope
    /// dirty that the message names or that the woken leaf waits for.
    /// Gives the scope that became dirty.
    pub fn handle_message(&mut self, msg: SchedulerMsg) -> (scope: Option<ScopeId>)
        requires
            old(self).wf(),
        ensures
            final(self).wf(),
            final(self)@ == (match msg {
                SchedulerMsg::Immediate(id) => old(self)@.marked(id),
                SchedulerMsg::SuspenseNotified(leaf) => old(self)@.woken(leaf),
            }),
            scope == (match msg {
                SchedulerMsg::Immediate(id) => if old(self)@.scopes.dom().contains(id.0) {
                    Some(id)
                } else {
                    None
                },
                SchedulerMsg::SuspenseNotified(leaf) => old(self)@.waiting_scope(leaf),
            }),
    {
        match msg {
            SchedulerMsg::Immediate(id) => {
                if self.mark_dirty(id) {
                    Some(id)
                } else {
                    None
                }
            },
            SchedulerMsg::SuspenseNotified(leaf) => self.handle_suspense_wakeup(leaf),
        }
    }

    /// Whether `run_scope` can be called on a scope.
    pub fn can_run(&self, id: ScopeId) -> (ok: bool)
        ensures
            ok == self@.can_run(id),
    {
        match self.scopes.get(id.0) {
            Some(scope) => scope.has_props(),
            None => false,
        }
    }

    fn renderable(&self, entry: &DirtyScope) -> (ok: bool)
        ensures
            ok == self@.renderable(*entry),
    {
        match self.scopes.get(entry.id.0) {
            Some(scope) => scope.has_props() && scope.height() == entry.height,
            None => false,
        }
    }

    /// The identifier that the next leaf gets.
    pub fn next_leaf(&self) -> (id: SuspenseId)
        requires
            self.wf(),
        ensures
            id == self@.next_leaf(),
            !self@.leaves.dom().contains(id.0),
    {
        proof {
            self.lemma_wf_view();
        }
        SuspenseId(self.leaves.vacant_key())
    }

    /// The record of a render of `scope_id` that may have to wait: it
    /// carries the identifier that the next leaf gets and wakes the
    /// scheduler of this runtime. It is not registered yet.
    pub fn new_leaf(&self, scope_id: ScopeId) -> (leaf: Arc<SuspenseLeaf>)
        requires
            self.wf(),
        ensures
            leaf@ == (LeafView { scope_id, id: self@.next_leaf() }),
    {
        Arc::new(SuspenseLeaf::new(scope_id, self.next_leaf(), clone_sender(&self.sender)))
    }

    /// The last step of a render: publishes `output` into the frame that
    /// was written, moves the render count on and takes the scope off the
    /// dirty set. An output that is pending has its leaf, if one is
    /// given, registered with the scheduler and noted as collected.
    pub fn publish_render(
        &mut self,
        scope_id: ScopeId,
        output: RenderReturn<P::Nodes>,
        leaf: Option<Arc<SuspenseLeaf>>,
    ) -> (root: &RenderReturn<P::Nodes>)
        requires
            old(self).wf(),
            old(self)@.scopes.dom().contains(scope_id.0),
            leaf matches Some(waiting) ==> waiting@ == (LeafView {
                scope_id,
                id: old(self)@.next_leaf(),
            }),
        ensures
            final(self).wf(),
            *root == output,
            final(self)@ == old(self)@.published(scope_id, output, leaf is Some),
    {
        let ghost waits = output is Pending && leaf is Some;
        if output.is_pending() {
            match leaf {
                Some(waiting) => {
                    let id = waiting.id();
                    self.leaves.insert(waiting);
                    self.collected_leaves.push(id);
                },
                None => {},
            }
        }
        let scope = self.scopes.get_mut(scope_id.0).unwrap();
        scope.publish(output);
        let entry = DirtyScope { height: scope.height(), id: scope_id };
        self.dirty_scopes.remove(&entry);
        proof {
            let next = old(self)@.next_leaf();
            assert(self@.scopes =~= old(self)@.scopes.insert(
                scope_id.0,
                old(self)@.scopes[scope_id.0].published(output),
            ));
            if waits {
                assert(self@.leaves =~= old(self)@.leaves.insert(
                    next.0,
                    LeafView { scope_id, id: next },
                ));
            } else {
                assert(self@.leaves =~= old(self)@.leaves);
            }
        }
        self.scopes.get(scope_id.0).unwrap().root_node().unwrap()
    }

    /// Renders a scope: sweeps what the render before left behind, cycles
    /// the frames, runs the component on the hooks with the cursor on the
    /// first slot, polls a render that suspended and publishes the output
    /// as `publish_render` does. What is published is what the component
    /// gave, unless that was pending: then it is what the polls made of
    /// it. The reference is good until the scope is rendered again.
    ///
    /// Where the arena cannot get its memory the render is abandoned
    /// after the sweep, and nothing else has changed.
    pub fn run_scope(
        &mut self,
        scope_id: ScopeId,
    ) -> (out: Result<&RenderReturn<P::Nodes>, ArenaError>)
        requires
            old(self).wf(),
            old(self)@.can_run(scope_id),
        ensures
            final(self).wf(),
            final(self)@.scopes.dom() == old(self)@.scopes.dom(),
            forall|k: usize|
                k != scope_id.0 && #[trigger] old(self)@.scopes.dom().contains(k)
                    ==> final(self)@.scopes[k] == old(self)@.scopes[k],
            final(self)@.stack == old(self)@.stack,
            final(self)@.tasks == old(self)@.tasks,
            final(self)@.poll_budget == old(self)@.poll_budget,
            out is Err ==> final(self)@ == (DomView {
                scopes: old(self)@.scopes.insert(
                    scope_id.0,
                    old(self)@.scopes[scope_id.0].swept(),
                ),
                ..old(self)@
            }),
            out matches Ok(root) ==> {
                let before = old(self)@.scopes[scope_id.0];
                let after = final(self)@.scopes[scope_id.0];
                let leaf = old(self)@.next_leaf();
                &&& final(self)@ == old(self)@.rendered(scope_id, after.hooks, *root)
                &&& old(self)@.render_claim(scope_id, after.hooks, *root)
                &&& after.current_root() == Some(*root)
                &&& after.previous_root() == before.current_root()
                &&& after.render_count == spec_next_count(before.render_count)
                &&& *root is Pending ==> {
                    &&& !old(self)@.leaves.dom().contains(leaf.0)
                    &&& final(self)@.leaves == old(self)@.leaves.insert(
                        leaf.0,
                        LeafView { scope_id, id: leaf },
                    )
                    &&& final(self)@.collected == old(self)@.collected.push(leaf)
                }
                &&& !(*root is Pending) ==> {
                    &&& final(self)@.leaves == old(self)@.leaves
                    &&& final(self)@.collected == old(self)@.collected
                }
            },
    {
        let budget = self.poll_budget;
        proof {
            self.lemma_wf_view();
        }
        let scope = self.scopes.get_mut(scope_id.0).unwrap();
        scope.ensure_drop_safety();
        match scope.cycle() {
            Ok(_) => {},
            Err(error) => {
                proof {
                    assert(self@.scopes =~= old(self)@.scopes.insert(
                        scope_id.0,
                        old(self)@.scopes[scope_id.0].swept(),
                    ));
                }
                return Err(error);
            },
        }
        let ghost arena = scope.spec_write_arena();
        let rendered = scope.render();
        let ghost output = rendered;
        let ghost left = self@.scopes[scope_id.0].hooks;
        proof {
            assert(self@.scopes =~= old(self)@.scopes.insert(scope_id.0, self@.scopes[scope_id.0]));
            assert(old(self)@.scopes[scope_id.0].props.unwrap().renders(
                old(self)@.scopes[scope_id.0].cycled().hooks,
                arena,
                output,
                left,
            ));
        }
        let root = match rendered {
            RenderReturn::Pending(task) => {
                let leaf = self.new_leaf(scope_id);
                let done = resolve_suspended(task, &leaf, budget);
                self.publish_render(scope_id, done.output, Some(leaf))
            },
            other => self.publish_render(scope_id, other, None),
        };
        Ok(root)
    }

    /// One batch of work: renders every dirty scope that can be rendered,
    /// ancestors before descendants, and empties the dirty set. An entry
    /// whose scope is gone, torn down or no longer at the depth that was
    /// marked is dropped. Gives the scopes in the order in which they were
    /// rendered.
    ///
    /// Where an arena cannot get its memory the batch stops there: the
    /// scope that failed is swept, and it and those after it stay dirty.
    /// A batch with nothing to render asks for no memory and goes through.
    pub fn render_dirty_scopes(&mut self) -> (done: Result<Vec<ScopeId>, ArenaError>)
        requires
            old(self).wf(),
        ensures
            final(self).wf(),
            final(self)@.scopes.dom() == old(self)@.scopes.dom(),
            final(self)@.stack == old(self)@.stack,
            final(self)@.tasks == old(self)@.tasks,
            done matches Ok(rendered) ==> {
                &&& rendered@ == old(self)@.render_order()
                &&& final(self)@.dirty.len() == 0
                &&& forall|k: usize|
                    #[trigger] old(self)@.scopes.dom().contains(k) && !rendered@.contains(ScopeId(k))
                        ==> final(self)@.scopes[k] == old(self)@.scopes[k]
                &&& forall|k: usize|
                    #[trigger] old(self)@.scopes.dom().contains(k) && rendered@.contains(ScopeId(k))
                        ==> final(self)@.scopes[k].render_count == spec_next_count(
                        old(self)@.scopes[k].render_count,
                    )
            },
            old(self)@.render_order().len() == 0 ==> done is Ok,
            done is Ok ==> exists|
                hooks: Seq<HookView<P::Hook>>,
                roots: Seq<RenderReturn<P::Nodes>>,
            | #[trigger] old(self)@.batch_done(hooks, roots, final(self)@),
            done is Err ==> exists|n: int| #[trigger] old(self)@.stopped_at(n, final(self)@),
            done is Err ==> exists|
                hooks: Seq<HookView<P::Hook>>,
                roots: Seq<RenderReturn<P::Nodes>>,
            | #[trigger] old(self)@.batch_stopped(hooks, roots, final(self)@),
    {
        let mut rendered: Vec<ScopeId> = Vec::new();
        let ghost before = self@;
        let ghost mut n: int = 0;
        let ghost mut hooks: Seq<HookView<P::Hook>> = Seq::empty();
        let ghost mut roots: Seq<RenderReturn<P::Nodes>> = Seq::empty();
        let ghost mut published: RenderReturn<P::Nodes> = RenderReturn::Aborted;
        proof {
            self.lemma_wf_view();
            reveal(Seq::filter);
            assert(before.rendered_of(0) =~= Seq::<ScopeId>::empty());
            assert(before.dirty.skip(0) =~= before.dirty);
        }
        loop
            invariant
                self.wf(),
                before == old(self)@,
                ordered(before.dirty),
                0 <= n <= before.dirty.len(),
                hooks.len() == n,
                before.batch_claims(hooks, roots),
                self@ == before.after_batch(hooks, roots),
                self@.dirty == before.dirty.skip(n),
                self@.scopes.dom() == before.scopes.dom(),
                self@.stack == before.stack,
                self@.tasks == before.tasks,
                rendered@ == before.rendered_of(n),
                forall|k: usize|
                    #[trigger] before.scopes.dom().contains(k) && !rendered@.contains(ScopeId(k))
                        ==> self@.scopes[k] == before.scopes[k],
                forall|k: usize|
                    #[trigger] before.scopes.dom().contains(k) && rendered@.contains(ScopeId(k))
                        ==> self@.scopes[k].render_count == spec_next_count(
                        before.scopes[k].render_count,
                    )
                        && self@.scopes[k].height == before.scopes[k].height,
            decreases before.dirty.len() - n,
        {
            let entry = match self.dirty_scopes.first() {
                Some(entry) => entry,
                None => {
                    proof {
                        assert(before.batch_done(hooks, roots, self@));
                    }
                    return Ok(rendered);
                },
            };
            let ghost now = self@;
            proof {
                assert(entry == before.dirty[n]);
                assert(before.dirty.skip(n).drop_first() =~= before.dirty.skip(n + 1));
                lemma_rendered_step(before, n);
                if rendered@.contains(entry.id) {
                    lemma_rendered_members(before, n, entry.id);
                    let j = choose|j: int|
                        0 <= j < n && (#[trigger] before.dirty[j]).id == entry.id
                            && before.renderable(before.dirty[j]);
                    assert(dirty_before(before.dirty[j], before.dirty[n]));
                }
                assert(now.renderable(entry) == before.renderable(entry));
            }
            if self.renderable(&entry) {
                let failed = match self.run_scope(entry.id) {
                    Ok(root) => {
                        proof {
                            published = *root;
                        }
                        None
                    },
                    Err(error) => Some(error),
                };
                match failed {
                    Some(error) => {
                        proof {
                            lemma_renderable_is_rendered(before, n);
                            assert(before.stopped_at(n, self@));
                            assert(before.batch_stopped(hooks, roots, self@));
                        }
                        return Err(error);
                    },
                    None => {},
                }
                proof {
                    lemma_first_filtered_out(now.dirty);
                    assert(entry == now.dirty_entry(entry.id));
                    let left = self@.scopes[entry.id.0].hooks;
                    assert(now.scopes[entry.id.0] == before.scopes[entry.id.0]);
                    assert(before.render_claim(entry.id, left, published));
                    assert(hooks.push(left).drop_last() =~= hooks);
                    assert(roots.push(published).drop_last() =~= roots);
                    hooks = hooks.push(left);
                    roots = roots.push(published);
                }
                rendered.push(entry.id);
                proof {
                    let earlier = before.rendered_of(n);
                    assert forall|k: usize|
                        #[trigger] before.scopes.dom().contains(k) && !rendered@.contains(
                            ScopeId(k),
                        ) implies self@.scopes[k] == before.scopes[k] by {
                        if earlier.contains(ScopeId(k)) {
                            let i = choose|i: int| 0 <= i < earlier.len() && earlier[i] == ScopeId(k);
                            assert(rendered@[i] == ScopeId(k));
                        }
                        assert(rendered@[rendered@.len() - 1] == entry.id);
                    }
                    assert forall|k: usize|
                        #[trigger] before.scopes.dom().contains(k) && rendered@.contains(
                            ScopeId(k),
                        ) implies self@.scopes[k].render_count == spec_next_count(
                        before.scopes[k].render_count,
                    )
                        && self@.scopes[k].height == before.scopes[k].height by {
                        if k != entry.id.0 {
                            let i = choose|i: int|
                                0 <= i < rendered@.len() && rendered@[i] == ScopeId(k);
                            assert(earlier[i] == ScopeId(k));
                        }
                    }
                }
            } else {
                self.dirty_scopes.pop_first();
                proof {
                    let nothing: HookView<P::Hook> = vstd::pervasive::arbitrary();
                    assert(hooks.push(nothing).drop_last() =~= hooks);
                    assert(roots.push(published).drop_last() =~= roots);
                    hooks = hooks.push(nothing);
                    roots = roots.push(published);
                }
            }
            proof {
                n = n + 1;
            }
        }
    }
}

} // verus!
