//! What the render step shares with the scheduler: the messages that wake
//! it, and the record of a render that waits.
use crate::scopes::ScopeId;
use crate::slot_table::KeysView;
use crate::slot_table::SlotTable;
use std::sync::atomic::AtomicBool;
use std::sync::atomic::Ordering;
use std::sync::mpsc::Sender;
use std::sync::Arc;
use std::task::Wake;
use vstd::prelude::*;

verus! {

/// The identifier of a suspended render in the table of leaves.
#[derive(Clone, Copy, Debug, PartialEq, Eq, Structural)]
pub struct SuspenseId(pub usize);

/// The identifier of a task that a scope spawned.
#[derive(Clone, Copy, Debug, PartialEq, Eq, Structural)]
pub struct TaskId(pub usize);

/// What the scheduler is told.
#[derive(Clone, Copy, Debug, PartialEq, Eq, Structural)]
pub enum SchedulerMsg {
    /// A scope has to be rendered again.
    Immediate(ScopeId),
    /// The computation of a suspended render can make progress.
    SuspenseNotified(SuspenseId),
}

/// `std::sync::mpsc::Sender`: the sending end of a channel.
#[verifier::external_type_specification]
#[verifier::external_body]
#[verifier::reject_recursive_types(T)]
pub struct ExSender<T>(Sender<T>);

/// `Sender::send`: queues the message for the receiver. A channel whose
/// receiver is gone drops it; nobody is left to act on it.
#[verifier::external_body]
fn notify(tx: &Sender<SchedulerMsg>, msg: SchedulerMsg) {
    let _ = tx.send(msg);
}

/// `Sender::clone`: another sending end of the same channel.
#[verifier::external_body]
pub(crate) fn clone_sender(tx: &Sender<SchedulerMsg>) -> Sender<SchedulerMsg> {
    tx.clone()
}

/// One outstanding suspended render: the scope that waits, the place of
/// the record in the table of leaves, the channel to the scheduler and the
/// flag that a wake sets.
pub struct SuspenseLeaf {
    scope_id: ScopeId,
    id: SuspenseId,
    tx: Sender<SchedulerMsg>,
    notified: AtomicBool,
}

/// What identifies a leaf: the scope that waits and the leaf's own place.
pub struct LeafView {
    pub scope_id: ScopeId,
    pub id: SuspenseId,
}

impl View for SuspenseLeaf {
    type V = LeafView;

    closed spec fn view(&self) -> LeafView {
        LeafView { scope_id: self.scope_id, id: self.id }
    }
}

impl SuspenseLeaf {
    pub fn new(scope_id: ScopeId, id: SuspenseId, tx: Sender<SchedulerMsg>) -> (leaf: Self)
        ensures
            leaf@ == (LeafView { scope_id, id }),
    {
        SuspenseLeaf { scope_id, id, tx, notified: AtomicBool::new(false) }
    }

    pub fn scope_id(&self) -> (scope_id: ScopeId)
        ensures
            scope_id == self@.scope_id,
    {
        self.scope_id
    }

    pub fn id(&self) -> (id: SuspenseId)
        ensures
            id == self@.id,
    {
        self.id
    }

    /// Reads the wake flag and clears it.
    pub fn take_notified(&self) -> bool {
        self.notified.swap(false, Ordering::SeqCst)
    }
}

/// What belongs to a scope and goes when the scope goes.
pub trait OwnedByScope {
    spec fn spec_owner(&self) -> ScopeId;

    fn owner(&self) -> (id: ScopeId)
        ensures
            id == self.spec_owner(),
    ;
}

impl OwnedByScope for Arc<SuspenseLeaf> {
    open spec fn spec_owner(&self) -> ScopeId {
        self@.scope_id
    }

    fn owner(&self) -> (id: ScopeId) {
        self.scope_id()
    }
}

/// A task that a scope spawned. The scope owns it: it is cancelled when
/// the scope is removed.
#[derive(Clone, Copy, Debug, PartialEq, Eq, Structural)]
pub struct LocalTask {
    pub scope: ScopeId,
}

impl OwnedByScope for LocalTask {
    open spec fn spec_owner(&self) -> ScopeId {
        self.scope
    }

    fn owner(&self) -> (id: ScopeId) {
        self.scope
    }
}

/// The keys under which `scope` owns something in a table.
pub open spec fn spec_owned<T: OwnedByScope>(entries: Map<usize, T>, scope: ScopeId) -> Set<usize> {
    Set::new(|k: usize| entries.dom().contains(k) && entries[k].spec_owner() == scope)
}

/// The keys of `doomed` that lie below `upto`, the largest first.
pub open spec fn spec_keys_below(doomed: Set<usize>, upto: nat) -> Seq<usize>
    decreases upto,
{
    if upto == 0 {
        Seq::empty()
    } else {
        let key = (upto - 1) as usize;
        let below = spec_keys_below(doomed, (upto - 1) as nat);
        if doomed.contains(key) {
            seq![key] + below
        } else {
            below
        }
    }
}

/// The keys that a table hands out after the values under the keys of
/// `doomed` were taken out of it, the smallest key first: those keys are
/// given back, the largest one last.
pub open spec fn spec_keys_after_drop(keys: KeysView, doomed: Set<usize>) -> KeysView {
    KeysView { free: spec_keys_below(doomed, keys.slots) + keys.free, slots: keys.slots }
}

/// Takes out of `table` all that `scope` owns, and nothing else.
pub fn drop_owned<T: OwnedByScope>(table: &mut SlotTable<T>, scope: ScopeId)
    requires
        old(table).wf(),
    ensures
        final(table).wf(),
        final(table)@ == old(table)@.remove_keys(spec_owned(old(table)@, scope)),
        final(table).spec_keys() == spec_keys_after_drop(
            old(table).spec_keys(),
            spec_owned(old(table)@, scope),
        ),
{
    let slots = table.capacity();
    let mut key: usize = 0;
    let ghost doomed = spec_owned(old(table)@, scope);
    proof {
        assert(spec_keys_below(doomed, 0) + table.spec_keys().free =~= table.spec_keys().free);
    }
    while key < slots
        invariant
            table.wf(),
            key <= slots,
            doomed == spec_owned(old(table)@, scope),
            forall|k: usize|
                #[trigger] table@.dom().contains(k) <==> old(table)@.dom().contains(k) && (k
                    >= key || !doomed.contains(k)),
            forall|k: usize| #[trigger] table@.dom().contains(k) ==> table@[k] == old(table)@[k],
            table.spec_keys() == (KeysView {
                free: spec_keys_below(doomed, key as nat) + old(table).spec_keys().free,
                slots: slots as nat,
            }),
        decreases slots - key,
    {
        let owned = match table.get(key) {
            Some(value) => value.owner() == scope,
            None => false,
        };
        proof {
            let earlier = spec_keys_below(doomed, key as nat);
            assert(seq![key] + (earlier + old(table).spec_keys().free) =~= (seq![key] + earlier)
                + old(table).spec_keys().free);
            assert(doomed.contains(key) == owned);
        }
        if owned {
            table.remove(key);
        }
        key = key + 1;
    }
    proof {
        old(table).lemma_keys_below_capacity();
        table.lemma_keys_below_capacity();
        assert(table@ =~= old(table)@.remove_keys(doomed));
    }
}

impl Wake for SuspenseLeaf {
    /// Sets the wake flag and tells the scheduler which leaf woke.
    fn wake(self: Arc<Self>) {
        self.notified.store(true, Ordering::SeqCst);
        notify(&self.tx, SchedulerMsg::SuspenseNotified(self.id));
    }
}

} // verus!
