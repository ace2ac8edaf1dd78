//! Hook storage of a scope: the state slots of a component, in the order
//! in which its body declares them, and the cursor of the current render.
use vstd::prelude::*;

verus! {

pub struct HookList<H> {
    list: Vec<H>,
    idx: usize,
}

/// The slots and the cursor of a hook list.
#[verifier::ext_equal]
pub struct HookView<H> {
    pub slots: Seq<H>,
    pub cursor: nat,
}

impl<H> View for HookList<H> {
    type V = HookView<H>;

    closed spec fn view(&self) -> HookView<H> {
        HookView { slots: self.list@, cursor: self.idx as nat }
    }
}

impl<H> HookList<H> {
    /// The cursor never runs past the slots.
    pub open spec fn wf(&self) -> bool {
        self@.cursor <= self@.slots.len()
    }

    pub fn new() -> (hooks: Self)
        ensures
            hooks.wf(),
            hooks@ == (HookView { slots: Seq::<H>::empty(), cursor: 0 }),
    {
        HookList { list: Vec::new(), idx: 0 }
    }

    pub fn len(&self) -> (n: usize)
        ensures
            n == self@.slots.len(),
    {
        self.list.len()
    }

    pub fn cursor(&self) -> (at: usize)
        ensures
            at == self@.cursor,
    {
        self.idx
    }

    /// Puts the cursor back on the first slot, as every render starts.
    pub fn reset(&mut self)
        ensures
            final(self)@.slots == old(self)@.slots,
            final(self)@.cursor == 0,
            final(self).wf(),
    {
        self.idx = 0;
    }

    /// The next hook of the running render. On the render that declares
    /// it the slot is made and holds `initial`; on a later one it is the
    /// slot of the same position and `initial` is dropped.
    pub fn use_hook(&mut self, initial: H) -> (slot: usize)
        requires
            old(self).wf(),
        ensures
            final(self).wf(),
            slot == old(self)@.cursor,
            final(self)@.cursor == old(self)@.cursor + 1,
            final(self)@.slots == (if old(self)@.cursor < old(self)@.slots.len() {
                old(self)@.slots
            } else {
                old(self)@.slots.push(initial)
            }),
    {
        let slot = self.idx;
        if slot == self.list.len() {
            self.list.push(initial);
        }
        let slots = self.list.len();
        assert(slot < slots);
        self.idx = slot + 1;
        slot
    }

    pub fn get(&self, slot: usize) -> (found: Option<&H>)
        ensures
            found == (if slot < self@.slots.len() {
                Some(&self@.slots[slot as int])
            } else {
                None
            }),
    {
        if slot < self.list.len() {
            Some(&self.list[slot])
        } else {
            None
        }
    }

    /// Writes `value` into a slot that exists; says whether it did.
    pub fn set(&mut self, slot: usize, value: H) -> (written: bool)
        ensures
            written == (slot < old(self)@.slots.len()),
            final(self)@.cursor == old(self)@.cursor,
            final(self)@.slots == (if written {
                old(self)@.slots.update(slot as int, value)
            } else {
                old(self)@.slots
            }),
    {
        if slot < self.list.len() {
            self.list[slot] = value;
            true
        } else {
            false
        }
    }
}

} // verus!
