//! A slot-allocated table: values live under stable integer keys, and the
//! key of a removed value is the first to be handed out again.
use vstd::prelude::*;

verus! {

/// One slot of the table: a value, or a link in the chain of free slots.
pub enum Slot<T> {
    Occupied(T),
    Vacant(usize),
}

/// Which keys a table hands out: the keys that were given back, the one
/// given back last in front, and the number of slots it has made.
#[verifier::ext_equal]
pub struct KeysView {
    pub free: Seq<usize>,
    pub slots: nat,
}

impl KeysView {
    /// A table that never held anything.
    pub open spec fn fresh() -> KeysView {
        KeysView { free: Seq::empty(), slots: 0 }
    }

    /// The key of the next insertion: the key given back last, or that
    /// of a new slot.
    pub open spec fn next(self) -> usize {
        if self.free.len() > 0 {
            self.free[0]
        } else {
            self.slots as usize
        }
    }

    /// After an insertion.
    pub open spec fn taken(self) -> KeysView {
        if self.free.len() > 0 {
            KeysView { free: self.free.drop_first(), slots: self.slots }
        } else {
            KeysView { free: self.free, slots: self.slots + 1 }
        }
    }

    /// After `key` was given back.
    pub open spec fn released(self, key: usize) -> KeysView {
        KeysView { free: seq![key] + self.free, slots: self.slots }
    }
}

/// A table from keys to values. Its view is the map of the occupied slots.
pub struct SlotTable<T> {
    entries: Vec<Slot<T>>,
    next: usize,
    len: usize,
    free: Ghost<Seq<usize>>,
}

impl<T> View for SlotTable<T> {
    type V = Map<usize, T>;

    closed spec fn view(&self) -> Map<usize, T> {
        Map::new(
            |k: usize| k < self.entries@.len() && self.entries@[k as int] is Occupied,
            |k: usize| self.entries@[k as int]->Occupied_0,
        )
    }
}

impl<T> SlotTable<T> {
    /// The chain of free slots starts at `next`, visits every vacant slot
    /// once and ends one past the last slot.
    pub closed spec fn wf(&self) -> bool {
        let n = self.entries@.len();
        let free = self.free@;
        &&& n <= usize::MAX
        &&& free.no_duplicates()
        &&& self.len + free.len() == n
        &&& self.next == (if free.len() > 0 { free[0] as int } else { n as int })
        &&& forall|i: int| 0 <= i < free.len() ==> (#[trigger] free[i]) < n
        &&& forall|i: int|
            0 <= i < free.len() ==> (#[trigger] self.entries@[free[i] as int]) == Slot::<T>::Vacant(
                if i + 1 < free.len() { free[i + 1] } else { n as usize },
            )
        &&& forall|k: int|
            0 <= k < n && (#[trigger] self.entries@[k]) is Vacant ==> free.contains(k as usize)
    }

    /// The keys that the table hands out next.
    pub closed spec fn spec_keys(&self) -> KeysView {
        KeysView { free: self.free@, slots: self.entries@.len() }
    }

    /// The key that the next insertion will use.
    pub open spec fn spec_vacant_key(&self) -> usize {
        self.spec_keys().next()
    }

    /// One past the largest key ever handed out.
    pub open spec fn spec_capacity(&self) -> nat {
        self.spec_keys().slots
    }

    pub proof fn lemma_keys_below_capacity(&self)
        ensures
            forall|k: usize| #[trigger] self@.dom().contains(k) ==> k < self.spec_capacity(),
            self@.dom().finite(),
    {
        let s = Set::new(|k: usize| k < self.entries@.len());
        assert(self@.dom().subset_of(s));
        lemma_usize_below_finite(self.entries@.len());
        vstd::set_lib::lemma_len_subset(self@.dom(), s);
    }

    pub proof fn lemma_vacant_key_free(&self)
        requires
            self.wf(),
        ensures
            !self@.dom().contains(self.spec_vacant_key()),
            self.spec_vacant_key() <= self.spec_capacity(),
    {
        if self.free@.len() > 0 {
            assert(self.free@[0] < self.entries@.len());
            assert(self.entries@[self.free@[0] as int] is Vacant);
        }
    }

    pub fn new() -> (table: Self)
        ensures
            table.wf(),
            table@ == Map::<usize, T>::empty(),
            table.spec_keys() == KeysView::fresh(),
    {
        let table = SlotTable { entries: Vec::new(), next: 0, len: 0, free: Ghost(Seq::empty()) };
        assert(table@ =~= Map::<usize, T>::empty());
        table
    }

    pub fn len(&self) -> (n: usize)
        requires
            self.wf(),
        ensures
            n == self@.dom().len(),
    {
        proof {
            self.lemma_len();
        }
        self.len
    }

    proof fn lemma_len(&self)
        requires
            self.wf(),
        ensures
            self.len == self@.dom().len(),
            self@.dom().finite(),
    {
        let n = self.entries@.len();
        let all = Set::new(|k: usize| k < n);
        let vacant = self.free@.to_set();
        lemma_usize_below_finite(n);
        self.free@.unique_seq_to_set();
        assert(self@.dom() =~= all.difference(vacant)) by {
            assert forall|k: usize| self@.dom().contains(k) == all.difference(vacant).contains(
                k,
            ) by {
                if k < n {
                    if self.entries@[k as int] is Vacant {
                        assert(self.free@.contains(k));
                    } else if vacant.contains(k) {
                        let i = choose|i: int| 0 <= i < self.free@.len() && self.free@[i] == k;
                        assert(self.entries@[self.free@[i] as int] is Vacant);
                    }
                }
            }
        }
        assert(vacant.subset_of(all)) by {
            assert forall|k: usize| vacant.contains(k) implies all.contains(k) by {
                let i = choose|i: int| 0 <= i < self.free@.len() && self.free@[i] == k;
                assert(self.free@[i] < n);
            }
        }
        vstd::set_lib::lemma_len_difference(all, vacant);
        vstd::set_lib::lemma_len_subset(vacant, all);
        assert(all.difference(vacant).len() == all.len() - vacant.len()) by {
            lemma_len_difference_subset(all, vacant);
        }
    }

    pub fn capacity(&self) -> (slots: usize)
        ensures
            slots == self.spec_capacity(),
    {
        self.entries.len()
    }

    pub fn vacant_key(&self) -> (key: usize)
        requires
            self.wf(),
        ensures
            key == self.spec_vacant_key(),
            !self@.dom().contains(key),
    {
        proof {
            self.lemma_vacant_key_free();
        }
        self.next
    }

    pub fn contains(&self, key: usize) -> (present: bool)
        ensures
            present == self@.dom().contains(key),
    {
        if key < self.entries.len() {
            match &self.entries[key] {
                Slot::Occupied(_) => true,
                Slot::Vacant(_) => false,
            }
        } else {
            false
        }
    }

    pub fn get(&self, key: usize) -> (found: Option<&T>)
        ensures
            found == (if self@.dom().contains(key) {
                Some(&self@[key])
            } else {
                None
            }),
    {
        if key < self.entries.len() {
            match &self.entries[key] {
                Slot::Occupied(value) => Some(value),
                Slot::Vacant(_) => None,
            }
        } else {
            None
        }
    }

    pub fn get_mut(&mut self, key: usize) -> (found: Option<&mut T>)
        requires
            old(self).wf(),
        ensures
            final(self).wf(),
            final(self).spec_keys() == old(self).spec_keys(),
            match found {
                Some(value) => old(self)@.dom().contains(key) && *value == old(self)@[key]
                    && final(self)@ == old(self)@.insert(key, *final(value)),
                None => !old(self)@.dom().contains(key) && final(self)@ == old(self)@,
            },
    {
        if key < self.entries.len() {
            match &mut self.entries[key] {
                Slot::Occupied(value) => Some(value),
                Slot::Vacant(_) => None,
            }
        } else {
            None
        }
    }

    pub fn insert(&mut self, value: T) -> (key: usize)
        requires
            old(self).wf(),
        ensures
            final(self).wf(),
            key == old(self).spec_vacant_key(),
            !old(self)@.dom().contains(key),
            final(self)@ == old(self)@.insert(key, value),
            final(self).spec_keys() == old(self).spec_keys().taken(),
    {
        proof {
            self.lemma_vacant_key_free();
        }
        let key = self.next;
        if key == self.entries.len() {
            self.entries.push(Slot::Occupied(value));
            self.next = self.entries.len();
        } else {
            assert(self.free@.len() > 0);
            assert(self.entries@[self.free@[0] as int] is Vacant);
            let link = match &self.entries[key] {
                Slot::Vacant(link) => *link,
                Slot::Occupied(_) => key,
            };
            let mut slot = Slot::Occupied(value);
            core::mem::swap(&mut self.entries[key], &mut slot);
            self.next = link;
            self.free = Ghost(self.free@.drop_first());
            proof {
                let before = old(self).free@;
                let after = self.free@;
                assert forall|i: int| 0 <= i < after.len() implies after[i] != key by {
                    assert(after[i] == before[i + 1]);
                }
                assert(after.no_duplicates());
                assert forall|i: int| 0 <= i < after.len() implies (#[trigger] self.entries@[after[i] as int])
                    == Slot::<T>::Vacant(
                    if i + 1 < after.len() { after[i + 1] } else { self.entries@.len() as usize },
                ) by {
                    assert(after[i] == before[i + 1]);
                    assert(old(self).entries@[before[i + 1] as int] == Slot::<T>::Vacant(
                        if i + 2 < before.len() { before[i + 2] } else { self.entries@.len() as usize },
                    ));
                }
                assert forall|k: int|
                    0 <= k < self.entries@.len() && (#[trigger] self.entries@[k]) is Vacant implies after.contains(
                    k as usize,
                ) by {
                    assert(old(self).entries@[k] is Vacant);
                    let i = choose|i: int| 0 <= i < before.len() && before[i] == k as usize;
                    assert(after[i - 1] == k as usize);
                }
            }
        }
        self.len = self.len + 1;
        assert(self@ =~= old(self)@.insert(key, value));
        key
    }

    pub fn remove(&mut self, key: usize) -> (removed: Option<T>)
        requires
            old(self).wf(),
        ensures
            final(self).wf(),
            removed == (if old(self)@.dom().contains(key) {
                Some(old(self)@[key])
            } else {
                None
            }),
            final(self)@ == old(self)@.remove(key),
            final(self).spec_keys() == (if old(self)@.dom().contains(key) {
                old(self).spec_keys().released(key)
            } else {
                old(self).spec_keys()
            }),
    {
        if !self.contains(key) {
            assert(self@ =~= old(self)@.remove(key));
            return None;
        }
        proof {
            self.lemma_len();
            if self@.dom().len() == 0 {
                self@.dom().lemma_len0_is_empty();
                assert(!self@.dom().contains(key));
            }
        }
        let mut slot = Slot::Vacant(self.next);
        core::mem::swap(&mut self.entries[key], &mut slot);
        self.next = key;
        self.len = self.len - 1;
        self.free = Ghost(seq![key] + self.free@);
        proof {
            let before = old(self).free@;
            let after = self.free@;
            assert forall|i: int| 0 <= i < before.len() implies before[i] != key by {
                assert(old(self).entries@[before[i] as int] is Vacant);
            }
            assert(after.no_duplicates());
            assert forall|i: int| 0 <= i < after.len() implies (#[trigger] self.entries@[after[i] as int])
                == Slot::<T>::Vacant(
                if i + 1 < after.len() { after[i + 1] } else { self.entries@.len() as usize },
            ) by {
                if i > 0 {
                    assert(after[i] == before[i - 1]);
                    assert(old(self).entries@[before[i - 1] as int] is Vacant);
                }
            }
            assert forall|k: int|
                0 <= k < self.entries@.len() && (#[trigger] self.entries@[k]) is Vacant implies after.contains(
                k as usize,
            ) by {
                if k == key {
                    assert(after[0] == key);
                } else {
                    assert(old(self).entries@[k] is Vacant);
                    let i = choose|i: int| 0 <= i < before.len() && before[i] == k as usize;
                    assert(after[i + 1] == k as usize);
                }
            }
            assert(self@ =~= old(self)@.remove(key));
        }
        match slot {
            Slot::Occupied(value) => Some(value),
            Slot::Vacant(_) => None,
        }
    }
}

proof fn lemma_usize_below_finite(n: nat)
    ensures
        Set::new(|k: usize| k < n).finite(),
        Set::new(|k: usize| k < n).len() == if n <= usize::MAX + 1 { n } else { (usize::MAX + 1) as nat },
    decreases n,
{
    let s = Set::new(|k: usize| k < n);
    if n == 0 {
        assert(s =~= Set::<usize>::empty());
    } else {
        let m = (n - 1) as nat;
        let t = Set::new(|k: usize| k < m);
        lemma_usize_below_finite(m);
        if m <= usize::MAX {
            assert(s =~= t.insert(m as usize));
        } else {
            assert(s =~= t);
        }
    }
}

proof fn lemma_len_difference_subset<A>(a: Set<A>, b: Set<A>)
    requires
        a.finite(),
        b.subset_of(a),
    ensures
        a.difference(b).len() == a.len() - b.len(),
    decreases b.len(),
{
    vstd::set_lib::lemma_len_subset(b, a);
    if b.len() == 0 {
        assert(b =~= Set::<A>::empty());
        assert(a.difference(b) =~= a);
    } else {
        let x = b.choose();
        lemma_len_difference_subset(a.remove(x), b.remove(x));
        assert(a.remove(x).difference(b.remove(x)) =~= a.difference(b));
    }
}

} // verus!
