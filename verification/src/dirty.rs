//! The scopes that wait for a render, ancestors first.
use crate::scopes::ScopeId;
use vstd::prelude::*;

verus! {

/// A scope that has to be rendered again, with its nesting depth.
#[derive(Clone, Copy, Debug, PartialEq, Eq, Structural)]
pub struct DirtyScope {
    pub height: u32,
    pub id: ScopeId,
}

/// The order of the work: by depth, and by identifier among scopes of one
/// depth.
pub open spec fn dirty_before(a: DirtyScope, b: DirtyScope) -> bool {
    a.height < b.height || (a.height == b.height && a.id.0 < b.id.0)
}

/// A sequence that holds every entry once, in the order of the work.
pub open spec fn ordered(entries: Seq<DirtyScope>) -> bool {
    forall|i: int, j: int|
        0 <= i < j < entries.len() ==> dirty_before(#[trigger] entries[i], #[trigger] entries[j])
}

/// The entries with `scope` among them: those that come earlier, the
/// scope, and those that come later. A scope that is already marked
/// changes nothing.
pub open spec fn spec_mark(entries: Seq<DirtyScope>, scope: DirtyScope) -> Seq<DirtyScope> {
    if entries.contains(scope) {
        entries
    } else {
        entries.filter(|other: DirtyScope| dirty_before(other, scope)).push(scope)
            + entries.filter(|other: DirtyScope| dirty_before(scope, other))
    }
}

/// The entries without `scope`.
pub open spec fn spec_unmark(entries: Seq<DirtyScope>, scope: DirtyScope) -> Seq<DirtyScope> {
    entries.filter(|other: DirtyScope| other != scope)
}

fn before(a: &DirtyScope, b: &DirtyScope) -> (earlier: bool)
    ensures
        earlier == dirty_before(*a, *b),
{
    a.height < b.height || (a.height == b.height && a.id.0 < b.id.0)
}

/// The set of dirty scopes. Its view lists them in the order in which they
/// are rendered.
pub struct DirtySet {
    items: Vec<DirtyScope>,
}

impl View for DirtySet {
    type V = Seq<DirtyScope>;

    closed spec fn view(&self) -> Seq<DirtyScope> {
        self.items@
    }
}

impl DirtySet {
    pub open spec fn wf(&self) -> bool {
        ordered(self@)
    }

    pub fn new() -> (set: Self)
        ensures
            set.wf(),
            set@.len() == 0,
    {
        DirtySet { items: Vec::new() }
    }

    pub fn len(&self) -> (n: usize)
        ensures
            n == self@.len(),
    {
        self.items.len()
    }

    pub fn is_empty(&self) -> (empty: bool)
        ensures
            empty == (self@.len() == 0),
    {
        self.items.len() == 0
    }

    /// The place of `scope` in the order: every entry before it comes
    /// earlier, every entry from it on does not.
    fn position(&self, scope: &DirtyScope) -> (at: usize)
        requires
            self.wf(),
        ensures
            at <= self@.len(),
            forall|j: int| 0 <= j < at ==> dirty_before(#[trigger] self@[j], *scope),
            forall|j: int| at <= j < self@.len() ==> !dirty_before(#[trigger] self@[j], *scope),
    {
        let mut at: usize = 0;
        while at < self.items.len() && before(&self.items[at], scope)
            invariant
                at <= self.items@.len(),
                self.wf(),
                forall|j: int| 0 <= j < at ==> dirty_before(#[trigger] self.items@[j], *scope),
            decreases self.items@.len() - at,
        {
            at = at + 1;
        }
        proof {
            assert forall|j: int| at <= j < self@.len() implies !dirty_before(
                #[trigger] self@[j],
                *scope,
            ) by {
                if at < j {
                    assert(dirty_before(self@[at as int], self@[j]));
                }
            }
        }
        at
    }

    pub fn contains(&self, scope: &DirtyScope) -> (present: bool)
        requires
            self.wf(),
        ensures
            present == self@.contains(*scope),
    {
        let at = self.position(scope);
        let present = at < self.items.len() && self.items[at] == *scope;
        proof {
            if !present && self@.contains(*scope) {
                let j = choose|j: int| 0 <= j < self@.len() && self@[j] == *scope;
                if j > at {
                    assert(dirty_before(self@[at as int], self@[j]));
                }
            }
        }
        present
    }

    /// Marks `scope` dirty. Says whether it was not marked before.
    pub fn insert(&mut self, scope: DirtyScope) -> (added: bool)
        requires
            old(self).wf(),
        ensures
            final(self).wf(),
            added == !old(self)@.contains(scope),
            final(self)@ == spec_mark(old(self)@, scope),
            final(self)@.to_set() == old(self)@.to_set().insert(scope),
            final(self)@.len() == old(self)@.len() + (if added { 1int } else { 0int }),
    {
        let at = self.position(&scope);
        if at < self.items.len() && self.items[at] == scope {
            assert(self@.to_set() =~= self@.to_set().insert(scope));
            return false;
        }
        self.items.insert(at, scope);
        proof {
            let before = old(self)@;
            let after = self@;
            assert forall|j: int| at <= j < before.len() implies dirty_before(
                scope,
                #[trigger] before[j],
            ) by {
                if at < j {
                    assert(dirty_before(before[at as int], before[j]));
                }
            }
            assert forall|i: int, j: int| 0 <= i < j < after.len() implies dirty_before(
                #[trigger] after[i],
                #[trigger] after[j],
            ) by {
                if i < at && j > at {
                    assert(dirty_before(before[i], scope));
                    assert(dirty_before(scope, before[j - 1]));
                }
            }
            assert forall|other: DirtyScope| after.contains(other) <==> (before.contains(other)
                || other == scope) by {
                if before.contains(other) {
                    let j = choose|j: int| 0 <= j < before.len() && before[j] == other;
                    if j < at {
                        assert(after[j] == other);
                    } else {
                        assert(after[j + 1] == other);
                    }
                }
                if other == scope {
                    assert(after[at as int] == other);
                }
                if after.contains(other) {
                    let j = choose|j: int| 0 <= j < after.len() && after[j] == other;
                    if j < at {
                        assert(before[j] == other);
                    } else if j > at {
                        assert(before[j - 1] == other);
                    }
                }
            }
            assert(after.to_set() =~= before.to_set().insert(scope));
            if before.contains(scope) {
                let j = choose|j: int| 0 <= j < before.len() && before[j] == scope;
                if j < at {
                    assert(dirty_before(before[j], scope));
                } else {
                    assert(dirty_before(scope, before[j]));
                }
            }
            lemma_filter_front(before, at as int, |other: DirtyScope| dirty_before(other, scope));
            lemma_filter_back(before, at as int, |other: DirtyScope| dirty_before(scope, other));
            assert(after =~= before.take(at as int).push(scope) + before.skip(at as int));
        }
        true
    }

    /// Takes `scope` out of the set. Says whether it was in it.
    pub fn remove(&mut self, scope: &DirtyScope) -> (removed: bool)
        requires
            old(self).wf(),
        ensures
            final(self).wf(),
            removed == old(self)@.contains(*scope),
            final(self)@.to_set() == old(self)@.to_set().remove(*scope),
            final(self)@ == spec_unmark(old(self)@, *scope),
    {
        let at = self.position(scope);
        if at < self.items.len() && self.items[at] == *scope {
            self.items.remove(at);
            proof {
                lemma_filter_out(old(self)@, *scope);
                assert(self@ =~= old(self)@.remove(at as int));
                lemma_remove_at(old(self)@, at as int);
            }
            true
        } else {
            proof {
                if self@.contains(*scope) {
                    let j = choose|j: int| 0 <= j < self@.len() && self@[j] == *scope;
                    if j > at {
                        assert(dirty_before(self@[at as int], self@[j]));
                    }
                }
                lemma_filter_out(self@, *scope);
                assert(self@.to_set() =~= self@.to_set().remove(*scope));
            }
            false
        }
    }

    /// The entry that is rendered next: the first in the order.
    pub fn first(&self) -> (next: Option<DirtyScope>)
        ensures
            next == (if self@.len() > 0 {
                Some(self@[0])
            } else {
                None
            }),
    {
        if self.items.len() > 0 {
            Some(self.items[0])
        } else {
            None
        }
    }

    /// Takes out the entry that is rendered next.
    pub fn pop_first(&mut self) -> (next: Option<DirtyScope>)
        requires
            old(self).wf(),
        ensures
            final(self).wf(),
            next == (if old(self)@.len() > 0 {
                Some(old(self)@[0])
            } else {
                None
            }),
            final(self)@ == (if old(self)@.len() > 0 {
                old(self)@.drop_first()
            } else {
                old(self)@
            }),
    {
        if self.items.len() > 0 {
            let next = self.items.remove(0);
            assert(self@ =~= old(self)@.drop_first());
            Some(next)
        } else {
            None
        }
    }
}

/// An ordered sequence without one of its entries is what is left when
/// that entry is filtered out.
proof fn lemma_filter_out(entries: Seq<DirtyScope>, scope: DirtyScope)
    requires
        ordered(entries),
    ensures
        spec_unmark(entries, scope) == (if entries.contains(scope) {
            entries.remove(entries.index_of(scope))
        } else {
            entries
        }),
    decreases entries.len(),
{
    let keep = |other: DirtyScope| other != scope;
    reveal(Seq::filter);
    if entries.len() > 0 {
        let front = entries.drop_last();
        let last = entries.last();
        assert(ordered(front));
        lemma_filter_out(front, scope);
        if front.contains(scope) {
            let at = front.index_of(scope);
            assert(entries[at] == scope);
            assert(dirty_before(entries[at], last));
            let found = entries.index_of(scope);
            if found != at {
                if found < at {
                    assert(dirty_before(entries[found], entries[at]));
                } else {
                    assert(dirty_before(entries[at], entries[found]));
                }
            }
            assert(entries.remove(at) =~= front.remove(at).push(last));
        } else if last == scope {
            let found = entries.index_of(scope);
            assert(entries[entries.len() - 1] == scope);
            if found != entries.len() - 1 {
                assert(front[found] == scope);
            }
            assert(entries.remove(entries.len() - 1) =~= front);
        } else {
            if entries.contains(scope) {
                let j = choose|j: int| 0 <= j < entries.len() && entries[j] == scope;
                assert(front[j] == scope);
            }
            assert(front.push(last) =~= entries);
        }
    }
}

/// A test that holds of the first `at` entries and of no other keeps
/// exactly these.
proof fn lemma_filter_front(entries: Seq<DirtyScope>, at: int, keep: spec_fn(DirtyScope) -> bool)
    requires
        0 <= at <= entries.len(),
        forall|j: int| 0 <= j < at ==> keep(#[trigger] entries[j]),
        forall|j: int| at <= j < entries.len() ==> !keep(#[trigger] entries[j]),
    ensures
        entries.filter(keep) == entries.take(at),
    decreases entries.len(),
{
    reveal(Seq::filter);
    if entries.len() > 0 {
        let front = entries.drop_last();
        if at == entries.len() {
            lemma_filter_front(front, at - 1, keep);
            assert(keep(entries[entries.len() - 1]));
            assert(front.take(at - 1).push(entries.last()) =~= entries.take(at));
        } else {
            lemma_filter_front(front, at, keep);
            assert(!keep(entries[entries.len() - 1]));
            assert(front.take(at) =~= entries.take(at));
        }
    } else {
        assert(entries.take(at) =~= entries);
    }
}

/// A test that holds of the entries from `at` on and of no other keeps
/// exactly these.
proof fn lemma_filter_back(entries: Seq<DirtyScope>, at: int, keep: spec_fn(DirtyScope) -> bool)
    requires
        0 <= at <= entries.len(),
        forall|j: int| 0 <= j < at ==> !keep(#[trigger] entries[j]),
        forall|j: int| at <= j < entries.len() ==> keep(#[trigger] entries[j]),
    ensures
        entries.filter(keep) == entries.skip(at),
    decreases entries.len(),
{
    reveal(Seq::filter);
    if entries.len() > 0 {
        let front = entries.drop_last();
        if at == entries.len() {
            lemma_filter_back(front, at - 1, keep);
            assert(!keep(entries[entries.len() - 1]));
            assert(front.skip(at - 1) =~= entries.skip(at));
        } else {
            lemma_filter_back(front, at, keep);
            assert(keep(entries[entries.len() - 1]));
            assert(front.skip(at).push(entries.last()) =~= entries.skip(at));
        }
    } else {
        assert(entries.skip(at) =~= entries);
    }
}

proof fn lemma_remove_at(entries: Seq<DirtyScope>, at: int)
    requires
        ordered(entries),
        0 <= at < entries.len(),
    ensures
        ordered(entries.remove(at)),
        entries.contains(entries[at]),
        entries.index_of(entries[at]) == at,
        entries.remove(at).to_set() == entries.to_set().remove(entries[at]),
{
    let scope = entries[at];
    let rest = entries.remove(at);
    let found = entries.index_of(scope);
    if found < at {
        assert(dirty_before(entries[found], entries[at]));
    } else if found > at {
        assert(dirty_before(entries[at], entries[found]));
    }
    assert forall|other: DirtyScope| rest.contains(other) <==> (entries.contains(other) && other
        != scope) by {
        if rest.contains(other) {
            let j = choose|j: int| 0 <= j < rest.len() && rest[j] == other;
            if j < at {
                assert(entries[j] == other);
                assert(dirty_before(entries[j], entries[at]));
            } else {
                assert(entries[j + 1] == other);
                assert(dirty_before(entries[at], entries[j + 1]));
            }
        }
        if entries.contains(other) && other != scope {
            let j = choose|j: int| 0 <= j < entries.len() && entries[j] == other;
            if j < at {
                assert(rest[j] == other);
            } else {
                assert(rest[j - 1] == other);
            }
        }
    }
    assert(rest.to_set() =~= entries.to_set().remove(scope));
}

/// Unmarking a scope takes its entry out of the set and leaves every
/// other entry in place and in order.
pub proof fn lemma_unmark(entries: Seq<DirtyScope>, scope: DirtyScope)
    requires
        ordered(entries),
    ensures
        ordered(spec_unmark(entries, scope)),
        forall|other: DirtyScope| #[trigger]
            spec_unmark(entries, scope).contains(other) <==> entries.contains(other) && other
                != scope,
{
    lemma_filter_out(entries, scope);
    if entries.contains(scope) {
        let at = entries.index_of(scope);
        lemma_remove_at(entries, at);
        let rest = entries.remove(at);
        assert forall|other: DirtyScope| #[trigger]
            rest.contains(other) <==> entries.contains(other) && other != scope by {
            assert(rest.to_set().contains(other) == rest.contains(other));
            assert(entries.to_set().contains(other) == entries.contains(other));
        }
    }
}

/// What is kept of an ordered sequence is ordered.
pub proof fn lemma_kept_ordered(entries: Seq<DirtyScope>, keep: spec_fn(DirtyScope) -> bool)
    requires
        ordered(entries),
    ensures
        ordered(entries.filter(keep)),
        forall|i: int|
            0 <= i < entries.filter(keep).len() ==> keep(#[trigger] entries.filter(keep)[i])
                && entries.contains(entries.filter(keep)[i]),
    decreases entries.len(),
{
    reveal(Seq::filter);
    if entries.len() > 0 {
        let front = entries.drop_last();
        let last = entries.last();
        assert(ordered(front));
        lemma_kept_ordered(front, keep);
        let kept = front.filter(keep);
        assert forall|i: int| 0 <= i < kept.len() implies entries.contains(#[trigger] kept[i])
            && dirty_before(kept[i], last) by {
            let at = choose|at: int| 0 <= at < front.len() && front[at] == kept[i];
            assert(entries[at] == kept[i]);
            assert(dirty_before(entries[at], entries[entries.len() - 1]));
        }
        if keep(last) {
            assert(entries[entries.len() - 1] == last);
        }
    }
}

/// Marking a scope keeps the set in order.
pub proof fn lemma_mark_keeps_order(entries: Seq<DirtyScope>, scope: DirtyScope)
    requires
        ordered(entries),
    ensures
        ordered(spec_mark(entries, scope)),
{
    if !entries.contains(scope) {
        let is_earlier = |other: DirtyScope| dirty_before(other, scope);
        let is_later = |other: DirtyScope| dirty_before(scope, other);
        let earlier = entries.filter(is_earlier);
        let later = entries.filter(is_later);
        lemma_kept_ordered(entries, is_earlier);
        lemma_kept_ordered(entries, is_later);
        let marked = earlier.push(scope) + later;
        assert forall|i: int, j: int| 0 <= i < j < marked.len() implies dirty_before(
            #[trigger] marked[i],
            #[trigger] marked[j],
        ) by {
            if i < earlier.len() {
                assert(is_earlier(earlier[i]));
            }
            if j > earlier.len() {
                assert(is_later(later[j - earlier.len() - 1]));
            }
        }
    }
}

/// A scope that was marked is in the set.
pub proof fn lemma_marked_is_dirty(entries: Seq<DirtyScope>, scope: DirtyScope)
    ensures
        spec_mark(entries, scope).contains(scope),
{
    if !entries.contains(scope) {
        let earlier = entries.filter(|other: DirtyScope| dirty_before(other, scope));
        let later = entries.filter(|other: DirtyScope| dirty_before(scope, other));
        assert((earlier.push(scope) + later)[earlier.len() as int] == scope);
    }
}

/// Filtering the first entry out of an ordered sequence takes just that
/// entry away.
pub proof fn lemma_first_filtered_out(entries: Seq<DirtyScope>)
    requires
        ordered(entries),
        entries.len() > 0,
    ensures
        spec_unmark(entries, entries[0]) == entries.drop_first(),
{
    lemma_filter_out(entries, entries[0]);
    lemma_remove_at(entries, 0);
    assert(entries.remove(0) =~= entries.drop_first());
}

/// The order of the work never puts a deeper scope before a shallower
/// one: along an ordered batch the depth does not decrease.
pub proof fn lemma_ordered_by_depth(entries: Seq<DirtyScope>)
    requires
        ordered(entries),
    ensures
        forall|i: int, j: int|
            0 <= i <= j < entries.len() ==> (#[trigger] entries[i]).height <= (
            #[trigger] entries[j]).height,
        entries.no_duplicates(),
{
    assert forall|i: int, j: int| 0 <= i <= j < entries.len() implies (#[trigger] entries[i]).height
        <= (#[trigger] entries[j]).height by {
        if i < j {
            assert(dirty_before(entries[i], entries[j]));
        }
    }
    assert forall|i: int, j: int| 0 <= i < entries.len() && 0 <= j < entries.len() && i
        != j implies entries[i] != entries[j] by {
        if i < j {
            assert(dirty_before(entries[i], entries[j]));
        } else {
            assert(dirty_before(entries[j], entries[i]));
        }
    }
}

} // verus!
