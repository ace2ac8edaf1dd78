use scope_arena::dirty::DirtyScope;
use scope_arena::dirty::DirtySet;
use scope_arena::scopes::ScopeId;
use scope_arena::slot_table::SlotTable;

#[test]
fn empty_table_hands_out_key_zero() {
    let table: SlotTable<u32> = SlotTable::new();
    assert_eq!(table.len(), 0);
    assert_eq!(table.capacity(), 0);
    assert_eq!(table.vacant_key(), 0);
    assert!(!table.contains(0));
    assert!(table.get(0).is_none());
}

#[test]
fn insert_uses_the_vacant_key() {
    let mut table = SlotTable::new();
    let next = table.vacant_key();
    let a = table.insert("a");
    assert_eq!(a, next);
    let b = table.insert("b");
    let c = table.insert("c");
    assert_eq!((a, b, c), (0, 1, 2));
    assert_eq!(table.len(), 3);
    assert_eq!(table.get(1), Some(&"b"));
    assert!(table.contains(2));
    assert!(!table.contains(3));
}

#[test]
fn removal_keeps_the_other_keys() {
    let mut table = SlotTable::new();
    let a = table.insert(10);
    let b = table.insert(20);
    let c = table.insert(30);
    assert_eq!(table.remove(b), Some(20));
    assert_eq!(table.get(a), Some(&10));
    assert_eq!(table.get(c), Some(&30));
    assert_eq!(table.get(b), None);
    assert_eq!(table.len(), 2);
    assert_eq!(table.capacity(), 3);
}

#[test]
fn removing_twice_gives_nothing() {
    let mut table = SlotTable::new();
    let a = table.insert(1);
    assert_eq!(table.remove(a), Some(1));
    assert_eq!(table.remove(a), None);
    assert_eq!(table.remove(99), None);
    assert_eq!(table.len(), 0);
}

#[test]
fn a_removed_key_is_the_first_to_be_reused() {
    let mut table = SlotTable::new();
    let a = table.insert('a');
    let b = table.insert('b');
    let c = table.insert('c');
    table.remove(a);
    table.remove(c);
    assert_eq!(table.vacant_key(), c);
    assert_eq!(table.insert('x'), c);
    assert_eq!(table.vacant_key(), a);
    assert_eq!(table.insert('y'), a);
    assert_eq!(table.insert('z'), 3);
    assert_eq!(table.get(b), Some(&'b'));
    assert_eq!(table.get(a), Some(&'y'));
    assert_eq!(table.get(c), Some(&'x'));
}

#[test]
fn a_live_key_is_never_handed_out() {
    let mut table = SlotTable::new();
    let mut live = Vec::new();
    for round in 0..50usize {
        let key = table.insert(round);
        assert!(!live.contains(&key));
        live.push(key);
        if round % 3 == 2 {
            let gone = live.remove(round % live.len());
            assert!(table.remove(gone).is_some());
        }
    }
    assert_eq!(table.len(), live.len());
    for key in live {
        assert!(table.contains(key));
    }
}

#[test]
fn get_mut_changes_one_value() {
    let mut table = SlotTable::new();
    let a = table.insert(1);
    let b = table.insert(2);
    *table.get_mut(a).unwrap() = 7;
    assert_eq!(table.get(a), Some(&7));
    assert_eq!(table.get(b), Some(&2));
    assert!(table.get_mut(5).is_none());
    assert_eq!(table.vacant_key(), 2);
}

fn entry(height: u32, id: usize) -> DirtyScope {
    DirtyScope { height, id: ScopeId(id) }
}

#[test]
fn dirty_set_orders_by_depth() {
    let mut set = DirtySet::new();
    assert!(set.is_empty());
    assert!(set.insert(entry(2, 0)));
    assert!(set.insert(entry(0, 1)));
    assert!(set.insert(entry(1, 2)));
    assert!(set.insert(entry(0, 3)));
    assert_eq!(set.len(), 4);
    let mut depths = Vec::new();
    let mut ids = Vec::new();
    while let Some(next) = set.pop_first() {
        depths.push(next.height);
        ids.push(next.id.0);
    }
    assert_eq!(depths, vec![0, 0, 1, 2]);
    assert_eq!(ids, vec![1, 3, 2, 0]);
    assert!(set.is_empty());
    assert_eq!(set.pop_first(), None);
}

#[test]
fn dirty_set_holds_an_entry_once() {
    let mut set = DirtySet::new();
    assert!(set.insert(entry(1, 4)));
    assert!(!set.insert(entry(1, 4)));
    assert_eq!(set.len(), 1);
    assert!(set.contains(&entry(1, 4)));
    assert!(!set.contains(&entry(1, 5)));
    assert!(!set.contains(&entry(2, 4)));
}

#[test]
fn dirty_set_remove_takes_one_entry() {
    let mut set = DirtySet::new();
    set.insert(entry(3, 1));
    set.insert(entry(1, 2));
    set.insert(entry(2, 3));
    assert!(set.remove(&entry(2, 3)));
    assert!(!set.remove(&entry(2, 3)));
    assert!(!set.remove(&entry(9, 9)));
    assert_eq!(set.len(), 2);
    assert_eq!(set.first(), Some(entry(1, 2)));
    assert_eq!(set.pop_first(), Some(entry(1, 2)));
    assert_eq!(set.first(), Some(entry(3, 1)));
}

#[test]
fn dirty_set_breaks_ties_by_identifier() {
    let mut set = DirtySet::new();
    set.insert(entry(1, 9));
    set.insert(entry(1, 3));
    set.insert(entry(1, 6));
    assert_eq!(set.pop_first(), Some(entry(1, 3)));
    assert_eq!(set.pop_first(), Some(entry(1, 6)));
    assert_eq!(set.pop_first(), Some(entry(1, 9)));
}
