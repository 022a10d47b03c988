use bitvset::{SmallIntMap, VecUtils};

fn pairs(m: &SmallIntMap<&'static str>) -> Vec<(usize, &'static str)> {
    let mut it = m.iter();
    let mut out = Vec::new();
    while let Some((k, v)) = it.next() {
        out.push((k, *v));
    }
    out
}

#[test]
fn occupancy_after_insert_and_remove() {
    let mut m = SmallIntMap::new();
    assert!(m.insert(5, "five"));
    assert_eq!(m.len(), 1);
    assert!(m.contains_key(&5));
    assert!(!m.contains_key(&4));
    assert!(m.remove(&5));
    assert_eq!(m.len(), 0);
}

#[test]
fn insert_existing_key_reports_present() {
    let mut m = SmallIntMap::new();
    assert!(m.insert(2, 10));
    assert!(!m.insert(2, 20));
    assert_eq!(*m.get(&2), 20);
    assert_eq!(m.len(), 1);
}

#[test]
fn lookups_past_occupied_count_within_slots() {
    let mut m = SmallIntMap::new();
    m.insert(0, "a");
    m.insert(3, "b");
    assert!(m.remove(&0));
    assert_eq!(m.len(), 1);
    assert_eq!(m.find(&2), Some(&"b"));
    assert!(m.contains_key(&2));
    assert_eq!(*m.get(&2), "b");
    assert_eq!(m.find(&3), None);
}

#[test]
fn find_and_find_mut() {
    let mut m = SmallIntMap::new();
    m.insert(1, 7);
    assert_eq!(m.find(&0), None);
    assert_eq!(m.find(&1), Some(&7));
    assert_eq!(m.find(&100), None);
    if let Some(v) = m.find_mut(&1) {
        *v = 8;
    }
    assert_eq!(m.find(&1), Some(&8));
    assert!(m.find_mut(&0).is_none());
    assert!(m.find_mut(&50).is_none());
}

#[test]
fn push_pop_and_emptiness() {
    let mut m = SmallIntMap::new();
    assert!(m.is_empty());
    m.push(4);
    m.push(6);
    assert!(!m.is_empty());
    assert_eq!(m.len(), 2);
    assert_eq!(m.pop(&1), Some(6));
    assert_eq!(m.pop(&1), None);
    assert_eq!(m.pop(&9), None);
    assert_eq!(m.len(), 1);
    assert_eq!(m.pop(&0), Some(4));
    assert!(m.is_empty());
}

#[test]
fn remove_absent_and_past_end() {
    let mut m: SmallIntMap<u8> = SmallIntMap::new();
    assert!(!m.remove(&3));
    m.insert(2, 1);
    assert!(!m.remove(&0));
    assert_eq!(m.find(&1), Some(&1));
}

#[test]
fn clear_drops_everything() {
    let mut m = SmallIntMap::new();
    m.insert(3, 'x');
    m.clear();
    assert_eq!(m.len(), 0);
    assert!(m.is_empty());
    assert!(!m.contains_key(&3));
}

#[test]
fn iteration_yields_occupied_in_key_order() {
    let mut m = SmallIntMap::new();
    m.insert(4, "d");
    m.insert(1, "a");
    m.insert(2, "b");
    assert_eq!(pairs(&m), vec![(1, "a"), (2, "b"), (4, "d")]);
    assert!(pairs(&SmallIntMap::new()).is_empty());
}

#[test]
fn vec_unshift_shift_count() {
    let mut v = vec![2, 3];
    v.unshift(1);
    assert_eq!(v, vec![1, 2, 3]);
    assert_eq!(v.shift(), 1);
    assert_eq!(v, vec![2, 3]);
    assert_eq!(v.count(&|x: &i32| *x > 2), 1);
    assert_eq!(v.count(&|x: &i32| *x > 0), 2);
    let empty: Vec<i32> = Vec::new();
    assert_eq!(empty.count(&|_x: &i32| true), 0);
}

#[test]
fn iterator_size_hint_counts_slots_left() {
    let mut m = SmallIntMap::new();
    m.insert(3, 1u8);
    let mut it = m.iter();
    assert_eq!(it.size_hint(), (0, Some(4)));
    assert_eq!(it.next(), Some((3, &1u8)));
    assert_eq!(it.size_hint(), (0, Some(0)));
    assert_eq!(it.next(), None);
}

#[test]
fn iter_mut_changes_values_in_place() {
    let mut m = SmallIntMap::new();
    m.insert(0, 1);
    m.insert(2, 5);
    for slot in m.iter_mut().iter_mut() {
        if let Some(v) = slot {
            *v *= 10;
        }
    }
    assert_eq!(m.find(&0), Some(&10));
    assert_eq!(m.find(&1), None);
    assert_eq!(m.find(&2), Some(&50));
    assert_eq!(m.len(), 2);
}

#[test]
fn exhausted_map_iterator_stays_exhausted() {
    let mut m = SmallIntMap::new();
    m.insert(1, 'a');
    let mut it = m.iter();
    assert_eq!(it.next(), Some((1, &'a')));
    assert_eq!(it.next(), None);
    assert_eq!(it.next(), None);
}
