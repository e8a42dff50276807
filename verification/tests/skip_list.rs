//! Tests of the skip list.

use fuchsia::lsm_tree::skip_list_layer::{
    pointer_count_for, PendingCommit, SkipListLayer, SkipListLayerIter, SkipListLayerIterMut,
};
use fuchsia::lsm_tree::types::{Bound, Item, ItemRef};
use fuchsia::math::{floor_log2, single_precision_log2};

type List = SkipListLayer<i32, i32>;

fn pair(item: Option<ItemRef<'_, i32, i32>>) -> Option<(i32, i32)> {
    item.map(|item| (*item.key, *item.value))
}

fn finish(list: &mut List, pending: Option<PendingCommit>) {
    if let Some(pending) = pending {
        assert!(list.poll_commit(&pending));
    }
}

fn insert(list: &mut List, key: i32, value: i32) {
    let pending = list.insert(Item::new(key, value));
    finish(list, pending);
}

fn erase(list: &mut List, key: i32) -> Option<PendingCommit> {
    list.erase(Item::new(key, 0).as_item_ref())
}

fn commit(list: &mut List, iter: SkipListLayerIterMut) {
    let pending = list.commit(iter);
    finish(list, pending);
}

fn contents(list: &mut List) -> Vec<(i32, i32)> {
    let mut iter = list.seek(Bound::Unbounded);
    let items = rest(list, &mut iter);
    list.release(iter);
    items
}

fn rest(list: &List, iter: &mut SkipListLayerIter) -> Vec<(i32, i32)> {
    let mut items = Vec::new();
    while let Some(item) = pair(list.get(iter)) {
        items.push(item);
        list.advance(iter);
    }
    items
}

#[test]
fn test_iteration() {
    // Insert two items and make sure we can iterate back in the correct order.
    let mut list = List::new(100);
    insert(&mut list, 2, 2);
    insert(&mut list, 1, 1);
    let mut iter = list.seek(Bound::Unbounded);
    assert_eq!(pair(list.get(&iter)), Some((1, 1)));
    list.advance(&mut iter);
    assert_eq!(pair(list.get(&iter)), Some((2, 2)));
    list.advance(&mut iter);
    assert_eq!(pair(list.get(&iter)), None);
    list.advance(&mut iter);
    assert_eq!(pair(list.get(&iter)), None);
}

#[test]
fn test_seek_exact() {
    let mut list = List::new(100);
    for i in (0..100).rev() {
        insert(&mut list, i, i);
    }
    let mut iter = list.seek(Bound::Included(&57));
    assert_eq!(pair(list.get(&iter)), Some((57, 57)));
    list.advance(&mut iter);
    assert_eq!(pair(list.get(&iter)), Some((58, 58)));
}

#[test]
fn test_seek_lower_bound() {
    let mut list = List::new(100);
    for i in (0..100).rev() {
        insert(&mut list, i * 3, i * 3);
    }
    let mut expected_index = 57 * 3;
    let mut iter = list.seek(Bound::Included(&(expected_index - 1)));
    assert_eq!(pair(list.get(&iter)), Some((expected_index, expected_index)));
    expected_index += 3;
    list.advance(&mut iter);
    assert_eq!(pair(list.get(&iter)), Some((expected_index, expected_index)));
}

#[test]
fn test_replace_or_insert_replaces() {
    let mut list = List::new(100);
    insert(&mut list, 2, 2);
    insert(&mut list, 1, 1);
    let pending = list.replace_or_insert(Item::new(2, 3));
    finish(&mut list, pending);
    assert_eq!(contents(&mut list), vec![(1, 1), (2, 3)]);
    let pending = list.replace_or_insert(Item::new(2, 4));
    finish(&mut list, pending);
    assert_eq!(contents(&mut list), vec![(1, 1), (2, 4)]);
    assert_eq!(list.allocated(), 2);
}

#[test]
fn test_replace_or_insert_inserts() {
    let mut list = List::new(100);
    insert(&mut list, 3, 3);
    insert(&mut list, 1, 1);
    let pending = list.replace_or_insert(Item::new(2, 2));
    finish(&mut list, pending);
    assert_eq!(contents(&mut list), vec![(1, 1), (2, 2), (3, 3)]);
}

#[test]
fn test_erase() {
    let mut list = List::new(100);
    let items = [Item::new(1, 1), Item::new(2, 2)];
    insert(&mut list, 2, 2);
    insert(&mut list, 1, 1);
    let pending = list.erase(items[1].as_item_ref());
    assert!(pending.is_some());
    finish(&mut list, pending);
    assert_eq!(contents(&mut list), vec![(1, 1)]);
    // Erasing what is not there does nothing.
    assert!(list.erase(items[1].as_item_ref()).is_none());
    assert!(erase(&mut list, 0).is_none());
    assert_eq!(contents(&mut list), vec![(1, 1)]);
    let pending = list.erase(items[0].as_item_ref());
    finish(&mut list, pending);
    assert!(contents(&mut list).is_empty());
    assert_eq!(list.allocated(), 0);
}

#[test]
fn test_large_number_of_items() {
    let item_count = 1000;
    let mut list = List::new(1000);
    for i in 1..item_count {
        insert(&mut list, i, 1);
    }
    let mut iter = list.seek(Bound::Included(&(item_count - 10)));
    for i in item_count - 10..item_count {
        assert_eq!(pair(list.get(&iter)), Some((i, 1)));
        list.advance(&mut iter);
    }
    assert!(list.get(&iter).is_none());
}

#[test]
fn test_mutliple_readers_allowed() {
    let mut list = List::new(100);
    insert(&mut list, 2, 2);
    insert(&mut list, 1, 1);
    let mut iter = list.seek(Bound::Unbounded);
    assert_eq!(pair(list.get(&iter)), Some((1, 1)));
    let iter2 = list.seek(Bound::Unbounded);
    assert_eq!(pair(list.get(&iter2)), Some((1, 1)));
    list.advance(&mut iter);
    assert_eq!(pair(list.get(&iter)), Some((2, 2)));
}

#[test]
fn test_two_inserts() {
    let mut list = List::new(100);
    let mut iter = list.iter_mut(Bound::Unbounded);
    iter.insert(&mut list, Item::new(1, 1));
    iter.insert(&mut list, Item::new(2, 2));
    commit(&mut list, iter);
    assert_eq!(contents(&mut list), vec![(1, 1), (2, 2)]);
}

#[test]
fn test_erase_after_insert() {
    let mut list = List::new(100);
    insert(&mut list, 2, 2);
    let mut iter = list.iter_mut(Bound::Unbounded);
    iter.insert(&mut list, Item::new(1, 1));
    iter.erase(&mut list);
    commit(&mut list, iter);
    assert_eq!(contents(&mut list), vec![(1, 1)]);
    assert_eq!(list.allocated(), 1);
}

#[test]
fn test_insert_after_erase() {
    let mut list = List::new(100);
    insert(&mut list, 2, 2);
    let mut iter = list.iter_mut(Bound::Unbounded);
    iter.erase(&mut list);
    iter.insert(&mut list, Item::new(1, 1));
    commit(&mut list, iter);
    assert_eq!(contents(&mut list), vec![(1, 1)]);
}

#[test]
fn test_insert_erase_insert() {
    let mut list = List::new(100);
    insert(&mut list, 1, 1);
    let mut iter = list.iter_mut(Bound::Unbounded);
    iter.insert(&mut list, Item::new(2, 2));
    iter.erase(&mut list);
    iter.insert(&mut list, Item::new(3, 3));
    commit(&mut list, iter);
    assert_eq!(contents(&mut list), vec![(2, 2), (3, 3)]);
}

#[test]
fn test_two_erase_erases() {
    let mut list = List::new(100);
    insert(&mut list, 1, 1);
    insert(&mut list, 2, 2);
    insert(&mut list, 3, 3);
    let mut iter = list.iter_mut(Bound::Unbounded);
    iter.erase(&mut list);
    iter.erase(&mut list);
    commit(&mut list, iter);
    assert_eq!(contents(&mut list), vec![(3, 3)]);
}

#[test]
fn test_readers_not_blocked_by_writers() {
    let mut list = List::new(100);
    insert(&mut list, 2, 2);
    let mut iter = list.seek(Bound::Unbounded);
    let mut iter2 = list.seek(Bound::Unbounded);
    assert_eq!(pair(list.get(&iter)), Some((2, 2)));

    let pending = list.insert(Item::new(1, 1)).unwrap();
    // New readers see the new item while the commit waits for the old readers.
    assert!(!list.poll_commit(&pending));
    let iter3 = list.seek(Bound::Unbounded);
    assert_eq!(pair(list.get(&iter3)), Some((1, 1)));

    list.advance(&mut iter);
    assert!(list.get(&iter).is_none());
    assert!(!list.release(iter));
    assert!(!list.poll_commit(&pending));
    list.advance(&mut iter2);
    assert!(list.get(&iter2).is_none());
    // The last of the old readers wakes the writer.
    assert!(list.release(iter2));
    assert!(list.poll_commit(&pending));
    assert!(!list.release(iter3));
}

#[test]
fn test_many_readers_and_writers() {
    // Ten writers and ten readers take turns, one step at a time.
    let mut list = List::new(100);
    let mut items: Vec<(i32, i32)> = Vec::new();
    for j in 0..10 {
        for i in 0..10 {
            items.push((i * 100 + j, i));
        }
    }
    let mut written = 0;
    let mut pending: Option<PendingCommit> = None;
    let mut readers: Vec<Option<(SkipListLayerIter, Option<i32>)>> = Vec::new();
    for _ in 0..10 {
        readers.push(None);
    }
    let mut walks = 0;
    while walks < 3000 || written < items.len() || pending.is_some() {
        pending = match pending {
            Some(pending) => {
                if list.poll_commit(&pending) {
                    None
                } else {
                    Some(pending)
                }
            }
            None if written < items.len() => {
                let (key, value) = items[written];
                written += 1;
                list.insert(Item::new(key, value))
            }
            None => None,
        };
        for reader in readers.iter_mut() {
            let (mut iter, last) = match reader.take() {
                Some(reader) => reader,
                None => (list.seek(Bound::Unbounded), None),
            };
            match pair(list.get(&iter)) {
                Some((key, _)) => {
                    if let Some(last) = last {
                        assert!(key > last);
                    }
                    list.advance(&mut iter);
                    *reader = Some((iter, Some(key)));
                }
                None => {
                    list.release(iter);
                    walks += 1;
                }
            }
        }
    }
    for reader in readers {
        if let Some((iter, _)) = reader {
            list.release(iter);
        }
    }
    items.sort();
    assert_eq!(contents(&mut list), items);
    assert_eq!(list.allocated(), 100);
}

#[test]
fn readers_of_erased_items_read_on() {
    let mut list = List::new(100);
    for i in 0..10 {
        insert(&mut list, i, i);
    }
    let mut first = list.seek(Bound::Unbounded);
    let mut erased = list.seek(Bound::Included(&3));
    let mut iter = list.iter_mut(Bound::Included(&3));
    iter.erase(&mut list);
    iter.erase(&mut list);
    iter.insert(&mut list, Item::new(4, 40));
    let pending = list.commit(iter).unwrap();
    assert!(!list.poll_commit(&pending));
    // The reader on an erased item reads the old items, the one before sees the new ones.
    assert_eq!(
        rest(&list, &mut erased),
        vec![(3, 3), (4, 4), (5, 5), (6, 6), (7, 7), (8, 8), (9, 9)]
    );
    let new = vec![(0, 0), (1, 1), (2, 2), (4, 40), (5, 5), (6, 6), (7, 7), (8, 8), (9, 9)];
    assert_eq!(rest(&list, &mut first), new);
    assert!(!list.release(first));
    assert!(list.release(erased));
    assert!(list.poll_commit(&pending));
    assert_eq!(list.allocated(), 9);
    assert_eq!(contents(&mut list), new);
}

#[test]
fn test_insert_advance_erase() {
    let mut list = List::new(100);
    insert(&mut list, 2, 2);
    insert(&mut list, 3, 3);
    let mut iter = list.iter_mut(Bound::Unbounded);
    iter.insert(&mut list, Item::new(1, 1));
    list.advance_mut(&mut iter);
    iter.erase(&mut list);
    commit(&mut list, iter);
    assert_eq!(contents(&mut list), vec![(1, 1), (2, 2)]);
}

#[test]
fn advance_without_changes() {
    let mut list = List::new(100);
    for i in 0..5 {
        insert(&mut list, i, i);
    }
    let mut iter = list.iter_mut(Bound::Unbounded);
    list.advance_mut(&mut iter);
    list.advance_mut(&mut iter);
    assert_eq!(pair(iter.get(&list)), Some((2, 2)));
    for _ in 0..5 {
        list.advance_mut(&mut iter);
    }
    assert!(iter.get(&list).is_none());
    assert!(list.commit(iter).is_none());
    assert_eq!(contents(&mut list).len(), 5);
}

#[test]
fn equal_keys_go_before() {
    let mut list = List::new(100);
    insert(&mut list, 1, 1);
    insert(&mut list, 1, 2);
    assert_eq!(contents(&mut list), vec![(1, 2), (1, 1)]);
    let pending = erase(&mut list, 1);
    finish(&mut list, pending);
    assert_eq!(contents(&mut list), vec![(1, 1)]);
}

#[test]
fn many_changes_agree_with_a_sorted_map() {
    let mut list = List::new(64);
    let mut model = std::collections::BTreeMap::new();
    let mut x: u32 = 12345;
    for step in 0..3000 {
        x = x.wrapping_mul(1664525).wrapping_add(1013904223);
        let key = ((x >> 16) % 97) as i32;
        if x & 0x1000 == 0 {
            let pending = erase(&mut list, key);
            assert_eq!(pending.is_some(), model.remove(&key).is_some());
            finish(&mut list, pending);
        } else {
            let pending = list.replace_or_insert(Item::new(key, step));
            model.insert(key, step);
            finish(&mut list, pending);
        }
        assert_eq!(list.allocated(), model.len());
        if step % 100 == 0 {
            let expected: Vec<(i32, i32)> = model.iter().map(|(k, v)| (*k, *v)).collect();
            assert_eq!(contents(&mut list), expected);
        }
    }
}

#[test]
fn levels_and_heights() {
    assert_eq!(floor_log2(0), 0);
    assert_eq!(floor_log2(1), 0);
    assert_eq!(floor_log2(2), 1);
    assert_eq!(floor_log2(100), 6);
    assert_eq!(floor_log2(usize::MAX), usize::BITS as usize - 1);
    // With seven levels, half of the numbers below 127 give one pointer.
    assert_eq!(pointer_count_for(7, 0), 7);
    assert_eq!(pointer_count_for(7, 1), 7);
    assert_eq!(pointer_count_for(7, 2), 6);
    assert_eq!(pointer_count_for(7, 3), 6);
    assert_eq!(pointer_count_for(7, 63), 2);
    assert_eq!(pointer_count_for(7, 64), 1);
    assert_eq!(pointer_count_for(7, 126), 1);
    assert_eq!(pointer_count_for(1, 0), 1);
    let ones = (0..127).filter(|draw| pointer_count_for(7, *draw) == 1).count();
    assert_eq!(ones, 63);
}

#[test]
fn heights_are_drawn() {
    // Nodes of different heights come up when the iterator draws them itself.
    let mut list = List::new(1 << 10);
    for i in 0..200 {
        insert(&mut list, i, i);
    }
    assert_eq!(contents(&mut list).len(), 200);
    let mut drawn = List::new(1 << 10);
    for i in (0..200).rev() {
        let mut iter = drawn.iter_mut(Bound::Included(&i));
        iter.insert_with_draw(&mut drawn, Item::new(i, i), (i * 5) as u32);
        commit(&mut drawn, iter);
    }
    assert_eq!(contents(&mut drawn), contents(&mut list));
}

#[test]
fn mixed_changes_are_seen_at_once() {
    let mut list = List::new(100);
    for i in 0..5 {
        insert(&mut list, i * 10, i);
    }
    let before = contents(&mut list);
    let mut reader = list.seek(Bound::Unbounded);
    let mut iter = list.iter_mut(Bound::Included(&10));
    list.advance_mut(&mut iter);
    iter.insert(&mut list, Item::new(15, 100));
    assert_eq!(contents(&mut list), before);
    iter.erase(&mut list);
    list.advance_mut(&mut iter);
    iter.insert(&mut list, Item::new(35, 101));
    iter.insert(&mut list, Item::new(36, 102));
    iter.erase(&mut list);
    iter.erase(&mut list);
    list.advance_mut(&mut iter);
    assert_eq!(contents(&mut list), before);

    let pending = list.commit(iter).unwrap();
    let after = vec![(0, 0), (10, 1), (15, 100), (30, 3), (35, 101), (36, 102)];
    assert_eq!(contents(&mut list), after);
    // The three old nodes after the first change wait for the reader.
    assert_eq!(list.allocated(), 6 + 3);
    assert!(!list.poll_commit(&pending));
    assert_eq!(list.allocated(), 6 + 3);
    assert_eq!(rest(&list, &mut reader), after);
    assert!(list.release(reader));
    assert!(list.poll_commit(&pending));
    assert_eq!(list.allocated(), 6);
    assert_eq!(contents(&mut list), after);
}

#[test]
fn a_commit_without_changes_changes_nothing() {
    let mut list = List::new(100);
    insert(&mut list, 1, 1);
    insert(&mut list, 2, 2);
    let mut iter = list.iter_mut(Bound::Unbounded);
    list.advance_mut(&mut iter);
    list.advance_mut(&mut iter);
    iter.erase(&mut list);
    assert!(list.commit(iter).is_none());
    assert_eq!(contents(&mut list), vec![(1, 1), (2, 2)]);
    assert_eq!(list.allocated(), 2);
}

#[test]
fn levels_follow_single_precision() {
    // Close below a power of two, the logarithm is rounded up.
    assert_eq!(single_precision_log2(0), 0);
    assert_eq!(single_precision_log2(1), 0);
    assert_eq!(single_precision_log2(100), 6);
    assert_eq!(single_precision_log2((1 << 20) - 1), 19);
    assert_eq!(single_precision_log2((1 << 21) - 1), 21);
    assert_eq!(single_precision_log2((1 << 21) - 2), 20);
    assert_eq!(single_precision_log2((1 << 24) - 1), 24);
    assert_eq!(single_precision_log2((1 << 24) - 12), 23);
    assert_eq!(single_precision_log2((1 << 25) - 1), 25);
    for k in 0..usize::BITS {
        let power: usize = 1 << k;
        let step = 1.max(power >> 24);
        for i in 0..100 {
            for n in [power + i, power - 1 - (step * i).min(power - 1), power | (power / 100 * i)] {
                assert_eq!(single_precision_log2(n), (n as f32).log2() as usize, "{}", n);
            }
        }
    }
    assert_eq!(single_precision_log2(usize::MAX), (usize::MAX as f32).log2() as usize);
    assert_eq!(pointer_count_for(25, (1 << 24) - 1), 1);
    assert_eq!(pointer_count_for(26, (1 << 24) - 1), 2);
    assert_eq!(pointer_count_for(26, (1 << 24) - 12), 3);
}
