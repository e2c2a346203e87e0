use mut_set::ordered_set::MutOrderedSet;

#[test]
fn insert() {
    let mut set = MutOrderedSet::new();

    set.insert(16);
    set.insert(1);
    set.insert(13);
    set.insert(12);

    let set_v: Vec<i32> = set.into_iter().collect();
    assert_eq!(set_v, [16, 1, 13, 12]);
}

#[test]
fn insert_repeat_value() {
    let mut set = MutOrderedSet::new();

    set.insert(16);
    set.insert(1);
    set.insert(13);
    set.insert(12);
    set.insert(1);
    set.insert(16);

    let set_v: Vec<i32> = set.into_iter().collect();
    assert_eq!(set_v, [16, 1, 13, 12]);
}

#[test]
fn insert_and_remove() {
    let mut set = MutOrderedSet::new();

    set.insert(16);
    set.insert(1);
    set.insert(13);
    set.remove(&16);
    set.remove(&1);
    set.insert(16);
    set.insert(13);
    set.insert(9);

    let set_v: Vec<i32> = set.into_iter().collect();
    assert_eq!(set_v, [13, 16, 9]);
}

#[test]
fn iter() {
    let mut set = MutOrderedSet::new();

    set.insert(1);
    set.insert(5);
    set.insert(2);

    let mut set_v1: Vec<i32> = set.iter().collect().into_iter().map(|x| x * x).collect();
    let set_v2: Vec<i32> = set.iter().collect().into_iter().map(|x| x * 2).collect();
    set_v1.extend(set_v2);

    assert_eq!(set_v1, [1, 25, 4, 2, 10, 4]);
}

#[test]
fn iter_mut() {
    let mut set = MutOrderedSet::new();

    set.insert(1);
    set.insert(5);
    set.insert(2);

    let mut pass = set.iter_mut();
    while let Some(x) = pass.next() {
        *x *= 2;
    }
    let set_v: Vec<&i32> = set.iter().collect();

    assert_eq!(set_v, [&2, &10, &4]);
}

#[test]
fn new_set_is_empty() {
    let set: MutOrderedSet<u32> = MutOrderedSet::new();
    assert_eq!(set.len(), 0);
    assert!(set.iter().next().is_none());
    assert!(set.iter().collect().is_empty());
    assert!(set.into_iter().next().is_none());
}

#[test]
fn insert_hands_out_the_stored_value() {
    let mut set = MutOrderedSet::new();
    assert_eq!(*set.insert(7u64), 7);
    let stored = set.insert(8u64);
    *stored = 80;
    assert_eq!(set.iter().collect(), [&7, &80]);
    // the element is still known by the key it was inserted under
    assert!(set.remove(&8));
    assert!(!set.remove(&80));
    assert_eq!(set.iter().collect(), [&7]);
}

#[test]
fn len_counts_each_key_once() {
    let mut set = MutOrderedSet::new();
    assert_eq!(set.len(), 0);
    set.insert(3i64);
    set.insert(-3i64);
    set.insert(3i64);
    assert_eq!(set.len(), 2);
    set.remove(&3);
    assert_eq!(set.len(), 1);
    set.remove(&3);
    assert_eq!(set.len(), 1);
}

#[test]
fn len_equals_length_of_a_whole_pass() {
    let mut set = MutOrderedSet::new();
    for x in [4u8, 9, 4, 1, 200, 9, 0] {
        set.insert(x);
        assert_eq!(set.len(), set.iter().collect().len());
    }
    set.remove(&9);
    assert_eq!(set.len(), set.iter().collect().len());
    assert_eq!(set.len(), 4);
}

#[test]
fn two_passes_agree() {
    let mut set = MutOrderedSet::new();
    set.extend(vec![5u16, 3, 8, 3]);
    let first: Vec<u16> = set.iter().collect().into_iter().copied().collect();
    let second: Vec<u16> = set.iter().collect().into_iter().copied().collect();
    assert_eq!(first, second);
    assert_eq!(first, [5, 3, 8]);
}

#[test]
fn remove_of_absent_value_changes_nothing() {
    let mut set = MutOrderedSet::new();
    assert!(!set.remove(&1));
    set.extend(vec![10i32, 20, 30]);
    assert!(!set.remove(&40));
    assert_eq!(set.iter().collect(), [&10, &20, &30]);
    assert!(set.remove(&20));
    assert!(!set.remove(&20));
    assert_eq!(set.iter().collect(), [&10, &30]);
    assert_eq!(set.len(), 2);
}

#[test]
fn remove_head_middle_and_tail() {
    let mut set = MutOrderedSet::new();
    set.extend(vec![1u32, 2, 3, 4, 5]);
    assert!(set.remove(&1));
    assert_eq!(set.iter().collect(), [&2, &3, &4, &5]);
    assert!(set.remove(&5));
    assert_eq!(set.iter().collect(), [&2, &3, &4]);
    assert!(set.remove(&3));
    assert_eq!(set.iter().collect(), [&2, &4]);
    assert!(set.remove(&2));
    assert!(set.remove(&4));
    assert_eq!(set.len(), 0);
    assert!(set.iter().collect().is_empty());
    set.insert(6);
    assert_eq!(set.into_iter().collect(), [6]);
}

#[test]
fn reinserted_value_goes_to_the_tail() {
    let mut set = MutOrderedSet::new();
    set.extend(vec![1i8, 2, 3]);
    set.remove(&1);
    set.insert(1);
    assert_eq!(set.iter().collect(), [&2, &3, &1]);
    set.remove(&3);
    set.insert(3);
    assert_eq!(set.into_iter().collect(), [2, 1, 3]);
}

#[test]
fn reclaimed_slots_are_used_again() {
    let mut set = MutOrderedSet::new();
    for round in 0..50u32 {
        set.insert(round);
        set.insert(round + 1000);
        assert!(set.remove(&round));
    }
    assert_eq!(set.len(), 50);
    let all: Vec<u32> = set.into_iter().collect();
    let expected: Vec<u32> = (1000..1050).collect();
    assert_eq!(all, expected);
}

#[test]
fn extend_inserts_first_to_last() {
    let mut set = MutOrderedSet::new();
    set.insert(2usize);
    set.extend(vec![3, 2, 1, 3]);
    assert_eq!(set.iter().collect(), [&2, &3, &1]);
    set.extend(Vec::new());
    assert_eq!(set.len(), 3);
}

#[test]
fn mutable_pass_keeps_keys() {
    let mut set = MutOrderedSet::new();
    set.extend(vec![1i32, 5, 2]);
    let mut pass = set.iter_mut();
    while let Some(x) = pass.next() {
        *x *= 2;
    }
    // 2 is still the key of what now holds 4, so this replaces in place
    set.insert(2);
    assert_eq!(set.iter().collect(), [&2, &10, &2]);
    assert_eq!(set.len(), 3);
    // 10 was never a key
    assert!(!set.remove(&10));
    assert!(set.remove(&5));
    assert_eq!(set.into_iter().collect(), [2, 2]);
}

#[test]
fn mutable_pass_on_empty_set() {
    let mut set: MutOrderedSet<u8> = MutOrderedSet::new();
    let mut pass = set.iter_mut();
    assert!(pass.next().is_none());
    assert!(pass.next().is_none());
}

#[test]
fn draining_pass_gives_each_value_once() {
    let mut set = MutOrderedSet::new();
    set.extend(vec![7isize, -7, 0]);
    let mut pass = set.into_iter();
    assert_eq!(pass.next(), Some(7));
    assert_eq!(pass.next(), Some(-7));
    assert_eq!(pass.next(), Some(0));
    assert_eq!(pass.next(), None);
    assert_eq!(pass.next(), None);
}

#[test]
fn read_only_pass_steps() {
    let mut set = MutOrderedSet::new();
    set.extend(vec![9u64, 8]);
    let mut pass = set.iter();
    assert_eq!(pass.next(), Some(&9));
    assert_eq!(pass.next(), Some(&8));
    assert_eq!(pass.next(), None);
    assert_eq!(pass.next(), None);
}

#[test]
fn get_key_is_the_lookup_key() {
    let set: MutOrderedSet<i32> = MutOrderedSet::new();
    assert_eq!(set.get_key(&0), 1u64 << 63);
    assert_eq!(set.get_key(&-1), (1u64 << 63) - 1);
    let unsigned: MutOrderedSet<u32> = MutOrderedSet::new();
    assert_eq!(unsigned.get_key(&16), 16);
}

#[test]
fn render_lists_values_in_order() {
    let mut set = MutOrderedSet::new();
    assert_eq!(set.render(), "[]");
    set.insert(16);
    assert_eq!(set.render(), "[16]");
    set.extend(vec![1, -13, 12]);
    set.remove(&1);
    assert_eq!(set.render(), "[16, -13, 12]");
}
