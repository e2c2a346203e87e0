use mut_set::render::list_texts;
use mut_set::set::MutSet;

fn sorted(mut v: Vec<i32>) -> Vec<i32> {
    v.sort();
    v
}

#[test]
fn plain_insert_reports_new_keys() {
    let mut set = MutSet::new();
    assert!(set.insert(3));
    assert!(set.insert(4));
    assert!(!set.insert(3));
    assert_eq!(set.len(), 2);
}

#[test]
fn plain_new_is_empty() {
    let set: MutSet<u8> = MutSet::new();
    assert_eq!(set.len(), 0);
    assert!(set.iter().next().is_none());
    assert!(set.into_iter().next().is_none());
}

#[test]
fn plain_iter_gives_each_value_once() {
    let mut set = MutSet::new();
    set.extend(vec![5, 1, 5, 9, 1]);
    let mut pass = set.iter();
    let mut seen = Vec::new();
    while let Some(x) = pass.next() {
        seen.push(*x);
    }
    assert!(pass.next().is_none());
    assert_eq!(sorted(seen), [1, 5, 9]);
    assert_eq!(set.len(), 3);
}

#[test]
fn plain_iter_mut_changes_values_in_place() {
    let mut set = MutSet::new();
    set.extend(vec![1, 5, 2]);
    let mut pass = set.iter_mut();
    let mut given = 0;
    while let Some(x) = pass.next() {
        *x *= 10;
        given += 1;
    }
    assert!(pass.next().is_none());
    assert_eq!(given, 3);
    let mut pass = set.iter();
    let mut seen = Vec::new();
    while let Some(x) = pass.next() {
        seen.push(*x);
    }
    assert_eq!(sorted(seen), [10, 20, 50]);
    assert_eq!(set.len(), 3);
    // the keys are those of 1, 5 and 2
    assert!(!set.insert(5));
    assert!(set.insert(50));
}

#[test]
fn plain_into_iter_gives_values_away() {
    let mut set = MutSet::new();
    set.extend(vec![-2, 0, 2, 0]);
    let mut pass = set.into_iter();
    let mut seen = Vec::new();
    while let Some(x) = pass.next() {
        seen.push(x);
    }
    assert!(pass.next().is_none());
    assert_eq!(sorted(seen), [-2, 0, 2]);
}

#[test]
fn plain_insert_replaces_the_stored_value() {
    let mut set = MutSet::new();
    set.insert(6);
    let mut pass = set.iter_mut();
    while let Some(x) = pass.next() {
        *x = 60;
    }
    set.insert(6);
    assert_eq!(set.into_iter().next(), Some(6));
}

#[test]
fn plain_render() {
    let mut set = MutSet::new();
    assert_eq!(set.render(), "{}");
    set.insert(-4);
    assert_eq!(set.render(), "{-4}");
    set.insert(8);
    let text = set.render();
    assert!(text == "{-4, 8}" || text == "{8, -4}");
}

#[test]
fn list_texts_joins_with_commas() {
    let none: Vec<String> = Vec::new();
    assert_eq!(list_texts("[", &none, "]"), "[]");
    assert_eq!(list_texts("[", &vec![String::from("a")], "]"), "[a]");
    let three = vec![String::from("a"), String::from(""), String::from("c d")];
    assert_eq!(list_texts("<", &three, ">"), "<a, , c d>");
    assert_eq!(list_texts("", &three, ""), "a, , c d");
}

#[test]
fn plain_iter_mut_on_empty_set() {
    let mut set: MutSet<u16> = MutSet::new();
    let mut pass = set.iter_mut();
    assert!(pass.next().is_none());
    assert!(pass.next().is_none());
    assert_eq!(set.len(), 0);
}

#[test]
fn plain_iter_mut_hands_out_what_is_stored() {
    let mut set = MutSet::new();
    set.extend(vec![4, 7]);
    let mut pass = set.iter_mut();
    let mut seen = Vec::new();
    while let Some(x) = pass.next() {
        seen.push(*x);
        *x += 1;
    }
    assert_eq!(sorted(seen), [4, 7]);
    let mut after = Vec::new();
    let mut pass = set.iter();
    while let Some(x) = pass.next() {
        after.push(*x);
    }
    assert_eq!(sorted(after), [5, 8]);
}
