use gallerina::diff::{compare_entries, EntryMap};

fn sorted(mut v: Vec<String>) -> Vec<String> {
    v.sort();
    v
}

fn map_of(pairs: &[(&str, i64)]) -> EntryMap {
    let mut m = EntryMap::new();
    for (name, mtime) in pairs {
        m.insert(name, *mtime);
    }
    m
}

#[test]
fn compare_sorts_names_into_new_updated_and_deleted() {
    let scan = map_of(&[("a.jpg", 10), ("b.jpg", 20), ("c.jpg", 30)]);
    let db = map_of(&[("b.jpg", 20), ("c.jpg", 31), ("d.jpg", 40)]);
    let r = compare_entries(&scan, &db);
    assert_eq!(r.new, vec!["a.jpg".to_string()]);
    assert_eq!(r.update, vec!["c.jpg".to_string()]);
    assert_eq!(r.del, vec!["d.jpg".to_string()]);
}

#[test]
fn compare_does_not_depend_on_the_order_of_arrival() {
    let scan1 = map_of(&[("a", 1), ("b", 2), ("c", 3), ("d", 4)]);
    let scan2 = map_of(&[("d", 4), ("c", 3), ("b", 2), ("a", 1)]);
    let db1 = map_of(&[("b", 2), ("c", 9), ("x", 1), ("y", 2)]);
    let db2 = map_of(&[("y", 2), ("x", 1), ("c", 9), ("b", 2)]);
    let r1 = compare_entries(&scan1, &db1);
    let r2 = compare_entries(&scan2, &db2);
    assert_eq!(sorted(r1.new), sorted(r2.new));
    assert_eq!(sorted(r1.update), sorted(r2.update));
    assert_eq!(sorted(r1.del), sorted(r2.del));
}

#[test]
fn compare_of_a_level_with_itself_finds_nothing() {
    let scan = map_of(&[("a", 1), ("b", 2)]);
    let db = map_of(&[("b", 2), ("a", 1)]);
    let r = compare_entries(&scan, &db);
    assert!(r.new.is_empty());
    assert!(r.update.is_empty());
    assert!(r.del.is_empty());
}
