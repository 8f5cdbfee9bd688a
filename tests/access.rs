use system_param::access::{Access, AccessConflicts};

fn ids(c: &AccessConflicts) -> Vec<usize> {
    match c {
        AccessConflicts::All => panic!("expected individual conflicts"),
        AccessConflicts::Individual(v) => {
            let mut v = v.clone();
            v.sort();
            v
        }
    }
}

#[test]
fn new_access_is_empty() {
    let a = Access::new();
    assert!(a.is_empty());
    assert!(!a.has_read(3));
    assert!(!a.has_write(3));
    assert!(!a.has_read_all());
}

#[test]
fn write_implies_read() {
    let mut a = Access::new();
    a.add_write(4);
    assert!(a.has_write(4));
    assert!(a.has_read(4));
    assert!(!a.has_read(5));
    assert!(!a.is_empty());
}

#[test]
fn reads_do_not_conflict() {
    let mut a = Access::new();
    a.add_read(1);
    let mut b = Access::new();
    b.add_read(1);
    assert!(a.is_compatible(&b));
    assert!(a.get_conflicts(&b).is_empty());
}

#[test]
fn write_conflicts_with_read() {
    let mut a = Access::new();
    a.add_write(1);
    a.add_read(2);
    let mut b = Access::new();
    b.add_read(1);
    b.add_write(7);
    assert!(!a.is_compatible(&b));
    assert!(!b.is_compatible(&a));
    assert_eq!(ids(&a.get_conflicts(&b)), vec![1]);
}

#[test]
fn conflicts_are_collected_from_both_sides() {
    let mut a = Access::new();
    a.add_write(1);
    a.add_read(2);
    let mut b = Access::new();
    b.add_read(1);
    b.add_write(2);
    b.add_write(9);
    assert_eq!(ids(&a.get_conflicts(&b)), vec![1, 2]);
    assert_eq!(ids(&b.get_conflicts(&a)), vec![1, 2]);
}

#[test]
fn read_all_is_compatible_only_with_nothing() {
    let mut all = Access::new();
    all.read_all();
    assert!(all.has_read(12345));
    assert!(!all.has_write(12345));
    let empty = Access::new();
    assert!(all.is_compatible(&empty));
    assert!(empty.is_compatible(&all));
    let mut reader = Access::new();
    reader.add_read(1);
    assert!(!all.is_compatible(&reader));
    assert!(matches!(all.get_conflicts(&reader), AccessConflicts::All));
    let mut other_all = Access::new();
    other_all.read_all();
    assert!(!all.is_compatible(&other_all));
}

#[test]
fn write_all_marks_read_all() {
    let mut a = Access::new();
    a.write_all();
    assert!(a.has_read_all());
    assert!(a.has_write_all());
    assert!(a.has_write(3));
}

#[test]
fn extend_takes_the_union() {
    let mut a = Access::new();
    a.add_read(1);
    let mut b = Access::new();
    b.add_write(2);
    b.add_read(1);
    a.extend(&b);
    assert!(a.has_read(1));
    assert!(a.has_write(2));
    assert!(!a.has_write(1));
    let c = a.duplicate();
    assert!(c.has_write(2));
    assert!(c.has_read(1));
}
