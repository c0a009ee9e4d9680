use rusty_maze::disjset::DisjSet;

#[test]
fn test_union() -> Result<(), String> {
    let mut m = DisjSet::new(5);
    assert_eq!(m.distinct_sets(), 5);
    assert_eq!(m.find(1), 1);
    assert_eq!(m.find(2), 2);
    m.union(1, 2);
    assert_eq!(m.distinct_sets(), 4);
    assert_eq!(m.find(1), 1);
    assert_eq!(m.find(2), 1);
    assert_eq!(m.lookup(2), 1);

    Ok(())
}

#[test]
fn find_is_idempotent_after_compression() {
    let mut m = DisjSet::new(6);
    m.union(1, 2);
    m.union(3, 1);
    m.union(5, 3);
    // 2's chain runs 2 -> 1 -> 3 -> 5; two finds agree and the second one
    // changes nothing that lookup can observe
    let r1 = m.find(2);
    let before: Vec<usize> = (0..6).map(|c| m.lookup(c)).collect();
    let r2 = m.find(2);
    let after: Vec<usize> = (0..6).map(|c| m.lookup(c)).collect();
    assert_eq!(r1, 5);
    assert_eq!(r2, r1);
    assert_eq!(before, after);
}

#[test]
fn distinct_sets_drops_by_one_per_union() {
    let mut m = DisjSet::new(4);
    assert_eq!(m.len(), 4);
    assert_eq!(m.distinct_sets(), 4);
    m.union(0, 1);
    assert_eq!(m.distinct_sets(), 3);
    m.union(2, 3);
    assert_eq!(m.distinct_sets(), 2);
    // find never changes the count
    m.find(1);
    m.find(3);
    assert_eq!(m.distinct_sets(), 2);
    m.union(0, 2);
    assert_eq!(m.distinct_sets(), 1);
}
