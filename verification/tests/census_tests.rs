use where_in_pi::dec::{
    counts_get, counts_new, deduce_splits, gen_splits_v1, gen_splits_v1_purge, gen_splits_v2,
    gen_splits_v2_purge, split_empty,
};

#[test]
fn census_counts_each_range_once() {
    let mut counts = counts_new();
    gen_splits_v2(1, 5, &mut counts);
    for (a, b) in split_empty(1, 5) {
        assert_eq!(counts_get(&counts, a, b), Some(1));
    }
    assert_eq!(counts_get(&counts, 1, 4), None);
}

#[test]
fn census_accumulates() {
    let mut counts = counts_new();
    gen_splits_v2(1, 5, &mut counts);
    gen_splits_v2(1, 5, &mut counts);
    for (a, b) in split_empty(1, 5) {
        assert_eq!(counts_get(&counts, a, b), Some(2));
    }
}

#[test]
fn census_orders_agree() {
    // the stack walk and the recursive walk produce the same census
    let mut first = counts_new();
    let mut second = counts_new();
    for b in 2..=40u32 {
        gen_splits_v1(1, b, &mut first);
        gen_splits_v2(1, b, &mut second);
    }
    for entry in first.iter() {
        let (a, b) = *entry.key();
        assert_eq!(Some(*entry.value()), counts_get(&second, a, b));
    }
    assert_eq!(first.len(), second.len());
}

#[test]
fn census_purge_removes_tree() {
    let mut counts = counts_new();
    gen_splits_v1(1, 9, &mut counts);
    gen_splits_v1_purge(1, 9, &mut counts);
    assert_eq!(counts.len(), 0);
}

#[test]
fn census_purge_root_only() {
    let mut counts = counts_new();
    gen_splits_v2(1, 5, &mut counts);
    gen_splits_v2_purge(1, 5, &mut counts);
    assert_eq!(counts_get(&counts, 1, 5), None);
    // both subtrees were walked again on top of the first walk
    assert_eq!(counts_get(&counts, 1, 3), Some(2));
    assert_eq!(counts_get(&counts, 3, 5), Some(2));
}

#[test]
fn deduced_census_is_deterministic() {
    let first = deduce_splits(2, 40, 1);
    let second = deduce_splits(2, 40, 1);
    assert_eq!(first.len(), second.len());
    for entry in first.iter() {
        let (a, b) = *entry.key();
        assert_eq!(Some(*entry.value()), counts_get(&second, a, b));
    }
}

#[test]
fn deduced_census_matches_manual_walk() {
    let deduced = deduce_splits(5, 30, 5);
    let mut manual = counts_new();
    for b in [5u32, 10, 15, 20, 25, 30] {
        gen_splits_v1(1, b, &mut manual);
    }
    assert_eq!(deduced.len(), manual.len());
    for entry in deduced.iter() {
        let (a, b) = *entry.key();
        assert_eq!(Some(*entry.value()), counts_get(&manual, a, b));
    }
}
