use roguelike::disjoint_sets::DisjointSets;

#[test]
fn new_sets_are_singletons() {
    let mut sets = DisjointSets::new(5);
    for i in 0..5 {
        assert_eq!(sets.find(i), i);
    }
}

#[test]
fn merge_returns_the_size_of_the_merged_set() {
    let mut sets = DisjointSets::new(6);
    assert_eq!(sets.merge(0, 1), 2);
    assert_eq!(sets.merge(2, 3), 2);
    assert_eq!(sets.merge(1, 3), 4);
    assert_eq!(sets.merge(4, 4), 1);
    assert_eq!(sets.merge(5, 0), 5);
    assert_eq!(sets.merge(4, 2), 6);
}

#[test]
fn merging_a_unified_pair_again_changes_nothing() {
    let mut sets = DisjointSets::new(4);
    assert_eq!(sets.merge(0, 1), 2);
    let before: Vec<usize> = (0..4).map(|i| sets.find(i)).collect();
    assert_eq!(sets.merge(1, 0), 2);
    assert_eq!(sets.merge(0, 1), 2);
    let after: Vec<usize> = (0..4).map(|i| sets.find(i)).collect();
    assert_eq!(before, after);
}

#[test]
fn the_smaller_set_goes_below_the_larger() {
    let mut sets = DisjointSets::new(5);
    sets.merge(0, 1);
    sets.merge(0, 2);
    let large = sets.find(0);
    // The single element 3 joins the set of three, whichever comes first.
    assert_eq!(sets.merge(3, 0), 4);
    assert_eq!(sets.find(3), large);
    assert_eq!(sets.merge(4, 3), 5);
    assert_eq!(sets.find(4), large);
    // Of two sets of equal size the first keeps its representative.
    let mut sets = DisjointSets::new(2);
    sets.merge(0, 1);
    assert_eq!(sets.find(1), 0);
}

#[test]
fn find_agrees_exactly_where_elements_were_merged() {
    // Merge along a fixed list and compare with a plain labelling.
    let merges = [(0, 5), (2, 3), (5, 7), (8, 9), (3, 9), (1, 1), (7, 0), (4, 6)];
    let n = 10;
    let mut sets = DisjointSets::new(n);
    let mut label: Vec<usize> = (0..n).collect();
    for (a, b) in merges {
        sets.merge(a, b);
        let (from, to) = (label[a], label[b]);
        for l in label.iter_mut() {
            if *l == from {
                *l = to;
            }
        }
        for i in 0..n {
            for j in 0..n {
                assert_eq!(sets.find(i) == sets.find(j), label[i] == label[j]);
            }
        }
    }
}

#[test]
fn a_long_chain_is_found_without_deep_recursion() {
    let n = 200_000;
    let mut sets = DisjointSets::new(n);
    for i in 1..n {
        assert_eq!(sets.merge(i - 1, i), i + 1);
    }
    let root = sets.find(0);
    assert_eq!(sets.find(n - 1), root);
}
