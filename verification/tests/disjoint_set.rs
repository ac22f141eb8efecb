use std::collections::HashSet;

use union_find::DisjointSet;
use union_find::UfError;

fn group_sets(ds: &DisjointSet) -> HashSet<Vec<usize>> {
    ds.groups().unwrap().into_iter().collect()
}

#[test]
fn fresh_elements_are_own_roots() {
    for n in [0usize, 1, 2, 5, 100] {
        let ds = DisjointSet::new(n);
        assert_eq!(ds.len(), n);
        for i in 0..n {
            assert_eq!(ds.find_fast(i), Ok(i));
        }
    }
}

#[test]
fn fresh_elements_found_by_compressing_lookup() {
    let mut ds = DisjointSet::new(4);
    for i in 0..4 {
        assert_eq!(ds.find(i), Ok(i));
    }
}

#[test]
fn find_is_idempotent() {
    // A chain 3 -> 2 -> 1 -> 0.
    let mut ds = DisjointSet::new(1);
    ds.add(Some(0));
    ds.add(Some(1));
    ds.add(Some(2));
    assert_eq!(ds.to_display_string(), "[0, 0, 1, 2]");
    assert_eq!(ds.find(3), Ok(0));
    // The whole path now points at the root.
    assert_eq!(ds.to_display_string(), "[0, 0, 0, 0]");
    // A second lookup returns the same root and rewrites nothing.
    assert_eq!(ds.find(3), Ok(0));
    assert_eq!(ds.to_display_string(), "[0, 0, 0, 0]");
}

#[test]
fn find_agrees_with_find_fast() {
    let mut ds = DisjointSet::new(6);
    ds.union(0, 1).unwrap();
    ds.union(2, 3).unwrap();
    ds.union(1, 4).unwrap();
    ds.add(Some(2));
    for i in 0..7 {
        let pure = ds.find_fast(i);
        assert_eq!(ds.find(i), pure);
        // Compression must not have changed the logical root.
        assert_eq!(ds.find_fast(i), pure);
    }
}

#[test]
fn union_joins_roots() {
    let mut ds = DisjointSet::new(5);
    ds.union(1, 3).unwrap();
    assert_eq!(ds.find(1), ds.find(3));
    // Preserved under further, unrelated unions.
    ds.union(0, 4).unwrap();
    assert_eq!(ds.find(1), ds.find(3));
    assert_eq!(ds.find(0), ds.find(4));
}

#[test]
fn union_is_left_biased() {
    let mut ds = DisjointSet::new(3);
    ds.union(2, 0).unwrap();
    // The root of `a`'s set stays the representative.
    assert_eq!(ds.find(0), Ok(2));
    assert_eq!(ds.find(2), Ok(2));
}

#[test]
fn union_is_transitive() {
    let mut ds = DisjointSet::new(4);
    ds.union(0, 1).unwrap();
    ds.union(1, 2).unwrap();
    let r = ds.find(0).unwrap();
    assert_eq!(ds.find(1), Ok(r));
    assert_eq!(ds.find(2), Ok(r));
    // Element 3 stays apart.
    assert_ne!(ds.find(3), Ok(r));
}

#[test]
fn add_without_parent_grows_with_new_root() {
    let mut ds = DisjointSet::new(2);
    ds.add(None);
    assert_eq!(ds.len(), 3);
    assert_eq!(ds.find_fast(2), Ok(2));
    assert_eq!(ds.find_fast(0), Ok(0));
    assert_eq!(ds.find_fast(1), Ok(1));
}

#[test]
fn add_under_root_joins_new_element() {
    let mut ds = DisjointSet::new(2);
    ds.add(Some(1));
    assert_eq!(ds.len(), 3);
    assert_eq!(ds.find(2), Ok(1));
    assert_eq!(ds.find(2), ds.find(1));
}

#[test]
fn out_of_range_operations_fail() {
    let mut ds = DisjointSet::new(3);
    assert_eq!(ds.find(3), Err(UfError::OutOfRange));
    assert_eq!(ds.find_fast(3), Err(UfError::OutOfRange));
    assert_eq!(ds.union(3, 0), Err(UfError::OutOfRange));
    assert_eq!(ds.union(0, 3), Err(UfError::OutOfRange));
    assert_eq!(ds.find_fast(usize::MAX), Err(UfError::OutOfRange));
    // No element moved to another set.
    for i in 0..3 {
        assert_eq!(ds.find_fast(i), Ok(i));
    }
}

#[test]
fn groups_of_fresh_structure_are_singletons() {
    let ds = DisjointSet::new(3);
    let expected: HashSet<Vec<usize>> =
        [vec![0], vec![1], vec![2]].into_iter().collect();
    assert_eq!(group_sets(&ds), expected);
}

#[test]
fn groups_form_a_partition() {
    let mut ds = DisjointSet::new(8);
    ds.union(0, 2).unwrap();
    ds.union(2, 4).unwrap();
    ds.union(1, 3).unwrap();
    ds.add(Some(0));
    let groups = ds.groups().unwrap();
    // Every index appears exactly once.
    let mut seen = vec![0usize; 9];
    for g in &groups {
        assert!(!g.is_empty());
        // Ascending member order within each group.
        for w in g.windows(2) {
            assert!(w[0] < w[1]);
        }
        for &m in g {
            seen[m] += 1;
        }
    }
    assert!(seen.iter().all(|&c| c == 1));
    // Same group exactly when same root.
    for g in &groups {
        let r = ds.find_fast(g[0]).unwrap();
        for &m in g {
            assert_eq!(ds.find_fast(m), Ok(r));
        }
    }
    for a in &groups {
        for b in &groups {
            if a != b {
                assert_ne!(ds.find_fast(a[0]), ds.find_fast(b[0]));
            }
        }
    }
}

#[test]
fn scenario_five_elements_two_groups() {
    let mut ds = DisjointSet::new(5);
    ds.union(0, 1).unwrap();
    ds.union(3, 4).unwrap();
    ds.union(1, 2).unwrap();
    let r012 = ds.find(0).unwrap();
    assert_eq!(ds.find(1), Ok(r012));
    assert_eq!(ds.find(2), Ok(r012));
    let r34 = ds.find(3).unwrap();
    assert_eq!(ds.find(4), Ok(r34));
    assert_ne!(r012, r34);
    let expected: HashSet<Vec<usize>> =
        [vec![0, 1, 2], vec![3, 4]].into_iter().collect();
    assert_eq!(group_sets(&ds), expected);
}

#[test]
fn scenario_grow_from_empty() {
    let mut ds = DisjointSet::new(0);
    assert_eq!(ds.len(), 0);
    assert_eq!(ds.to_display_string(), "[]");
    ds.add(None);
    assert_eq!(ds.len(), 1);
    assert_eq!(ds.find(0), Ok(0));
    ds.add(Some(0));
    assert_eq!(ds.len(), 2);
    assert_eq!(ds.find(1), Ok(0));
}

#[test]
fn lazy_add_surfaces_out_of_range_later() {
    let mut ds = DisjointSet::new(1);
    // Accepted silently: parent 5 does not exist.
    ds.add(Some(5));
    assert_eq!(ds.find_fast(1), Err(UfError::OutOfRange));
    assert_eq!(ds.find(1), Err(UfError::OutOfRange));
    assert_eq!(ds.groups(), Err(UfError::OutOfRange));
    // The untouched element still resolves.
    assert_eq!(ds.find_fast(0), Ok(0));
}

#[test]
fn unresolvable_chain_fails_instead_of_hanging() {
    // add(Some(1)) on an empty structure leaves a dangling parent;
    // the next add turns it into a two-element cycle.
    let mut ds = DisjointSet::new(0);
    ds.add(Some(1));
    ds.add(Some(0));
    assert_eq!(ds.to_display_string(), "[1, 0]");
    assert_eq!(ds.find_fast(0), Err(UfError::OutOfRange));
    assert_eq!(ds.find(0), Err(UfError::OutOfRange));
    assert_eq!(ds.find(1), Err(UfError::OutOfRange));
    // The failed lookups rewrote nothing.
    assert_eq!(ds.to_display_string(), "[1, 0]");
}

#[test]
fn display_string_lists_parents_verbatim() {
    let ds = DisjointSet::new(3);
    assert_eq!(ds.to_display_string(), "[0, 1, 2]");
    let mut ds = DisjointSet::new(12);
    ds.union(10, 11).unwrap();
    assert_eq!(
        ds.to_display_string(),
        "[0, 1, 2, 3, 4, 5, 6, 7, 8, 9, 10, 10]"
    );
}

#[test]
fn failed_union_leaves_no_partial_merge() {
    let mut ds = DisjointSet::new(4);
    ds.union(0, 1).unwrap();
    // b resolves (and its path may compress), a does not: no merge.
    assert_eq!(ds.union(4, 2), Err(UfError::OutOfRange));
    assert_eq!(ds.find_fast(2), Ok(2));
    assert_eq!(ds.find_fast(3), Ok(3));
    assert_eq!(ds.find_fast(1), Ok(0));
}
