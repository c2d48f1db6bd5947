use lifes_progress::equilibrium::{apply_equilibrium_transitivity, find_equilibrium_group};

#[test]
fn group_of_isolated_entity_is_itself() {
    assert_eq!(find_equilibrium_group(7, &[]), vec![7]);
    assert_eq!(find_equilibrium_group(7, &[(1, 2)]), vec![7]);
}

#[test]
fn group_follows_relationships_both_ways() {
    let rels = [(1, 2), (3, 2), (4, 5), (5, 6), (2, 9)];
    let mut group = find_equilibrium_group(3, &rels);
    assert_eq!(group[0], 3);
    group.sort();
    assert_eq!(group, vec![1, 2, 3, 9]);
    let mut other = find_equilibrium_group(6, &rels);
    other.sort();
    assert_eq!(other, vec![4, 5, 6]);
}

#[test]
fn group_membership_is_symmetric() {
    let rels = [(10, 11), (11, 12), (20, 21)];
    for a in [10u64, 11, 12, 20, 21] {
        for b in find_equilibrium_group(a, &rels) {
            assert!(find_equilibrium_group(b, &rels).contains(&a));
        }
    }
}

#[test]
fn group_has_no_duplicates_with_self_loops() {
    let rels = [(1, 1), (1, 2), (2, 1), (2, 2)];
    assert_eq!(find_equilibrium_group(1, &rels), vec![1, 2]);
}

#[test]
fn transitivity_adds_shared_partner_pairs() {
    let mut rels = vec![(1, 3), (2, 3)];
    apply_equilibrium_transitivity(&mut rels);
    assert_eq!(rels, vec![(1, 3), (2, 3), (1, 2)]);
}

#[test]
fn transitivity_orders_new_pairs_smaller_first() {
    let mut rels = vec![(9, 5), (4, 5)];
    apply_equilibrium_transitivity(&mut rels);
    assert_eq!(rels, vec![(9, 5), (4, 5), (4, 9)]);
}

#[test]
fn transitivity_leaves_closed_lists_alone() {
    let mut rels = vec![(1, 2), (3, 4)];
    apply_equilibrium_transitivity(&mut rels);
    assert_eq!(rels, vec![(1, 2), (3, 4)]);
    let mut empty: Vec<(u64, u64)> = vec![];
    apply_equilibrium_transitivity(&mut empty);
    assert!(empty.is_empty());
}

#[test]
fn transitivity_reaches_closure_over_several_rounds() {
    let mut rels = vec![(1, 4), (2, 4), (3, 4), (0, 2)];
    apply_equilibrium_transitivity(&mut rels);
    for i in 0..rels.len() {
        for j in 0..rels.len() {
            let (a, c) = rels[i];
            let (b, c2) = rels[j];
            if c == c2 && a != b {
                let pair = if a < b { (a, b) } else { (b, a) };
                assert!(rels.contains(&pair));
            }
        }
    }
    for i in 0..rels.len() {
        for j in 0..i {
            if i >= 4 {
                assert_ne!(rels[i], rels[j]);
            }
        }
    }
    assert_eq!(&rels[..4], &[(1, 4), (2, 4), (3, 4), (0, 2)]);
}

#[test]
fn transitivity_keeps_groups() {
    let original = vec![(1, 4), (2, 4), (7, 8), (3, 8)];
    let mut closed = original.clone();
    apply_equilibrium_transitivity(&mut closed);
    for e in [1u64, 2, 3, 4, 7, 8] {
        let mut before = find_equilibrium_group(e, &original);
        let mut after = find_equilibrium_group(e, &closed);
        before.sort();
        after.sort();
        assert_eq!(before, after);
    }
}

#[test]
fn group_is_found_depth_first_from_last_pending_entity() {
    let rels = [(1, 2), (3, 2), (4, 5), (5, 6), (2, 9)];
    assert_eq!(find_equilibrium_group(3, &rels), vec![3, 2, 1, 9]);
    let branching = [(1, 2), (1, 3), (2, 4), (3, 5)];
    assert_eq!(find_equilibrium_group(1, &branching), vec![1, 2, 3, 5, 4]);
}

#[test]
fn transitivity_appends_new_pairs_round_by_round() {
    let mut rels = vec![(1, 4), (2, 4), (3, 4), (0, 2)];
    apply_equilibrium_transitivity(&mut rels);
    assert_eq!(rels, vec![(1, 4), (2, 4), (3, 4), (0, 2), (1, 2), (1, 3), (2, 3), (0, 1)]);
}
