use galaxy::collision::{next_generation, plan_merges};

fn matrix(n: usize, pairs: &[(usize, usize)]) -> Vec<Vec<bool>> {
    let mut m = vec![vec![false; n]; n];
    for &(i, j) in pairs {
        m[i][j] = true;
        m[j][i] = true;
    }
    m
}

#[test]
fn empty_system_plans_nothing() {
    assert_eq!(plan_merges(&Vec::new()), Vec::<(usize, usize)>::new());
}

#[test]
fn one_touching_pair_merges() {
    assert_eq!(plan_merges(&matrix(3, &[(0, 2)])), vec![(0, 2)]);
}

#[test]
fn no_contact_no_merge() {
    assert_eq!(plan_merges(&matrix(4, &[])), Vec::<(usize, usize)>::new());
}

#[test]
fn first_partner_in_index_order_wins() {
    // body 0 touches 1 and 3: it takes 1, the first after it
    assert_eq!(plan_merges(&matrix(4, &[(0, 3), (0, 1)])), vec![(0, 1)]);
}

#[test]
fn consumed_body_is_not_matched_again() {
    // 0-1 merge; 1-2 would touch but 1 is gone; 2-3 merge
    assert_eq!(
        plan_merges(&matrix(4, &[(0, 1), (1, 2), (2, 3)])),
        vec![(0, 1), (2, 3)]
    );
}

#[test]
fn consumed_partner_is_skipped_for_later_bodies() {
    // 0 takes 2; body 1 touches only 2, which is gone, so 1 stays free
    assert_eq!(plan_merges(&matrix(3, &[(0, 2), (1, 2)])), vec![(0, 2)]);
}

#[test]
fn free_body_after_skip_can_merge_further_on() {
    // 0 takes 1; 2 touches 1 (gone) and 4; it takes 4; 3 stays
    assert_eq!(
        plan_merges(&matrix(5, &[(0, 1), (1, 2), (2, 4)])),
        vec![(0, 1), (2, 4)]
    );
}

#[test]
fn lower_triangle_is_ignored() {
    let mut m = vec![vec![false; 3]; 3];
    m[2][0] = true;
    assert_eq!(plan_merges(&m), Vec::<(usize, usize)>::new());
}

#[test]
fn next_generation_keeps_order_and_appends_merged() {
    let items = vec![10, 11, 12, 13, 14];
    let r = next_generation(&items, &vec![(1, 3)], vec![99]);
    assert_eq!(r, vec![10, 12, 14, 99]);
}

#[test]
fn next_generation_without_merges_is_identity() {
    let items = vec![1, 2, 3];
    assert_eq!(next_generation(&items, &Vec::new(), Vec::new()), items);
}

#[test]
fn cardinality_drops_by_one_per_merge() {
    let items: Vec<u32> = (0..6).collect();
    let plan = plan_merges(&matrix(6, &[(0, 5), (1, 2), (3, 4)]));
    assert_eq!(plan, vec![(0, 5), (1, 2), (3, 4)]);
    let merged: Vec<u32> = plan.iter().map(|&(a, b)| 100 + a as u32 + b as u32).collect();
    let r = next_generation(&items, &plan, merged);
    assert_eq!(r.len(), items.len() - plan.len());
    assert_eq!(r, vec![105, 103, 107]);
}
