use rssget::select::ascending_plan;

#[test]
fn plan_orders_indices_ascending() {
    let selected = vec![2usize, 0usize];
    assert_eq!(ascending_plan(&selected, 3), Some(vec![0usize, 2usize]));
}

#[test]
fn plan_of_empty_selection_is_empty() {
    let selected: Vec<usize> = Vec::new();
    assert_eq!(ascending_plan(&selected, 3), Some(Vec::new()));
}

#[test]
fn plan_rejects_out_of_range_index() {
    let selected = vec![0usize, 3usize];
    assert_eq!(ascending_plan(&selected, 3), None);
}

#[test]
fn plan_rejects_repeated_index() {
    let selected = vec![1usize, 1usize];
    assert_eq!(ascending_plan(&selected, 3), None);
}

#[test]
fn plan_is_subset_without_duplicates() {
    let selected = vec![4usize, 1usize, 3usize];
    let plan = ascending_plan(&selected, 5).unwrap();
    assert_eq!(plan, vec![1usize, 3usize, 4usize]);
    for w in plan.windows(2) {
        assert!(w[0] < w[1]);
    }
    for idx in &plan {
        assert!(*idx < 5);
    }
}
