use dibrova::dsu::ForestDsu;
use dibrova::dsu::OptimizedForestDsu;

#[test]
fn test_basic_operations_for_naive_dsu() {
    let mut dsu = ForestDsu::new();
    dsu.insert(1);
    dsu.insert(2);
    dsu.insert(3);
    assert_eq!(dsu.is_same_set(1, 2), false);
    dsu.join(1, 2);
    assert_eq!(dsu.is_same_set(1, 2), true);
    dsu.join(1, 3);
    assert_eq!(dsu.is_same_set(3, 2), true);
}

#[test]
fn test_basic_operations_for_optimized_dsu() {
    let mut dsu = OptimizedForestDsu::new();
    dsu.insert(1);
    dsu.insert(2);
    dsu.insert(3);
    assert_eq!(dsu.is_same_set(1, 2), false);
    dsu.join(1, 2);
    assert_eq!(dsu.is_same_set(1, 2), true);
    dsu.join(1, 3);
    assert_eq!(dsu.is_same_set(3, 2), true);
}

#[test]
fn test_basic_operations_for_base_dsu() {
    let mut base_dsu = ForestDsu::new();
    base_dsu.insert(1);
    base_dsu.insert(2);
    base_dsu.insert(3);
    assert_eq!(base_dsu.is_same_set(1, 2), false);
    base_dsu.join(1, 2);
    assert_eq!(base_dsu.is_same_set(1, 2), true);
    base_dsu.join(1, 3);
    assert_eq!(base_dsu.is_same_set(3, 2), true);
}

#[test]
fn test_parent_bookkeeping() {
    let mut dsu = ForestDsu::new();
    dsu.new_tree_from_root(4);
    assert_eq!(dsu.get_parent(4), 4);
    assert_eq!(dsu.find_root(4), 4);
    dsu.new_tree_from_root(9);
    dsu.set_parent(4, 9);
    assert_eq!(dsu.get_parent(4), 9);
    assert_eq!(dsu.find_root(4), 9);
    assert_eq!(dsu.get_merge_direction(4, 9), (4, 9));
}
