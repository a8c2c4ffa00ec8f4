use renderer::bvh::split_along;
use renderer::BvhPlan;

fn check_node(plan: &BvhPlan, keys: &Vec<[i64; 3]>) {
    if let BvhPlan::Split { axis, left, right } = plan {
        assert!(*axis <= 2);
        let l = left.items();
        let r = right.items();
        assert!(l.len() + r.len() >= 3);
        assert_eq!(l.len(), (l.len() + r.len()) / 2);
        for a in l.iter() {
            for b in r.iter() {
                assert!(keys[*a][*axis] <= keys[*b][*axis]);
            }
        }
        check_node(left, keys);
        check_node(right, keys);
    }
}

#[test]
fn one_primitive_is_a_leaf() {
    let keys = vec![[5i64, 6, 7]];
    match BvhPlan::new(&keys) {
        BvhPlan::Leaf { item } => assert_eq!(item, 0),
        other => panic!("not a leaf: {:?}", other),
    }
}

#[test]
fn two_primitives_keep_their_order() {
    let keys = vec![[9i64, 9, 9], [1, 1, 1]];
    match BvhPlan::new(&keys) {
        BvhPlan::Pair { first, second } => {
            assert_eq!(first, 0);
            assert_eq!(second, 1);
        }
        other => panic!("not a pair: {:?}", other),
    }
}

#[test]
fn every_primitive_is_a_leaf_once() {
    let mut keys: Vec<[i64; 3]> = Vec::new();
    for i in 0..37i64 {
        keys.push([(i * 7919) % 31 - 15, (i * 104729) % 17, -(i % 5)]);
    }
    for _ in 0..20 {
        let plan = BvhPlan::new(&keys);
        let mut leaves = plan.items();
        assert_eq!(leaves.len(), keys.len());
        leaves.sort();
        let all: Vec<usize> = (0..keys.len()).collect();
        assert_eq!(leaves, all);
        assert!(matches!(plan, BvhPlan::Split { .. }));
        check_node(&plan, &keys);
    }
}

#[test]
fn three_primitives_split_one_and_two() {
    let keys = vec![[3i64, 3, 3], [1, 1, 1], [2, 2, 2]];
    match BvhPlan::new(&keys) {
        BvhPlan::Split { axis, left, right } => {
            assert!(axis <= 2);
            assert_eq!(left.items(), vec![1]);
            assert_eq!(right.items(), vec![2, 0]);
        }
        other => panic!("not a split: {:?}", other),
    }
}

#[test]
fn split_orders_by_key_along_the_axis() {
    let keys = vec![[4i64, 0, 9], [2, 5, 8], [3, 1, 7], [1, 4, 6], [0, 3, 5]];
    let items = vec![0usize, 1, 2, 3, 4];
    let (left, right) = split_along(&keys, &items, 0);
    assert_eq!(left, vec![4, 3]);
    assert_eq!(right, vec![1, 2, 0]);
    let (left, right) = split_along(&keys, &items, 1);
    assert_eq!(left, vec![0, 2]);
    assert_eq!(right, vec![4, 3, 1]);
    let (left, right) = split_along(&keys, &items, 2);
    assert_eq!(left, vec![4, 3]);
    assert_eq!(right, vec![2, 1, 0]);
}

#[test]
fn split_keeps_equal_keys_in_their_order() {
    let keys = vec![[1i64, 0, 0], [1, 0, 0], [0, 0, 0], [1, 0, 0]];
    let items = vec![3usize, 1, 2, 0];
    let (left, right) = split_along(&keys, &items, 0);
    assert_eq!(left, vec![2, 3]);
    assert_eq!(right, vec![1, 0]);
    let (left, right) = split_along(&keys, &items, 1);
    assert_eq!(left, vec![3, 1]);
    assert_eq!(right, vec![2, 0]);
}

#[test]
fn split_of_a_sublist_uses_only_its_items() {
    let keys = vec![[10i64, 0, 0], [-5, 0, 0], [7, 0, 0], [i64::MIN, 0, 0], [i64::MAX, 0, 0]];
    let items = vec![4usize, 0, 3];
    let (left, right) = split_along(&keys, &items, 0);
    assert_eq!(left, vec![3]);
    assert_eq!(right, vec![0, 4]);
    let (left, right) = split_along(&keys, &Vec::new(), 0);
    assert!(left.is_empty() && right.is_empty());
}

#[test]
fn over_arranges_the_items_given() {
    let keys = vec![[0i64, 0, 0], [1, 2, 3], [4, 5, 6], [7, 8, 9], [-1, -2, -3], [3, 3, 3]];
    let plan = BvhPlan::over(&keys, vec![5, 1, 4, 2]);
    let mut leaves = plan.items();
    leaves.sort();
    assert_eq!(leaves, vec![1, 2, 4, 5]);
    check_node(&plan, &keys);
}
