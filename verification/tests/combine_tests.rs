use rss_alert::combine::{combinations, get_combinations};

#[test]
fn cartesian_product_in_lexicographic_order() {
    let a = vec![1, 2];
    let b = vec![3, 4, 5];
    let r = combinations(&[&a, &b]);
    assert_eq!(r, vec![vec![1, 3], vec![1, 4], vec![1, 5], vec![2, 3], vec![2, 4], vec![2, 5]]);
}

#[test]
fn no_lists_give_one_empty_pick() {
    let r: Vec<Vec<u8>> = combinations(&[]);
    assert_eq!(r, vec![Vec::<u8>::new()]);
}

#[test]
fn mixed_radix_pick() {
    let a = vec!['a', 'b'];
    let b = vec!['x', 'y', 'z'];
    assert_eq!(get_combinations(4, &[&a, &b], &[3, 1]), vec!['b', 'y']);
}

#[test]
fn appending_a_list_extends_each_pick() {
    let a = vec![1, 2];
    let b = vec![3, 4];
    let c = vec![5, 6, 7];
    let before = combinations(&[&a, &b]);
    let after = combinations(&[&a, &b, &c]);
    assert_eq!(after.len(), before.len() * c.len());
    for k in 0..after.len() {
        let mut expected = before[k / c.len()].clone();
        expected.push(c[k % c.len()]);
        assert_eq!(after[k], expected);
    }
}
