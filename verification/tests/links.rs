use stratum::index::links::{add_back_link, entry_after_insert, link_new_node};

#[test]
fn a_new_node_links_to_its_best_candidates_and_back() {
    let ranked = vec![5u64, 3, 9];
    let mut back = vec![vec![1u64], vec![7, 42], vec![8]];
    let links = link_new_node(42, &ranked, 2, &mut back);
    assert_eq!(links, vec![5, 3]);
    assert_eq!(back, vec![vec![1, 42], vec![7, 42], vec![8]]);
}

#[test]
fn fewer_candidates_than_links_are_all_taken() {
    let ranked = vec![4u64];
    let mut back = vec![vec![]];
    let links = link_new_node(1, &ranked, 16, &mut back);
    assert_eq!(links, vec![4]);
    assert_eq!(back, vec![vec![1]]);
    let mut none: Vec<Vec<u64>> = Vec::new();
    assert_eq!(link_new_node(1, &Vec::new(), 16, &mut none), Vec::<u64>::new());
}

#[test]
fn back_links_are_not_repeated() {
    let mut list = vec![3u64, 4];
    add_back_link(&mut list, 4);
    assert_eq!(list, vec![3, 4]);
    add_back_link(&mut list, 5);
    assert_eq!(list, vec![3, 4, 5]);
}

#[test]
fn the_entry_point_moves_to_a_higher_node() {
    assert_eq!(entry_after_insert(None, None, 7, 0), 7);
    assert_eq!(entry_after_insert(Some(3), Some(2), 7, 3), 7);
    assert_eq!(entry_after_insert(Some(3), Some(2), 7, 2), 3);
    assert_eq!(entry_after_insert(Some(3), None, 7, 9), 3);
}
