use trees::{Forest, Tree};

fn payloads(f: &Forest<i32>) -> Vec<i32> {
    let mut out = Vec::new();
    let mut it = f.children();
    while let Some(node) = it.next(f) {
        out.push(node.data);
    }
    out
}

fn forest_of(values: &[i32]) -> Forest<i32> {
    let mut f = Forest::new();
    for &v in values {
        f.push_back(Tree::new(v));
    }
    f
}

#[test]
fn advance_only_visits_every_child_once_in_order() {
    let f = forest_of(&[1, 2, 3, 4]);
    let mut it = f.subtrees();
    let mut seen = Vec::new();
    while let Some(sn) = it.next(&f) {
        seen.push(sn.get(&it, &f).data);
    }
    assert_eq!(seen, vec![1, 2, 3, 4]);
    assert!(it.next(&f).is_none());
}

#[test]
fn advance_on_empty_forest_yields_nothing() {
    let f: Forest<i32> = Forest::new();
    let mut it = f.subtrees();
    assert!(it.next(&f).is_none());
}

#[test]
fn insert_before_at_every_position() {
    let mut f = forest_of(&[1, 2]);
    let mut it = f.subtrees();
    let mut visited = 0;
    while let Some(sn) = it.next(&f) {
        sn.insert_before(&mut it, &mut f, Tree::new(3));
        visited += 1;
    }
    assert_eq!(visited, 2);
    assert_eq!(payloads(&f), vec![3, 1, 3, 2]);
}

#[test]
fn insert_after_at_every_position() {
    let mut f = forest_of(&[1, 2]);
    let mut it = f.subtrees();
    let mut visited = 0;
    while let Some(sn) = it.next(&f) {
        sn.insert_after(&mut it, &mut f, Tree::new(3));
        visited += 1;
    }
    assert_eq!(visited, 2);
    assert_eq!(payloads(&f), vec![1, 3, 2, 3]);
}

#[test]
fn insertions_are_not_visited_but_a_fresh_traversal_sees_them() {
    let mut f = forest_of(&[1, 2, 3]);
    let mut it = f.subtrees();
    let mut visited = 0;
    while let Some(sn) = it.next(&f) {
        sn.insert_before(&mut it, &mut f, Tree::new(8));
        sn.insert_after(&mut it, &mut f, Tree::new(9));
        visited += 1;
    }
    // the running traversal never visits what it inserted
    assert_eq!(visited, 3);
    // a fresh traversal sees the original count plus the insertions
    let mut again = f.subtrees();
    let mut total = 0;
    while let Some(_sn) = again.next(&f) {
        total += 1;
    }
    assert_eq!(total, 9);
    assert_eq!(payloads(&f), vec![8, 1, 9, 8, 2, 9, 8, 3, 9]);
}

#[test]
fn detach_mid_traversal_keeps_the_rest() {
    let mut f = forest_of(&[1, 2, 3]);
    let mut it = f.subtrees();
    let first = it.next(&f).unwrap();
    assert_eq!(first.get(&it, &f).data, 1);
    let second = it.next(&f).unwrap();
    assert_eq!(second.get(&it, &f).data, 2);
    let t = second.depart(&mut it, &mut f);
    assert_eq!(t.data, 2);
    // the traversal still yields node 3 next
    let third = it.next(&f).unwrap();
    assert_eq!(third.get(&it, &f).data, 3);
    assert!(it.next(&f).is_none());
    assert_eq!(payloads(&f), vec![1, 3]);
}

#[test]
fn detaching_every_node_empties_the_forest() {
    let mut f = forest_of(&[1, 2, 3, 4]);
    let mut it = f.subtrees();
    let mut detached = Vec::new();
    while let Some(sn) = it.next(&f) {
        detached.push(sn.depart(&mut it, &mut f));
    }
    assert!(f.is_empty());
    // re-pushing in detachment order reconstructs the original child order
    let mut rebuilt = Forest::new();
    let mut order = Vec::new();
    for t in detached {
        order.push(t.data);
        rebuilt.push_back(t);
    }
    assert_eq!(order, vec![1, 2, 3, 4]);
    assert_eq!(payloads(&rebuilt), vec![1, 2, 3, 4]);
}

#[test]
fn detach_sole_child_empties_and_restores() {
    let mut f = forest_of(&[5]);
    let mut it = f.subtrees();
    let sn = it.next(&f).unwrap();
    let t = sn.depart(&mut it, &mut f);
    assert!(f.is_empty());
    assert!(it.next(&f).is_none());
    f.push_back(t);
    assert_eq!(payloads(&f), vec![5]);
}

#[test]
fn detach_head_then_continue() {
    let mut f = forest_of(&[1, 2]);
    let mut it = f.subtrees();
    let sn = it.next(&f).unwrap();
    let t = sn.depart(&mut it, &mut f);
    assert_eq!(t.data, 1);
    let sn2 = it.next(&f).unwrap();
    assert_eq!(sn2.get(&it, &f).data, 2);
    assert!(it.next(&f).is_none());
    assert_eq!(payloads(&f), vec![2]);
}

#[test]
fn detach_tail_after_yield_ends_traversal() {
    let mut f = forest_of(&[1, 2]);
    let mut it = f.subtrees();
    it.next(&f).unwrap();
    let sn = it.next(&f).unwrap();
    let t = sn.depart(&mut it, &mut f);
    assert_eq!(t.data, 2);
    assert!(it.next(&f).is_none());
    assert_eq!(payloads(&f), vec![1]);
}

#[test]
fn detached_subtree_owns_its_children() {
    let mut root = Tree::new(1);
    root.sub.push_back(Tree::new(10));
    let mut f = Forest::new();
    f.push_back(root);
    f.push_back(Tree::new(2));
    let mut it = f.subtrees();
    let sn = it.next(&f).unwrap();
    let t = sn.depart(&mut it, &mut f);
    assert_eq!(t.data, 1);
    assert_eq!(payloads(&t.sub), vec![10]);
    assert_eq!(payloads(&f), vec![2]);
}

#[test]
fn insert_then_detach_at_the_same_position() {
    let mut f = forest_of(&[1, 2]);
    let mut it = f.subtrees();
    let sn = it.next(&f).unwrap();
    sn.insert_after(&mut it, &mut f, Tree::new(9));
    let t = sn.depart(&mut it, &mut f);
    assert_eq!(t.data, 1);
    let sn2 = it.next(&f).unwrap();
    assert_eq!(sn2.get(&it, &f).data, 2);
    assert!(it.next(&f).is_none());
    assert_eq!(payloads(&f), vec![9, 2]);
}

#[test]
fn replace_payload_mid_traversal() {
    let mut f = forest_of(&[1, 2, 3]);
    let mut it = f.subtrees();
    while let Some(sn) = it.next(&f) {
        let old = sn.replace(&it, &mut f, 0);
        let _ = sn.replace(&it, &mut f, old * 10);
    }
    assert_eq!(payloads(&f), vec![10, 20, 30]);
}

#[test]
fn insert_before_on_sole_node_makes_new_head() {
    let mut f = forest_of(&[5]);
    let mut it = f.subtrees();
    let sn = it.next(&f).unwrap();
    sn.insert_before(&mut it, &mut f, Tree::new(9));
    assert!(it.next(&f).is_none());
    assert_eq!(payloads(&f), vec![9, 5]);
    // the tail is still the old node: a later push_back lands after it
    f.push_back(Tree::new(7));
    assert_eq!(payloads(&f), vec![9, 5, 7]);
    assert_eq!(f.last().unwrap().data, 7);
}

#[test]
fn insert_after_on_tail_moves_the_tail() {
    let mut f = forest_of(&[5]);
    let mut it = f.subtrees();
    let sn = it.next(&f).unwrap();
    sn.insert_after(&mut it, &mut f, Tree::new(9));
    assert!(it.next(&f).is_none());
    assert_eq!(payloads(&f), vec![5, 9]);
    // the inserted node became the tail: a later push_back lands after it
    f.push_back(Tree::new(7));
    assert_eq!(payloads(&f), vec![5, 9, 7]);
    assert_eq!(f.last().unwrap().data, 7);
}

#[test]
fn insert_before_right_after_a_detach_finds_the_predecessor() {
    let mut f = forest_of(&[1, 2, 3]);
    let mut it = f.subtrees();
    let sn = it.next(&f).unwrap();
    let t = sn.depart(&mut it, &mut f);
    assert_eq!(t.data, 1);
    let sn2 = it.next(&f).unwrap();
    assert_eq!(sn2.get(&it, &f).data, 2);
    sn2.insert_before(&mut it, &mut f, Tree::new(7));
    let sn3 = it.next(&f).unwrap();
    assert_eq!(sn3.get(&it, &f).data, 3);
    assert!(it.next(&f).is_none());
    assert_eq!(payloads(&f), vec![7, 2, 3]);
}

#[test]
fn detach_down_to_two_then_one() {
    let mut f = forest_of(&[1, 2]);
    let mut it = f.subtrees();
    let sn = it.next(&f).unwrap();
    sn.depart(&mut it, &mut f);
    let sn2 = it.next(&f).unwrap();
    assert_eq!(sn2.get(&it, &f).data, 2);
    sn2.insert_after(&mut it, &mut f, Tree::new(5));
    let t = sn2.depart(&mut it, &mut f);
    assert_eq!(t.data, 2);
    assert!(it.next(&f).is_none());
    assert_eq!(payloads(&f), vec![5]);
    assert_eq!(f.last().unwrap().data, 5);
}
