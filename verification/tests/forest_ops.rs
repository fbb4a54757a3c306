use trees::{Forest, Tree};

fn payloads(f: &Forest<i32>) -> Vec<i32> {
    let mut out = Vec::new();
    let mut it = f.children();
    while let Some(node) = it.next(f) {
        out.push(node.data);
    }
    out
}

fn forest_of(values: &[i32]) -> Forest<i32> {
    let mut f = Forest::new();
    for &v in values {
        f.push_back(Tree::new(v));
    }
    f
}

#[test]
fn new_forest_is_empty() {
    let f: Forest<i32> = Forest::new();
    assert!(f.is_empty());
    assert_eq!(payloads(&f), Vec::<i32>::new());
}

#[test]
fn default_forest_is_empty() {
    let f: Forest<i32> = Forest::default();
    assert!(f.is_empty());
}

#[test]
fn push_front_reverses_push_back_preserves() {
    // front pushes reverse their relative order, back pushes preserve it
    let mut f = Forest::new();
    f.push_front(Tree::new(1));
    f.push_back(Tree::new(2));
    f.push_front(Tree::new(3));
    f.push_back(Tree::new(4));
    assert!(!f.is_empty());
    assert_eq!(payloads(&f), vec![3, 1, 2, 4]);

    let mut g = Forest::new();
    g.push_front(Tree::new(1));
    g.push_front(Tree::new(2));
    g.push_front(Tree::new(3));
    assert_eq!(payloads(&g), vec![3, 2, 1]);

    let mut h = Forest::new();
    h.push_back(Tree::new(1));
    h.push_back(Tree::new(2));
    h.push_back(Tree::new(3));
    assert_eq!(payloads(&h), vec![1, 2, 3]);
}

#[test]
fn pop_front_returns_head() {
    let mut f = forest_of(&[1, 2]);
    let t = f.pop_front().unwrap();
    assert_eq!(t.data, 1);
    assert_eq!(payloads(&f), vec![2]);
    let t2 = f.pop_front().unwrap();
    assert_eq!(t2.data, 2);
    assert!(f.is_empty());
    assert!(f.pop_front().is_none());
}

#[test]
fn pop_front_on_empty_is_none() {
    let mut f: Forest<i32> = Forest::new();
    assert!(f.pop_front().is_none());
    assert!(f.is_empty());
}

#[test]
fn pop_then_push_front_round_trip() {
    let mut f = forest_of(&[1, 2, 3]);
    let t = f.pop_front().unwrap();
    f.push_front(t);
    assert_eq!(payloads(&f), vec![1, 2, 3]);
}

#[test]
fn pop_then_push_front_round_trip_single() {
    let mut f = forest_of(&[7]);
    let t = f.pop_front().unwrap();
    assert!(f.is_empty());
    f.push_front(t);
    assert_eq!(payloads(&f), vec![7]);
}

#[test]
fn append_joins_at_back() {
    let mut a = forest_of(&[0, 1]);
    let b = forest_of(&[2, 3]);
    a.append(b);
    assert_eq!(payloads(&a), vec![0, 1, 2, 3]);
}

#[test]
fn prepend_joins_at_front() {
    let mut a = forest_of(&[0, 1]);
    let b = forest_of(&[2, 3]);
    a.prepend(b);
    assert_eq!(payloads(&a), vec![2, 3, 0, 1]);
}

#[test]
fn append_is_associative_on_child_order() {
    let mut left = forest_of(&[1, 2]);
    left.append(forest_of(&[3]));
    left.append(forest_of(&[4, 5]));

    let mut right_inner = forest_of(&[3]);
    right_inner.append(forest_of(&[4, 5]));
    let mut right = forest_of(&[1, 2]);
    right.append(right_inner);

    assert_eq!(payloads(&left), payloads(&right));
    assert_eq!(payloads(&left), vec![1, 2, 3, 4, 5]);
}

#[test]
fn merge_with_empty_is_no_op() {
    let mut f = forest_of(&[1, 2, 3]);
    f.append(Forest::new());
    assert_eq!(payloads(&f), vec![1, 2, 3]);
    f.prepend(Forest::new());
    assert_eq!(payloads(&f), vec![1, 2, 3]);

    let mut e: Forest<i32> = Forest::new();
    e.append(forest_of(&[4, 5]));
    assert_eq!(payloads(&e), vec![4, 5]);
    let mut e2: Forest<i32> = Forest::new();
    e2.prepend(forest_of(&[6]));
    assert_eq!(payloads(&e2), vec![6]);
}

#[test]
fn last_is_the_tail() {
    let f = forest_of(&[1, 2, 3]);
    assert_eq!(f.last().unwrap().data, 3);
    let e: Forest<i32> = Forest::new();
    assert!(e.last().is_none());
}

#[test]
fn children_yields_each_node_once() {
    let f = forest_of(&[5, 6, 7]);
    let mut it = f.children();
    assert_eq!(it.next(&f).unwrap().data, 5);
    assert_eq!(it.next(&f).unwrap().data, 6);
    assert_eq!(it.next(&f).unwrap().data, 7);
    assert!(it.next(&f).is_none());
    assert!(it.next(&f).is_none());
}

#[test]
fn into_iter_drains_in_order() {
    let f = forest_of(&[1, 2, 3]);
    let mut it = f.into_iter();
    let mut got = Vec::new();
    while let Some(t) = it.next() {
        got.push(t.data);
    }
    assert_eq!(got, vec![1, 2, 3]);
}

#[test]
fn children_mut_replaces_payloads() {
    let mut f = forest_of(&[1, 2, 3]);
    let mut it = f.children_mut();
    let mut factor = 10;
    while it.has_next(&f) {
        let old = it.replace(&mut f, factor);
        factor += old;
    }
    // 1 -> 10, 2 -> 11, 3 -> 13
    assert_eq!(payloads(&f), vec![10, 11, 13]);
}

#[test]
fn tree_keeps_its_subtrees_through_a_forest() {
    let mut t = Tree::new(1);
    t.sub.push_back(Tree::new(10));
    t.sub.push_back(Tree::new(11));
    let mut f = Forest::new();
    f.push_back(t);
    f.push_back(Tree::new(2));
    let back = f.pop_front().unwrap();
    assert_eq!(back.data, 1);
    assert_eq!(payloads(&back.sub), vec![10, 11]);
    assert_eq!(payloads(&f), vec![2]);
}

#[test]
fn merges_keep_the_tail_right() {
    let mut a = forest_of(&[0, 1]);
    a.append(forest_of(&[2, 3]));
    assert_eq!(a.last().unwrap().data, 3);
    a.push_back(Tree::new(4));
    assert_eq!(payloads(&a), vec![0, 1, 2, 3, 4]);

    let mut b = forest_of(&[0, 1]);
    b.prepend(forest_of(&[2, 3]));
    assert_eq!(b.last().unwrap().data, 1);
    b.push_front(Tree::new(4));
    assert_eq!(payloads(&b), vec![4, 2, 3, 0, 1]);
}

#[test]
fn pop_front_after_merge() {
    let mut a = forest_of(&[1]);
    a.append(forest_of(&[2]));
    assert_eq!(a.pop_front().unwrap().data, 1);
    assert_eq!(a.pop_front().unwrap().data, 2);
    assert!(a.pop_front().is_none());
}
