use trees::{Forest, Tree, Visit};

fn forest_of(values: &[i32]) -> Forest<i32> {
    let mut f = Forest::new();
    for &v in values {
        f.push_back(Tree::new(v));
    }
    f
}

/// A readable transcript of a walk: one (kind, payload) pair per event.
fn transcript(f: &Forest<i32>) -> Vec<(char, i32)> {
    let mut w = f.walk();
    let mut out = Vec::new();
    while let Some(v) = w.next() {
        out.push(match v {
            Visit::Begin(n) => ('B', n.data),
            Visit::Leaf(n) => ('L', n.data),
            Visit::End(n) => ('E', n.data),
        });
    }
    out
}

#[test]
fn walk_of_empty_forest_has_no_events() {
    let f: Forest<i32> = Forest::new();
    assert_eq!(transcript(&f), Vec::<(char, i32)>::new());
}

#[test]
fn walk_of_flat_forest_is_all_leaves() {
    let f = forest_of(&[1, 2, 3]);
    assert_eq!(transcript(&f), vec![('L', 1), ('L', 2), ('L', 3)]);
}

#[test]
fn walk_brackets_subtrees_between_begin_and_end() {
    let mut first = Tree::new(1);
    first.sub.push_back(Tree::new(2));
    first.sub.push_back(Tree::new(3));
    let mut second = Tree::new(4);
    second.sub.push_back(Tree::new(5));
    second.sub.push_back(Tree::new(6));
    let mut f = Forest::new();
    f.push_back(first);
    f.push_back(second);
    assert_eq!(
        transcript(&f),
        vec![
            ('B', 1),
            ('L', 2),
            ('L', 3),
            ('E', 1),
            ('B', 4),
            ('L', 5),
            ('L', 6),
            ('E', 4),
        ]
    );
}

#[test]
fn walk_descends_through_nested_levels() {
    let mut inner = Tree::new(2);
    inner.sub.push_back(Tree::new(3));
    let mut outer = Tree::new(1);
    outer.sub.push_back(inner);
    let mut f = Forest::new();
    f.push_back(outer);
    assert_eq!(
        transcript(&f),
        vec![('B', 1), ('B', 2), ('L', 3), ('E', 2), ('E', 1)]
    );
}
