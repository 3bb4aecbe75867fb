use syntree::{Builder, Node, Span, Tree};

#[derive(Clone, Copy, Debug, PartialEq, Eq)]
enum K {
    List,
    Num,
    Comma,
    Add,
    Mul,
    Plus,
    Star,
}

fn kinds(nodes: &[Node<'_, K>]) -> Vec<K> {
    nodes.iter().map(|n| n.kind()).collect()
}

/// Every entry of the tree in preorder, with its depth.
fn flatten(tree: &Tree<K>) -> Vec<(K, usize)> {
    fn walk(node: Node<'_, K>, depth: usize, out: &mut Vec<(K, usize)>) {
        out.push((node.kind(), depth));
        for child in node.children() {
            walk(child, depth + 1, out);
        }
    }
    let mut out = Vec::new();
    walk(tree.root(), 0, &mut out);
    out
}

#[test]
fn list_without_checkpoints() {
    let mut b: Builder<K> = Builder::default();
    b.start_node(K::List, Span::new(0, 1));
    b.token(K::Num, Span::new(0, 1));
    b.token(K::Comma, Span::new(1, 2));
    b.token(K::Num, Span::new(2, 3));
    b.finish_node();
    let tree = b.build();
    let root = tree.root();
    assert_eq!(root.kind(), K::List);
    assert_eq!(root.span(), Span::new(0, 3));
    let children = root.children();
    assert_eq!(kinds(&children), vec![K::Num, K::Comma, K::Num]);
    assert_eq!(children[0].span(), Span::new(0, 1));
    assert_eq!(children[1].span(), Span::new(1, 2));
    assert_eq!(children[2].span(), Span::new(2, 3));
    for child in &children {
        assert!(child.children().is_empty());
    }
}

#[test]
fn precedence_climbing_with_checkpoints() {
    // 1+2*3
    let mut b: Builder<K> = Builder::default();
    let cp0 = b.checkpoint(Span::new(0, 1));
    b.token(K::Num, Span::new(0, 1));
    b.token(K::Plus, Span::new(1, 2));
    let cp1 = b.checkpoint(Span::new(2, 3));
    b.token(K::Num, Span::new(2, 3));
    b.token(K::Star, Span::new(3, 4));
    b.token(K::Num, Span::new(4, 5));
    b.finish_node_at(cp1, K::Mul);
    b.finish_node_at(cp0, K::Add);
    let tree = b.build();
    let add = tree.root();
    assert_eq!(add.kind(), K::Add);
    assert_eq!(add.span(), Span::new(0, 5));
    let top = add.children();
    assert_eq!(kinds(&top), vec![K::Num, K::Plus, K::Mul]);
    assert_eq!(top[0].span(), Span::new(0, 1));
    assert_eq!(top[1].span(), Span::new(1, 2));
    let mul = top[2];
    assert_eq!(mul.span(), Span::new(2, 5));
    let inner = mul.children();
    assert_eq!(kinds(&inner), vec![K::Num, K::Star, K::Num]);
    assert_eq!(inner[2].span(), Span::new(4, 5));
    assert_eq!(
        flatten(&tree),
        vec![
            (K::Add, 0),
            (K::Num, 1),
            (K::Plus, 1),
            (K::Mul, 1),
            (K::Num, 2),
            (K::Star, 2),
            (K::Num, 2),
        ]
    );
}

#[test]
fn nested_calls_round_trip_through_preorder() {
    // List[ Num, List[ Num, List[] ], Comma, Num ]
    let mut b: Builder<K> = Builder::default();
    b.start_node(K::List, Span::new(0, 0));
    b.token(K::Num, Span::new(0, 1));
    b.start_node(K::List, Span::new(2, 2));
    b.token(K::Num, Span::new(2, 3));
    b.start_node(K::List, Span::new(4, 4));
    b.finish_node();
    b.finish_node();
    b.token(K::Comma, Span::new(5, 6));
    b.token(K::Num, Span::new(7, 8));
    b.finish_node();
    let tree = b.build();
    assert_eq!(
        flatten(&tree),
        vec![
            (K::List, 0),
            (K::Num, 1),
            (K::List, 1),
            (K::Num, 2),
            (K::List, 2),
            (K::Comma, 1),
            (K::Num, 1),
        ]
    );
    let root = tree.root();
    assert_eq!(kinds(&root.children()), vec![K::Num, K::List, K::Comma, K::Num]);
    let order = root.pre_order();
    assert_eq!(order.len(), 7);
    assert_eq!(
        kinds(&order),
        vec![K::List, K::Num, K::List, K::Num, K::List, K::Comma, K::Num]
    );
    let inner = root.children()[1];
    assert_eq!(kinds(&inner.pre_order()), vec![K::List, K::Num, K::List]);
    assert_eq!(inner.span(), Span::new(2, 4));
    assert_eq!(root.span(), Span::new(0, 8));
}

#[test]
fn node_span_includes_initial_spans_below_it() {
    // An empty inner node whose initial span lies beyond every token still widens its
    // ancestors.
    let mut b: Builder<K> = Builder::default();
    b.start_node(K::List, Span::new(3, 3));
    b.token(K::Num, Span::new(3, 4));
    b.start_node(K::List, Span::new(9, 10));
    b.finish_node();
    b.finish_node();
    let tree = b.build();
    let root = tree.root();
    assert_eq!(root.span(), Span::new(3, 10));
    assert_eq!(root.children()[1].span(), Span::new(9, 10));
}

#[test]
fn wrap_span_reaches_open_ancestors() {
    let mut b: Builder<K> = Builder::default();
    b.start_node(K::List, Span::new(5, 5));
    let cp = b.checkpoint(Span::new(1, 2));
    b.token(K::Num, Span::new(5, 6));
    b.finish_node_at(cp, K::Add);
    b.finish_node();
    let tree = b.build();
    let root = tree.root();
    assert_eq!(root.span(), Span::new(1, 6));
    let add = root.children()[0];
    assert_eq!(add.kind(), K::Add);
    assert_eq!(add.span(), Span::new(1, 6));
    assert_eq!(kinds(&add.children()), vec![K::Num]);
}

#[test]
fn wrap_at_current_position_makes_an_empty_node() {
    let mut b: Builder<K> = Builder::default();
    b.start_node(K::List, Span::new(0, 1));
    b.token(K::Num, Span::new(0, 1));
    let cp = b.checkpoint(Span::new(1, 1));
    b.finish_node_at(cp, K::Mul);
    b.finish_node();
    let tree = b.build();
    let root = tree.root();
    assert_eq!(kinds(&root.children()), vec![K::Num, K::Mul]);
    let mul = root.children()[1];
    assert!(mul.children().is_empty());
    assert_eq!(mul.span(), Span::new(1, 1));
    assert_eq!(root.span(), Span::new(0, 1));
}

#[test]
fn single_token_tree() {
    let mut b: Builder<K> = Builder::default();
    b.token(K::Num, Span::new(4, 7));
    let tree = b.build();
    let root = tree.root();
    assert_eq!(root.kind(), K::Num);
    assert_eq!(root.span(), Span::new(4, 7));
    assert!(root.children().is_empty());
    assert_eq!(root.pre_order().len(), 1);
}

#[test]
fn top_level_tokens_after_the_root_are_not_its_children() {
    let mut b: Builder<K> = Builder::default();
    b.token(K::Num, Span::new(0, 1));
    b.token(K::Num, Span::new(2, 3));
    let tree = b.build();
    let root = tree.root();
    assert!(root.children().is_empty());
    assert_eq!(root.span(), Span::new(0, 1));
}

#[test]
fn merge_takes_the_smallest_covering_range() {
    assert_eq!(Span::new(2, 5).merge(Span::new(4, 9)), Span::new(2, 9));
    assert_eq!(Span::new(4, 9).merge(Span::new(2, 5)), Span::new(2, 9));
    assert_eq!(Span::new(1, 8).merge(Span::new(3, 4)), Span::new(1, 8));
    assert!(Span::new(1, 8).contains(Span::new(3, 4)));
    assert!(!Span::new(3, 4).contains(Span::new(1, 8)));
}
