use axiograph::{node_to_dot, Node};

fn tree_leaf(text: &str) -> Box<Node> {
    Box::new(Node::new(text.to_string()))
}

fn tree_sample() -> Node {
    let mut left = Node::new("A".to_string());
    left.children.push(tree_leaf("C"));
    let mut root = Node::new("X".to_string());
    root.children.push(Box::new(left));
    root.children.push(tree_leaf("B"));
    root
}

#[test]
fn new_node_has_no_children() {
    let node = Node::new("X".to_string());
    assert_eq!(node.statement, "X");
    assert!(node.children.is_empty());
}

#[test]
fn plain_text_of_a_leaf() {
    assert_eq!(Node::new("X".to_string()).to_plain(), "X\n");
}

#[test]
fn plain_text_lists_parents_before_children() {
    assert_eq!(tree_sample().to_plain(), "X\nA\nC\nB\n");
}

#[test]
fn dot_lines_of_a_leaf() {
    assert_eq!(Node::new("X".to_string()).to_dot(), "\"X\" [label=\"X\"];\n");
}

#[test]
fn dot_lines_follow_each_edge_with_the_subtree() {
    let expected = "\"X\" [label=\"X\"];\n\
                    \"X\" -> \"A\";\n\
                    \"A\" [label=\"A\"];\n\
                    \"A\" -> \"C\";\n\
                    \"C\" [label=\"C\"];\n\
                    \"X\" -> \"B\";\n\
                    \"B\" [label=\"B\"];\n";
    assert_eq!(tree_sample().to_dot(), expected);
}

#[test]
fn graph_description_wraps_the_lines() {
    let node = Node::new("X".to_string());
    assert_eq!(
        node_to_dot(&node),
        "digraph axioms {rankdir=LR;overlap=prism;overlap_scaling=-5;\n\"X\" [label=\"X\"];\n\n}"
    );
}

#[test]
fn statements_keep_the_first_of_equal_ones() {
    let mut root = tree_sample();
    root.children.push(tree_leaf("A"));
    root.children.push(tree_leaf("X"));
    root.children.push(tree_leaf("D"));
    assert_eq!(root.statements(), vec!["X", "A", "C", "B", "D"]);
}

#[test]
fn statements_are_the_same_on_every_call() {
    let root = tree_sample();
    assert_eq!(root.statements(), root.statements());
}

#[test]
fn clone_copies_the_whole_tree() {
    let root = tree_sample();
    let copy = root.clone();
    assert_eq!(copy.to_plain(), root.to_plain());
    assert_eq!(copy.to_dot(), root.to_dot());
    assert_eq!(copy.children.len(), 2);
    assert_eq!(copy.children[0].children[0].statement, "C");
}

#[test]
fn non_ascii_statements_are_rendered_as_they_are() {
    let mut root = Node::new("Größe".to_string());
    root.children.push(tree_leaf("日本"));
    assert_eq!(root.to_plain(), "Größe\n日本\n");
    assert_eq!(
        root.to_dot(),
        "\"Größe\" [label=\"Größe\"];\n\"Größe\" -> \"日本\";\n\"日本\" [label=\"日本\"];\n"
    );
}
