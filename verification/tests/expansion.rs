use axiograph::{Expansion, Node, Outcome, QueryError};

fn exp_strings(items: &[&str]) -> Vec<String> {
    items.iter().map(|s| s.to_string()).collect()
}

fn exp_candidates(items: &[&str]) -> Outcome {
    Outcome::Candidates(exp_strings(items))
}

fn exp_height(node: &Node) -> usize {
    1 + node.children.iter().map(|c| exp_height(c)).max().unwrap_or(0)
}

fn exp_labels(node: &Node) -> Vec<String> {
    node.children.iter().map(|c| c.statement.clone()).collect()
}

#[test]
fn depth_zero_yields_a_single_leaf_without_requests() {
    let expansion = Expansion::new("X".to_string(), 0);
    assert!(expansion.requests().is_empty());
    let tree = expansion.finish().unwrap();
    assert_eq!(tree.statement, "X");
    assert!(tree.children.is_empty());
}

#[test]
fn depth_one_yields_the_candidates_as_leaves() {
    let mut expansion = Expansion::new("X".to_string(), 1);
    let requests = expansion.requests();
    assert_eq!(requests.len(), 1);
    assert_eq!(requests[0].statement, "X");
    assert!(requests[0].path.is_empty());
    assert!(requests[0].ancestors.is_empty());
    assert!(expansion.deliver(&requests[0].path, exp_candidates(&["A", "B"])));
    assert!(expansion.requests().is_empty());
    let tree = expansion.finish().unwrap();
    assert_eq!(tree.statement, "X");
    assert_eq!(exp_labels(&tree), vec!["A", "B"]);
    assert!(tree.children[0].children.is_empty());
    assert!(tree.children[1].children.is_empty());
}

#[test]
fn a_failed_child_is_left_out_and_the_run_goes_on() {
    let mut expansion = Expansion::new("X".to_string(), 2);
    assert!(expansion.deliver(&vec![], exp_candidates(&["A", "B"])));
    let requests = expansion.requests();
    assert_eq!(requests.len(), 2);
    assert!(expansion.deliver(&requests[0].path, Outcome::Failed(QueryError::ParseExhausted)));
    assert!(expansion.deliver(&requests[1].path, exp_candidates(&[])));
    assert!(expansion.requests().is_empty());
    let tree = expansion.finish().unwrap();
    assert_eq!(tree.statement, "X");
    assert_eq!(exp_labels(&tree), vec!["B"]);
}

#[test]
fn a_request_that_never_got_through_drops_the_child_too() {
    let mut expansion = Expansion::new("X".to_string(), 2);
    expansion.deliver(&vec![], exp_candidates(&["A", "B", "C"]));
    expansion.deliver(&vec![1], Outcome::Failed(QueryError::RequestFailed));
    expansion.deliver(&vec![0], exp_candidates(&["D"]));
    expansion.deliver(&vec![2], exp_candidates(&[]));
    let tree = expansion.finish().unwrap();
    assert_eq!(exp_labels(&tree), vec!["A", "C"]);
    assert_eq!(exp_labels(&tree.children[0]), vec!["D"]);
}

#[test]
fn a_failed_root_leaves_no_tree() {
    let mut expansion = Expansion::new("X".to_string(), 3);
    assert!(expansion.deliver(&vec![], Outcome::Failed(QueryError::RequestFailed)));
    assert!(expansion.requests().is_empty());
    assert!(expansion.finish().is_none());
}

#[test]
fn a_waiting_root_leaves_no_tree() {
    let expansion = Expansion::new("X".to_string(), 1);
    assert!(expansion.finish().is_none());
}

#[test]
fn an_empty_answer_makes_a_leaf() {
    let mut expansion = Expansion::new("X".to_string(), 5);
    expansion.deliver(&vec![], exp_candidates(&[]));
    assert!(expansion.requests().is_empty());
    let tree = expansion.finish().unwrap();
    assert!(tree.children.is_empty());
}

#[test]
fn requests_carry_the_path_and_the_lineage() {
    let mut expansion = Expansion::new("X".to_string(), 3);
    expansion.deliver(&vec![], exp_candidates(&["A", "B"]));
    expansion.deliver(&vec![1], exp_candidates(&["C", "D"]));
    let requests = expansion.requests();
    assert_eq!(requests.len(), 3);
    assert_eq!(requests[0].path, vec![0]);
    assert_eq!(requests[0].statement, "A");
    assert_eq!(requests[0].ancestors, vec!["X"]);
    assert_eq!(requests[1].path, vec![1, 0]);
    assert_eq!(requests[1].statement, "C");
    assert_eq!(requests[1].ancestors, vec!["X", "B"]);
    assert_eq!(requests[2].path, vec![1, 1]);
    assert_eq!(requests[2].statement, "D");
    assert_eq!(requests[2].ancestors, vec!["X", "B"]);
}

#[test]
fn no_path_is_longer_than_the_depth_limit_allows() {
    for depth in 0..4u32 {
        let mut expansion = Expansion::new("X".to_string(), depth);
        loop {
            let requests = expansion.requests();
            if requests.is_empty() {
                break;
            }
            for request in requests {
                assert!(expansion.deliver(&request.path, exp_candidates(&["P", "Q"])));
            }
        }
        let tree = expansion.finish().unwrap();
        assert_eq!(exp_height(&tree), depth as usize + 1);
        assert_eq!(expansion.max_depth(), depth);
    }
}

#[test]
fn children_stand_in_the_order_of_the_candidates_however_answers_arrive() {
    let mut forward = Expansion::new("X".to_string(), 2);
    forward.deliver(&vec![], exp_candidates(&["A", "B", "C"]));
    forward.deliver(&vec![0], exp_candidates(&["A1"]));
    forward.deliver(&vec![1], exp_candidates(&["B1", "B2"]));
    forward.deliver(&vec![2], exp_candidates(&["C1"]));

    let mut backward = Expansion::new("X".to_string(), 2);
    backward.deliver(&vec![], exp_candidates(&["A", "B", "C"]));
    backward.deliver(&vec![2], exp_candidates(&["C1"]));
    backward.deliver(&vec![1], exp_candidates(&["B1", "B2"]));
    backward.deliver(&vec![0], exp_candidates(&["A1"]));

    let first = forward.finish().unwrap();
    let second = backward.finish().unwrap();
    assert_eq!(first.to_plain(), "X\nA\nA1\nB\nB1\nB2\nC\nC1\n");
    assert_eq!(first.to_dot(), second.to_dot());
    assert_eq!(exp_labels(&second), vec!["A", "B", "C"]);
}

#[test]
fn the_same_answers_give_the_same_tree_again() {
    let grow = || {
        let mut expansion = Expansion::new("X".to_string(), 2);
        expansion.deliver(&vec![], exp_candidates(&["A", "B"]));
        expansion.deliver(&vec![0], exp_candidates(&["C", "D"]));
        expansion.deliver(&vec![1], Outcome::Failed(QueryError::ParseExhausted));
        expansion.finish().unwrap().to_dot()
    };
    assert_eq!(grow(), grow());
}

#[test]
fn an_answer_for_a_node_that_does_not_wait_changes_nothing() {
    let mut expansion = Expansion::new("X".to_string(), 2);
    assert!(!expansion.deliver(&vec![0], exp_candidates(&["A"])));
    assert!(expansion.deliver(&vec![], exp_candidates(&["A"])));
    assert!(!expansion.deliver(&vec![], exp_candidates(&["B", "C"])));
    assert!(!expansion.deliver(&vec![5], exp_candidates(&["B"])));
    assert!(expansion.deliver(&vec![0], exp_candidates(&["D"])));
    assert!(!expansion.deliver(&vec![0, 0], exp_candidates(&["E"])));
    let tree = expansion.finish().unwrap();
    assert_eq!(tree.to_plain(), "X\nA\nD\n");
}

#[test]
fn a_lost_task_drops_the_parent_that_was_to_collect_it() {
    let mut expansion = Expansion::new("X".to_string(), 3);
    expansion.deliver(&vec![], exp_candidates(&["A", "B"]));
    expansion.deliver(&vec![0], exp_candidates(&["C", "D"]));
    expansion.deliver(&vec![1], exp_candidates(&[]));
    assert!(expansion.deliver(&vec![0, 1], Outcome::Lost));
    assert!(!expansion.deliver(&vec![0, 0], exp_candidates(&["E"])));
    assert!(expansion.requests().is_empty());
    let tree = expansion.finish().unwrap();
    assert_eq!(tree.to_plain(), "X\nB\n");
}

#[test]
fn a_lost_root_task_leaves_no_tree() {
    let mut expansion = Expansion::new("X".to_string(), 1);
    assert!(expansion.deliver(&vec![], Outcome::Lost));
    assert!(expansion.finish().is_none());
}
