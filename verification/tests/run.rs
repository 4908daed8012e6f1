use axiograph::prompt::{ancestor_clause, few_shot, message, single_turn};
use axiograph::{Axiograph, Outcome, Round};

#[test]
fn the_root_has_no_lineage_clause() {
    assert_eq!(ancestor_clause(&Vec::new()), "");
}

#[test]
fn the_lineage_clause_quotes_every_ancestor() {
    assert_eq!(ancestor_clause(&vec!["X".to_string()]), "The previous axioms were: \"X\".");
    assert_eq!(
        ancestor_clause(&vec!["X".to_string(), "A b".to_string(), "C".to_string()]),
        "The previous axioms were: \"X\", \"A b\", \"C\"."
    );
}

#[test]
fn a_message_holds_role_and_content() {
    let m = message("user", "hello");
    assert_eq!(m.role, "user");
    assert_eq!(m.content, "hello");
}

#[test]
fn the_expansion_request_shows_one_example_first() {
    let messages = few_shot("rules", "example", "answer", "question");
    let roles: Vec<&str> = messages.iter().map(|m| m.role.as_str()).collect();
    let contents: Vec<&str> = messages.iter().map(|m| m.content.as_str()).collect();
    assert_eq!(roles, vec!["system", "user", "assistant", "user"]);
    assert_eq!(contents, vec!["rules", "example", "answer", "question"]);
}

#[test]
fn a_single_question_may_come_without_instructions() {
    let with = single_turn(Some("rules"), "question");
    assert_eq!(with.len(), 2);
    assert_eq!(with[0].role, "system");
    assert_eq!(with[0].content, "rules");
    assert_eq!(with[1].role, "user");
    assert_eq!(with[1].content, "question");
    let without = single_turn(None, "question");
    assert_eq!(without.len(), 1);
    assert_eq!(without[0].role, "user");
    assert_eq!(without[0].content, "question");
}

#[test]
fn a_new_run_has_no_tree() {
    let run = Axiograph::new("X".to_string(), 2, Some("background".to_string()));
    assert_eq!(run.statement, "X");
    assert_eq!(run.depth, 2);
    assert_eq!(run.context.as_deref(), Some("background"));
    assert!(run.axiom_graph.is_none());
    assert!(run.get_axioms().is_none());
}

#[test]
fn a_run_takes_over_the_tree_of_its_expansion() {
    let mut run = Axiograph::new("X".to_string(), 1, None);
    let mut expansion = run.expansion();
    assert_eq!(expansion.max_depth(), 1);
    let requests = expansion.requests();
    assert_eq!(requests.len(), 1);
    assert_eq!(requests[0].statement, "X");
    expansion.deliver(&requests[0].path, Outcome::Candidates(vec!["A".to_string(), "A".to_string()]));
    run.run(&expansion);
    assert_eq!(run.get_axioms().unwrap().statement, "X");
    assert_eq!(run.to_plain(), "X\nA\nA\n");
    assert_eq!(
        run.to_dot(),
        "digraph axioms {rankdir=LR;overlap=prism;overlap_scaling=-5;\n\"X\" [label=\"X\"];\n\"X\" -> \"A\";\n\"A\" [label=\"A\"];\n\"X\" -> \"A\";\n\"A\" [label=\"A\"];\n\n}"
    );
    let mut reducer = run.summarize();
    assert_eq!(reducer.chunks(), vec!["X\nA\n"]);
    match reducer.absorb(&vec![Some("X:\n- A".to_string())]) {
        Ok(Round::Done(text)) => assert_eq!(text, "X:\n- A"),
        _ => panic!("the reduction did not end"),
    }
}

#[test]
fn a_run_whose_root_failed_has_no_tree() {
    let mut run = Axiograph::new("X".to_string(), 1, None);
    let mut expansion = run.expansion();
    expansion.deliver(&vec![], Outcome::Lost);
    run.run(&expansion);
    assert!(run.get_axioms().is_none());
    assert_eq!(run.statement, "X");
    assert_eq!(run.depth, 1);
}
