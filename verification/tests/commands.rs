use rel_lang::repl_commands::{Action, Node};

fn parts(line: &str) -> Vec<String> {
    line.split_whitespace().map(|s| s.to_string()).collect()
}

#[test]
fn test_traverse_dispatch() {
    let root = Node::root();
    let help = root.traverse(&parts(".help")).unwrap();
    assert_eq!(help.func, Some(Action::Help));
    let quit = root.traverse(&parts(".exit")).unwrap();
    assert_eq!(quit.func, Some(Action::Quit));
    let load = root.traverse(&parts(".load mat R r.mat")).unwrap();
    assert_eq!(load.func, Some(Action::LoadMatrix));
    let save = root.traverse(&parts(".save rel R r.ascii")).unwrap();
    assert_eq!(save.func, Some(Action::SaveRelation));
    // A bare group keyword reaches a node that completes no command.
    let incomplete = root.traverse(&parts(".load")).unwrap();
    assert_eq!(incomplete.func, None);
    // Unknown commands fall off the tree.
    assert!(root.traverse(&parts(".xyz")).is_none());
}

#[test]
fn test_traverse_prefix_resolution() {
    let root = Node::root();
    // A prefix naming several commands takes the first in order.
    let s = root.traverse(&parts(".s")).unwrap();
    assert_eq!(s.func, None);
    // Tokens beyond the matched keywords fall off the tree.
    assert!(root.traverse(&parts(".s R f")).is_none());
    let h = root.traverse(&parts(".h")).unwrap();
    assert_eq!(h.func, Some(Action::Help));
}

#[test]
fn test_next_keywords_by_prefix() {
    let root = Node::root();
    let all = root.next_keywords_by_prefix(".");
    assert_eq!(all, vec![".exit", ".help", ".load", ".save", ".store"]);
    let s = root.next_keywords_by_prefix(".s");
    assert_eq!(s, vec![".save", ".store"]);
    let none = root.next_keywords_by_prefix(".z");
    assert!(none.is_empty());
}
