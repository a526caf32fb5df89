use assistant_rs::error::ConfigError;
use assistant_rs::modes::{Command, CommandMessage, ModeTree};

fn cmd(message: &str, action: Option<&str>, next: Option<&str>) -> Command {
    Command::new(
        CommandMessage::from_raw(message.to_owned()).unwrap(),
        action.map(|s| s.to_owned()),
        next.map(|s| s.to_owned()),
    )
}

#[test]
fn dangling_mode_reference_is_refused() {
    let tree = ModeTree::empty()
        .with_commands(vec![cmd("go", None, Some("nowhere"))])
        .unwrap();
    match tree.verify() {
        Err(ConfigError::ModeNotFound(m)) => assert_eq!("nowhere", m),
        other => panic!("unexpected: {:?}", other),
    }
}

#[test]
fn duplicate_mode_is_refused() {
    let tree = ModeTree::empty()
        .with_commands(vec![cmd("x", None, Some("x"))])
        .unwrap()
        .with_mode("x".to_owned(), vec![cmd("a", Some("run a"), None)])
        .unwrap();
    match tree.with_mode("x".to_owned(), vec![cmd("b", Some("run b"), None)]) {
        Err(ConfigError::DuplicateMode(m)) => assert_eq!("x", m),
        other => panic!("unexpected: {:?}", other),
    }
}

#[test]
fn unreferenced_mode_is_refused() {
    let tree = ModeTree::empty()
        .with_commands(vec![cmd("hello", Some("echo hi"), None)])
        .unwrap()
        .with_mode("orphan".to_owned(), vec![cmd("a", Some("run a"), None)])
        .unwrap();
    match tree.verify() {
        Err(ConfigError::UnreachableMode(m)) => assert_eq!("orphan", m),
        other => panic!("unexpected: {:?}", other),
    }
}

#[test]
fn empty_default_and_empty_mode_are_refused() {
    assert!(matches!(ModeTree::empty().verify(), Err(ConfigError::NoCommands)));
    let tree = ModeTree::empty()
        .with_commands(vec![cmd("go", None, Some("m"))])
        .unwrap()
        .with_mode("m".to_owned(), vec![])
        .unwrap();
    match tree.verify() {
        Err(ConfigError::EmptyMode(m)) => assert_eq!("m", m),
        other => panic!("unexpected: {:?}", other),
    }
}

#[test]
fn duplicate_message_is_refused() {
    let tree = ModeTree::empty().with_commands(vec![cmd("a", None, None)]).unwrap();
    match tree.with_commands(vec![cmd("b", None, None), cmd("a", Some("x"), None)]) {
        Err(ConfigError::DuplicateMessage(m)) => assert_eq!("a", m),
        other => panic!("unexpected: {:?}", other),
    }
    match ModeTree::empty().with_mode("m".to_owned(), vec![cmd("c", None, None), cmd("c", None, None)]) {
        Err(ConfigError::DuplicateMessage(m)) => assert_eq!("c", m),
        other => panic!("unexpected: {:?}", other),
    }
}

#[test]
fn valid_graph_verifies_again_and_again() {
    let tree = ModeTree::empty()
        .with_commands(vec![cmd("go", None, Some("m"))])
        .unwrap()
        .with_mode("m".to_owned(), vec![cmd("back", None, Some("m")), cmd("run", Some("ls"), None)])
        .unwrap();
    assert!(tree.verify().is_ok());
    assert!(tree.verify().is_ok());
}

fn graph_a() -> ModeTree {
    ModeTree::empty()
        .with_commands(vec![cmd("a", None, Some("ma"))])
        .unwrap()
        .with_mode("ma".to_owned(), vec![cmd("a1", Some("x"), None)])
        .unwrap()
}

fn graph_b() -> ModeTree {
    ModeTree::empty()
        .with_commands(vec![cmd("b", None, Some("mb"))])
        .unwrap()
        .with_mode("mb".to_owned(), vec![cmd("b1", Some("y"), None)])
        .unwrap()
}

fn graph_c() -> ModeTree {
    ModeTree::empty().with_commands(vec![cmd("c", Some("z"), None)]).unwrap()
}

#[test]
fn merging_disjoint_graphs_is_associative() {
    let left = graph_a().or_else(graph_b()).unwrap().or_else(graph_c()).unwrap();
    let right = graph_a().or_else(graph_b().or_else(graph_c()).unwrap()).unwrap();
    assert_eq!(format!("{:?}", left), format!("{:?}", right));
    let msgs: Vec<&str> = left.commands_for_mode(None).iter().map(|c| c.message()).collect();
    assert_eq!(vec!["a", "b", "c"], msgs);
    assert_eq!(1, left.commands_for_mode(Some("mb")).len());
    assert_eq!("b1", left.commands_for_mode(Some("mb"))[0].message());
    assert!(left.verify().is_ok());
}

#[test]
fn merging_valid_disjoint_graphs_validates() {
    assert!(graph_a().verify().is_ok());
    assert!(graph_b().verify().is_ok());
    assert!(graph_a().or_else(graph_b()).unwrap().verify().is_ok());
}

#[test]
fn merging_clashing_mode_names_is_refused() {
    let a = ModeTree::empty().with_mode("m".to_owned(), vec![cmd("a", None, None)]).unwrap();
    let b = ModeTree::empty().with_mode("m".to_owned(), vec![cmd("b", None, None)]).unwrap();
    match a.or_else(b) {
        Err(ConfigError::DuplicateMode(m)) => assert_eq!("m", m),
        other => panic!("unexpected: {:?}", other),
    }
}

#[test]
fn command_accessors() {
    let c = cmd("open", Some("xdg-open ."), Some("next"));
    assert_eq!("open", c.message());
    assert_eq!(Some("xdg-open ."), c.command());
    assert_eq!(Some("next"), c.next_mode());
    let tree = ModeTree::empty().with_commands(vec![c]).unwrap();
    assert_eq!(1, tree.commands_for_mode(Some("missing")).len());
}

#[test]
fn modes_that_only_reach_each_other_are_unreachable() {
    let tree = ModeTree::empty()
        .with_commands(vec![cmd("hello", Some("echo hi"), None)])
        .unwrap()
        .with_mode("ping".to_owned(), vec![cmd("to pong", None, Some("pong"))])
        .unwrap()
        .with_mode("pong".to_owned(), vec![cmd("to ping", None, Some("ping"))])
        .unwrap();
    match tree.verify() {
        Err(ConfigError::UnreachableMode(m)) => assert_eq!("ping", m),
        other => panic!("unexpected: {:?}", other),
    }
}
