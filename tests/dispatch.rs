use assistant_rs::dispatch::match_commands;
use assistant_rs::modes::{Command, CommandMessage, ModeTree};
use assistant_rs::speech::dispatch_utterance;

#[test]
fn test_command_match() {
    let tree = ModeTree::empty();
    let root = vec![
        Command::new(
            CommandMessage::from_raw("fire fox".to_owned()).unwrap(),
            None,
            Some("firefox".to_owned()),
        ),
        Command::new(
            CommandMessage::from_raw("telegram".to_owned()).unwrap(),
            Some("flatpak run org.telegram.telegram".to_owned()),
            None,
        ),
    ];
    let tree = tree.with_commands(root).unwrap();
    let firefox = vec![
        Command::new(
            CommandMessage::from_raw("you tube".to_owned()).unwrap(),
            None,
            Some("youtube".to_owned()),
        ),
        Command::new(
            CommandMessage::from_raw("new window".to_owned()).unwrap(),
            Some("firefox".to_owned()),
            None,
        ),
        Command::new(
            CommandMessage::from_raw("blue tube".to_owned()).unwrap(),
            Some("firefox bluetoob.com".to_owned()),
            None,
        ),
    ];
    let tree = tree.with_mode("firefox".to_owned(), firefox).unwrap();
    let youtube = vec![
        Command::new(
            CommandMessage::from_raw("f one".to_owned()).unwrap(),
            Some("firefox youtube.com/channel/f1".to_owned()),
            None,
        ),
        Command::new(
            CommandMessage::from_raw("f two".to_owned()).unwrap(),
            Some("firefox youtube.com/channel/f2".to_owned()),
            None,
        ),
    ];

    let tree = tree.with_mode("youtube".to_owned(), youtube).unwrap();
    let (to_run, next_mode) = match_commands(&tree, None, "firefox youtube").unwrap();
    assert_eq!(to_run, Vec::<String>::new());
    assert_eq!(next_mode.as_ref().map(|s| s.as_ref()), Some("youtube"));
}

fn cmd(message: &str, action: Option<&str>, next: Option<&str>) -> Command {
    Command::new(
        CommandMessage::from_raw(message.to_owned()).unwrap(),
        action.map(|s| s.to_owned()),
        next.map(|s| s.to_owned()),
    )
}

fn browser_tree() -> ModeTree {
    ModeTree::empty()
        .with_commands(vec![cmd("browser", None, Some("web")), cmd("terminal", Some("xterm"), None)])
        .unwrap()
        .with_mode(
            "web".to_owned(),
            vec![cmd("mail", Some("open mail"), None), cmd("news", Some("open news"), None)],
        )
        .unwrap()
}

#[test]
fn full_path_runs_terminal_command() {
    let (run, next) = match_commands(&browser_tree(), None, "browser news").unwrap();
    assert_eq!(vec!["open news".to_owned()], run);
    assert_eq!(None, next);
}

#[test]
fn terminal_edge_in_default_mode() {
    let (run, next) = match_commands(&browser_tree(), None, "terminal").unwrap();
    assert_eq!(vec!["xterm".to_owned()], run);
    assert_eq!(None, next);
}

#[test]
fn first_candidate_is_taken_without_prefix() {
    let (run, next) = match_commands(&browser_tree(), Some("web"), "zzzzzzzz").unwrap();
    assert_eq!(vec!["open mail".to_owned()], run);
    assert_eq!(None, next);
}

#[test]
fn no_better_edge_keeps_current_mode() {
    let (run, next) = match_commands(&browser_tree(), None, "browser").unwrap();
    assert!(run.is_empty());
    assert_eq!(Some("web".to_owned()), next);
}

#[test]
fn fallback_with_action_runs_and_ends() {
    let tree = ModeTree::empty()
        .with_commands(vec![cmd("start", None, Some("m"))])
        .unwrap()
        .with_mode(
            "m".to_owned(),
            vec![cmd("", Some("default action"), None), cmd("special", Some("special action"), None)],
        )
        .unwrap();
    let (run, next) = match_commands(&tree, None, "start").unwrap();
    assert_eq!(vec!["default action".to_owned()], run);
    assert_eq!(None, next);
    let (run, next) = match_commands(&tree, None, "start special").unwrap();
    assert_eq!(vec!["special action".to_owned()], run);
    assert_eq!(None, next);
}

#[test]
fn fallback_with_mode_switches_without_action() {
    let tree = ModeTree::empty()
        .with_commands(vec![cmd("start", None, Some("m"))])
        .unwrap()
        .with_mode("m".to_owned(), vec![cmd(" ", None, Some("n"))])
        .unwrap()
        .with_mode("n".to_owned(), vec![cmd("x", Some("run x"), None)])
        .unwrap();
    let (run, next) = match_commands(&tree, None, "start").unwrap();
    assert!(run.is_empty());
    assert_eq!(Some("n".to_owned()), next);
}

#[test]
fn utterance_is_trimmed_before_matching() {
    let (run, next) = dispatch_utterance(&browser_tree(), None, "  terminal \n").unwrap();
    assert_eq!(vec!["xterm".to_owned()], run);
    assert_eq!(None, next);
}
