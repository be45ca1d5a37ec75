use waraner_client::console::{
    command_of_word, despawn_target, parse_index, split_words, Console, ConsoleCommand,
};
use waraner_client::ecs::Entity;

#[test]
fn words_split_on_whitespace() {
    assert_eq!(split_words("  spawn\tprop.mesh  1 2\n3 "), vec!["spawn", "prop.mesh", "1", "2", "3"]);
    assert!(split_words(" \t\n").is_empty());
    assert_eq!(split_words("a\u{a0}b"), vec!["a", "b"]);
}

#[test]
fn commands_with_or_without_slash() {
    assert_eq!(command_of_word("help"), ConsoleCommand::Help);
    assert_eq!(command_of_word("/despawn"), ConsoleCommand::Despawn);
    assert_eq!(command_of_word("//help"), ConsoleCommand::Unknown);
    assert_eq!(command_of_word("Help"), ConsoleCommand::Unknown);
    assert_eq!(command_of_word("/teleport"), ConsoleCommand::Teleport);
}

#[test]
fn submit_echoes_and_keeps_history() {
    let mut c = Console::new();
    assert_eq!(c.log, vec!["Console ready. Type /help for commands."]);
    assert!(c.submit("   ").is_none());
    assert_eq!(c.log.len(), 1);
    let (cmd, args) = c.submit("/spawn prop.mesh 1 2 3").unwrap();
    assert_eq!(cmd, ConsoleCommand::Spawn);
    assert_eq!(args, vec!["prop.mesh", "1", "2", "3"]);
    assert_eq!(c.log.last().unwrap(), "> /spawn prop.mesh 1 2 3");
    let (cmd, _) = c.submit("dance now").unwrap();
    assert_eq!(cmd, ConsoleCommand::Unknown);
    assert_eq!(&c.log[c.log.len() - 2..], &["> dance now".to_string(), "Unknown command: dance".to_string()]);
    assert_eq!(c.history, vec!["/spawn prop.mesh 1 2 3", "dance now"]);
    assert_eq!(c.history_index, 2);
    c.clear();
    assert!(c.log.is_empty());
    assert_eq!(c.history.len(), 2);
}

#[test]
fn help_and_types_listings() {
    let mut c = Console::new();
    c.show_help();
    assert_eq!(c.log.len(), 12);
    assert_eq!(c.log[1], "Commands:");
    assert_eq!(c.log[11], "  /load [path]     - load world from .wmap");
    let mut t = Console::new();
    t.clear();
    t.show_types();
    assert_eq!(t.log[0], "Entity types:");
    assert_eq!(t.log[1], "  [Environment]");
    assert_eq!(t.log[2], "    env.sun  (Sun)");
    assert!(t.log.contains(&"  [Props]".to_string()));
    assert!(t.log.contains(&"    prop.physics  (Physics Prop)".to_string()));
    assert_eq!(t.log.len(), 1 + 3 + 8);
    let snap = t.snapshot(true);
    assert!(snap.open);
    assert_eq!(snap.log, t.log);
}

#[test]
fn despawn_choices() {
    assert_eq!(parse_index("2"), Some(2));
    assert_eq!(parse_index("+0"), Some(0));
    assert_eq!(parse_index("-1"), None);
    assert_eq!(parse_index("x"), None);
    let p = Entity::new(0, 1);
    let a = Entity::new(1, 1);
    let b = Entity::new(2, 1);
    let dynamic = [a, p, b];
    assert_eq!(despawn_target(&dynamic, p, 0), Ok(a));
    assert_eq!(despawn_target(&dynamic, p, 1), Ok(b));
    assert_eq!(despawn_target(&dynamic, p, 2), Err(2));
    assert_eq!(despawn_target(&[], p, 0), Err(0));
}
