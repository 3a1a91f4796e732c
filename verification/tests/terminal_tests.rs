use blockchain_node::terminal_input::{parse_line, Command, CommandReader, Key, LineOutcome};

fn parse(s: &str) -> LineOutcome {
    let chars: Vec<char> = s.chars().collect();
    parse_line(&chars)
}

#[test]
fn commands_and_their_short_forms() {
    assert!(matches!(parse("ping"), LineOutcome::Command(Command::SendPing)));
    assert!(matches!(parse("quit"), LineOutcome::Command(Command::Quit)));
    assert!(matches!(parse("q"), LineOutcome::Command(Command::Quit)));
    assert!(matches!(parse(" mine"), LineOutcome::Command(Command::StartMining)));
    assert!(matches!(parse("m"), LineOutcome::Command(Command::StartMining)));
    assert!(matches!(parse("pause  "), LineOutcome::Command(Command::PauseMining)));
    assert!(matches!(parse("p"), LineOutcome::Command(Command::PauseMining)));
    assert!(matches!(parse("top"), LineOutcome::Command(Command::ShowTopBlock)));
    assert!(matches!(parse("\tt extra"), LineOutcome::Command(Command::ShowTopBlock)));
}

#[test]
fn connect_takes_the_second_word() {
    match parse("connect  127.0.0.1:8000 more") {
        LineOutcome::Command(Command::Connect(a)) => assert_eq!(a, "127.0.0.1:8000"),
        other => panic!("unexpected {:?}", other),
    }
    match parse("c [::1]:9") {
        LineOutcome::Command(Command::Connect(a)) => assert_eq!(a, "[::1]:9"),
        other => panic!("unexpected {:?}", other),
    }
    assert!(matches!(parse("connect"), LineOutcome::MissingAddress));
    assert!(matches!(parse("c   "), LineOutcome::MissingAddress));
}

#[test]
fn unknown_and_empty_lines() {
    match parse("  pingx y") {
        LineOutcome::Unknown(w) => assert_eq!(w, "pingx"),
        other => panic!("unexpected {:?}", other),
    }
    assert!(matches!(parse(""), LineOutcome::Empty));
    assert!(matches!(parse("   \t"), LineOutcome::Empty));
}

#[test]
fn reader_gathers_a_line_until_enter() {
    let mut r = CommandReader::new();
    assert!(r.key(Key::Char('t')).is_none());
    assert!(r.key(Key::Other).is_none());
    assert!(r.key(Key::Char('o')).is_none());
    assert!(r.key(Key::Char('p')).is_none());
    assert!(matches!(r.key(Key::Enter), Some(LineOutcome::Command(Command::ShowTopBlock))));
    assert!(matches!(r.key(Key::Enter), Some(LineOutcome::Empty)));
}

#[test]
fn words_split_where_std_splits_them() {
    let line = "\u{3000}connect\u{2003}\u{85}10.0.0.1:1\u{a0}x";
    match parse(line) {
        LineOutcome::Command(Command::Connect(a)) => assert_eq!(a, "10.0.0.1:1"),
        other => panic!("unexpected {:?}", other),
    }
    let std_words: Vec<&str> = line.split_whitespace().collect();
    assert_eq!(std_words, vec!["connect", "10.0.0.1:1", "x"]);
    // A zero-width space is no whitespace, for std and for the parser.
    match parse("\u{200b}q") {
        LineOutcome::Unknown(w) => assert_eq!(w, "\u{200b}q"),
        other => panic!("unexpected {:?}", other),
    }
    for c in ['\u{1680}', '\u{2028}', '\u{2029}', '\u{202f}', '\u{205f}', '\u{b}', '\u{c}', '\r'] {
        assert!(c.is_whitespace());
        assert!(matches!(parse(&format!("{}q{}", c, c)), LineOutcome::Command(Command::Quit)));
    }
}
