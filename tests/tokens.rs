use rush::tokens::{tokenize_commands, Tokens};

fn cmd(main: &str, args: &[&str], or_com: Option<Tokens>, in_background: bool) -> Tokens {
    Tokens {
        main_com: String::from(main),
        args: args.iter().map(|a| String::from(*a)).collect(),
        or_com: or_com.map(Box::new),
        in_background,
    }
}

#[test]
fn single_command() {
    let commands = "ls";
    let tokens = tokenize_commands(commands);

    assert_eq!(
        vec![Tokens {
            main_com: String::from("ls"),
            args: vec![],
            or_com: None,
            in_background: false
        }],
        tokens
    );
}

#[test]
fn single_command_with_args() {
    let commands = "ls -a";
    let tokens = tokenize_commands(commands);

    assert_eq!(
        vec![Tokens {
            main_com: String::from("ls"),
            args: vec![String::from("-a")],
            or_com: None,
            in_background: false
        }],
        tokens
    );
}

#[test]
fn background_process() {
    let commands = "long-running-process &";
    let tokens = tokenize_commands(commands);

    assert_eq!(
        vec![Tokens {
            main_com: String::from("long-running-process"),
            args: vec![],
            or_com: None,
            in_background: true
        }],
        tokens
    );
}

#[test]
fn background_process_with_other() {
    let commands = "long-running-process & date";
    let tokens = tokenize_commands(commands);

    assert_eq!(
        vec![
            Tokens {
                main_com: String::from("long-running-process"),
                args: vec![],
                or_com: None,
                in_background: true
            },
            Tokens {
                main_com: String::from("date"),
                args: vec![],
                or_com: None,
                in_background: false
            }
        ],
        tokens
    );
}

#[test]
fn semicolon() {
    let commands = "date ; ls";
    let tokens = tokenize_commands(commands);

    assert_eq!(
        vec![
            Tokens {
                main_com: String::from("date"),
                args: vec![],
                or_com: None,
                in_background: false
            },
            Tokens {
                main_com: String::from("ls"),
                args: vec![],
                or_com: None,
                in_background: false
            }
        ],
        tokens
    );
}

#[test]
fn and() {
    let commands = "date && ls";
    let tokens = tokenize_commands(commands);

    assert_eq!(
        vec![
            Tokens {
                main_com: String::from("date"),
                args: vec![],
                or_com: None,
                in_background: false
            },
            Tokens {
                main_com: String::from("ls"),
                args: vec![],
                or_com: None,
                in_background: false
            }
        ],
        tokens
    );
}

#[test]
fn and_or() {
    let commands = "date && ls || ls";
    let tokens = tokenize_commands(commands);

    assert_eq!(
        vec![
            Tokens {
                main_com: String::from("date"),
                args: vec![],
                or_com: None,
                in_background: false
            },
            Tokens {
                main_com: String::from("ls"),
                args: vec![],
                or_com: Some(Box::new(Tokens {
                    main_com: String::from("ls"),
                    args: vec![],
                    or_com: None,
                    in_background: false
                })),
                in_background: false
            }
        ],
        tokens
    );
}

#[test]
fn parse_is_deterministic() {
    let line = "a -x || b & c ; d && e &";
    assert_eq!(tokenize_commands(line), tokenize_commands(line));
}

#[test]
fn short_background_command() {
    assert_eq!(tokenize_commands("proc &"), vec![cmd("proc", &[], None, true)]);
}

#[test]
fn two_short_commands_one_in_background() {
    assert_eq!(
        tokenize_commands("a & b"),
        vec![cmd("a", &[], None, true), cmd("b", &[], None, false)]
    );
}

#[test]
fn empty_line_gives_no_command() {
    assert_eq!(tokenize_commands(""), vec![]);
    assert_eq!(tokenize_commands("   \t "), vec![]);
}

#[test]
fn empty_pieces_are_dropped() {
    assert_eq!(
        tokenize_commands("ls ;; ; date &&"),
        vec![cmd("ls", &[], None, false), cmd("date", &[], None, false)]
    );
}

#[test]
fn lone_ampersand_gives_no_command() {
    assert_eq!(tokenize_commands("&"), vec![]);
}

#[test]
fn blank_background_piece_is_dropped() {
    assert_eq!(
        tokenize_commands("a &   & b"),
        vec![cmd("a", &[], None, true), cmd("b", &[], None, false)]
    );
}

#[test]
fn empty_alternatives_are_dropped() {
    assert_eq!(tokenize_commands("ls ||"), vec![cmd("ls", &[], None, false)]);
    assert_eq!(tokenize_commands("|| ls"), vec![cmd("ls", &[], None, false)]);
    assert_eq!(tokenize_commands("||"), vec![]);
}

#[test]
fn fallback_chain_of_depth_two() {
    let c = cmd("c", &["3"], None, false);
    let b = cmd("b", &["2"], Some(c), false);
    let a = cmd("a", &["1"], Some(b), false);
    assert_eq!(tokenize_commands("a 1 || b 2 || c 3"), vec![a]);
}

#[test]
fn background_flag_reaches_every_fallback() {
    let b = cmd("b", &[], None, true);
    let a = cmd("a", &[], Some(b), true);
    assert_eq!(tokenize_commands("a || b &"), vec![a]);
}

#[test]
fn and_binds_looser_than_or() {
    let b = cmd("b", &[], None, false);
    assert_eq!(
        tokenize_commands("a || b && c"),
        vec![cmd("a", &[], Some(b), false), cmd("c", &[], None, false)]
    );
}

#[test]
fn arguments_split_at_any_white_space() {
    assert_eq!(
        tokenize_commands("  echo  hi\tthere\u{3000}you  "),
        vec![cmd("echo", &["hi", "there", "you"], None, false)]
    );
}

#[test]
fn trailing_ampersand_without_space() {
    assert_eq!(tokenize_commands("sleep 5&"), vec![cmd("sleep", &["5"], None, true)]);
}

#[test]
fn new_builds_a_chain() {
    let b = cmd("echo", &["x"], None, true);
    assert_eq!(
        Tokens::new("ls -l || echo x", true),
        cmd("ls", &["-l"], Some(b), true)
    );
    assert_eq!(Tokens::new("  ls  ", false), cmd("ls", &[], None, false));
}
