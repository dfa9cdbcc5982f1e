use email_sigs::cli::{
    default_prefix, exit_status, meaning, parse_args, plan, unreadable_file_status, Action, Args,
    Meaning, Request, Token,
};

fn argv(args: &[&str]) -> Vec<String> {
    args.iter().map(|a| a.to_string()).collect()
}

fn args(help: bool, erase_all: bool, prefix: &str, filenames: &[&str]) -> Args {
    Args { help, erase_all, prefix: prefix.to_string(), filenames: argv(filenames) }
}

#[test]
fn the_default_prefix_ends_with_a_space() {
    assert_eq!(default_prefix(), "Autoquote ");
}

#[test]
fn each_token_has_its_meaning() {
    assert_eq!(meaning(&Token::Short('h')), Meaning::Help);
    assert_eq!(meaning(&Token::Short('x')), Meaning::Unexpected);
    assert_eq!(meaning(&Token::Long("help".to_string())), Meaning::Help);
    assert_eq!(meaning(&Token::Long("erase-all".to_string())), Meaning::EraseAll);
    assert_eq!(meaning(&Token::Long("prefix".to_string())), Meaning::Prefix);
    assert_eq!(meaning(&Token::Long("Prefix".to_string())), Meaning::Unexpected);
    assert_eq!(meaning(&Token::Long("".to_string())), Meaning::Unexpected);
    assert_eq!(meaning(&Token::Value("--help".to_string())), Meaning::File);
}

#[test]
fn an_empty_command_line_gives_the_defaults() {
    assert_eq!(parse_args(vec![]), Ok(args(false, false, "Autoquote ", &[])));
}

#[test]
fn flags_prefix_and_files_are_collected() {
    assert_eq!(
        parse_args(argv(&["a.txt", "--prefix", "custom prefix ", "--erase-all", "b.txt", "-h"])),
        Ok(args(true, true, "custom prefix ", &["a.txt", "b.txt"]))
    );
    assert_eq!(parse_args(argv(&["--prefix=p", "--help"])), Ok(args(true, false, "p", &[])));
    assert_eq!(parse_args(argv(&["--prefix", "--help"])), Ok(args(false, false, "--help", &[])));
    assert_eq!(parse_args(argv(&["--", "--help", "-x"])), Ok(args(false, false, "Autoquote ", &["--help", "-x"])));
    assert_eq!(parse_args(argv(&["-hh", "-"])), Ok(args(true, false, "Autoquote ", &["-"])));
}

#[test]
fn what_is_not_known_is_refused() {
    assert_eq!(parse_args(argv(&["-x"])).unwrap_err().message, "invalid option '-x'");
    assert_eq!(parse_args(argv(&["a", "--verbose"])).unwrap_err().message, "invalid option '--verbose'");
    assert_eq!(
        parse_args(argv(&["--prefix"])).unwrap_err().message,
        "missing argument for option '--prefix'"
    );
    assert_eq!(
        parse_args(argv(&["--erase-all=now", "a"])).unwrap_err().message,
        "unexpected argument for option '--erase-all': \"now\""
    );
}

#[test]
fn help_comes_before_erasing_and_files_are_needed_last() {
    assert_eq!(plan(&args(true, true, "p", &["a"])), Action::ShowHelp);
    assert_eq!(plan(&args(false, true, "p", &[])), Action::EraseAll);
    assert_eq!(plan(&args(false, true, "p", &["a"])), Action::EraseAll);
    assert_eq!(plan(&args(false, false, "p", &[])), Action::MissingFiles);
    assert_eq!(plan(&args(false, false, "p", &["a"])), Action::Update);
}

#[test]
fn exit_statuses_are_the_conventional_ones() {
    assert_eq!(exit_status(Action::ShowHelp), Some(0));
    assert_eq!(exit_status(Action::EraseAll), Some(0));
    assert_eq!(exit_status(Action::MissingFiles), Some(64));
    assert_eq!(exit_status(Action::Update), None);
    assert_eq!(unreadable_file_status(), 74);
}

#[test]
fn new_args_are_the_defaults() {
    assert_eq!(Args::new(), args(false, false, "Autoquote ", &[]));
}

#[test]
fn apply_takes_in_one_request() {
    let mut a = Args::new();
    a.apply(Request::File("one".to_string()));
    a.apply(Request::Prefix("p".to_string()));
    a.apply(Request::File("two".to_string()));
    assert_eq!(a, args(false, false, "p", &["one", "two"]));
    a.apply(Request::EraseAll);
    assert_eq!(a, args(false, true, "p", &["one", "two"]));
    a.apply(Request::Help);
    a.apply(Request::Prefix("q".to_string()));
    assert_eq!(a, args(true, true, "q", &["one", "two"]));
}

#[test]
fn plain_shapes_are_read_as_they_stand() {
    assert_eq!(parse_args(argv(&[""])), Ok(args(false, false, "Autoquote ", &[""])));
    assert_eq!(parse_args(argv(&["-="])).unwrap_err().message, "invalid option '-='");
    assert_eq!(parse_args(argv(&["---x"])).unwrap_err().message, "invalid option '---x'");
    assert_eq!(parse_args(argv(&["-é"])).unwrap_err().message, "invalid option '-é'");
    assert_eq!(parse_args(argv(&["--prefix", "--a=b"])), Ok(args(false, false, "--a=b", &[])));
    assert_eq!(parse_args(argv(&["--prefix", "--"])), Ok(args(false, false, "--", &[])));
    assert_eq!(parse_args(argv(&["--prefix", "-h", "x"])), Ok(args(false, false, "-h", &["x"])));
    assert_eq!(
        parse_args(argv(&["a", "--prefix"])).unwrap_err().message,
        "missing argument for option '--prefix'"
    );
    assert_eq!(
        parse_args(argv(&["--prefix", "1", "--prefix", "2", "f"])),
        Ok(args(false, false, "2", &["f"]))
    );
}

#[test]
fn other_shapes_go_by_the_option_parser() {
    assert_eq!(parse_args(argv(&["--prefix="])), Ok(args(false, false, "", &[])));
    assert_eq!(parse_args(argv(&["--prefix=a=b", "f"])), Ok(args(false, false, "a=b", &["f"])));
    assert_eq!(parse_args(argv(&["-hx"])).unwrap_err().message, "invalid option '-x'");
    assert_eq!(parse_args(argv(&["-"])), Ok(args(false, false, "Autoquote ", &["-"])));
    assert_eq!(
        parse_args(argv(&["--help=yes", "f"])).unwrap_err().message,
        "unexpected argument for option '--help': \"yes\""
    );
}

/// What a command line of plain arguments asks for, worked out from the
/// arguments alone.
fn read_plainly(line: &[&str]) -> Option<Args> {
    let mut result = Args::new();
    let mut at = 0;
    while at < line.len() {
        let arg = line[at];
        let chars: Vec<char> = arg.chars().collect();
        if chars.is_empty() || chars[0] != '-' {
            result.filenames.push(arg.to_string());
        } else if chars.len() == 2 && chars[1] != '-' {
            if chars[1] != 'h' {
                return None;
            }
            result.help = true;
        } else {
            assert!(chars.len() > 2 && chars[1] == '-' && !arg.contains('='));
            match &arg[2..] {
                "help" => result.help = true,
                "erase-all" => result.erase_all = true,
                "prefix" => {
                    if at + 1 == line.len() {
                        return None;
                    }
                    at += 1;
                    result.prefix = line[at].to_string();
                }
                _ => return None,
            }
        }
        at += 1;
    }
    Some(result)
}

#[test]
fn every_short_plain_command_line_is_read_plainly() {
    let pool = [
        "a", "", "é", "-h", "-x", "-=", "-é", "--help", "--erase-all", "--prefix", "--bogus",
        "---", "--pre fix",
    ];
    let mut lines: Vec<Vec<&str>> = vec![vec![]];
    let mut longest: Vec<Vec<&str>> = vec![vec![]];
    for _ in 0..4 {
        let mut longer = Vec::new();
        for line in &longest {
            for arg in pool {
                let mut next = line.clone();
                next.push(arg);
                longer.push(next);
            }
        }
        lines.extend(longer.iter().cloned());
        longest = longer;
    }
    for line in lines {
        assert_eq!(parse_args(argv(&line)).ok(), read_plainly(&line), "{:?}", line);
    }
}
