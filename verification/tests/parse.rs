use fern::parse::{parse, parse_command, ParseError, RedirOp, Segment, Stmt, Tok, Word};

fn w(s: &str) -> Word {
    Word {
        segments: vec![Segment::Literal(s.into())],
    }
}

fn cmd_words(stmt: &Stmt) -> Vec<Word> {
    match stmt {
        Stmt::Cmd(c) => c.words.clone(),
        _ => panic!("not a cmd"),
    }
}

fn segments(line: &str) -> Vec<Segment> {
    let s = parse(line).unwrap().unwrap();
    cmd_words(&s)[1].segments.clone()
}

#[test]
fn bare_words() {
    let s = parse("ls -la foo").unwrap().unwrap();
    assert_eq!(cmd_words(&s), vec![w("ls"), w("-la"), w("foo")]);
}

#[test]
fn single_quoted() {
    let s = parse("echo 'hello world'").unwrap().unwrap();
    assert_eq!(cmd_words(&s), vec![w("echo"), w("hello world")]);
}

#[test]
fn double_quoted_with_var() {
    let s = parse(r#"echo "hi $USER""#).unwrap().unwrap();
    let words = cmd_words(&s);
    assert_eq!(words[0], w("echo"));
    assert_eq!(
        words[1],
        Word {
            segments: vec![Segment::Literal("hi ".into()), Segment::Var("USER".into())]
        }
    );
}

#[test]
fn bareword_var() {
    let s = parse("echo $HOME/x").unwrap().unwrap();
    let words = cmd_words(&s);
    assert_eq!(
        words[1],
        Word {
            segments: vec![Segment::Var("HOME".into()), Segment::Literal("/x".into())]
        }
    );
}

#[test]
fn braced_var() {
    let s = parse("echo ${FOO}bar").unwrap().unwrap();
    let words = cmd_words(&s);
    assert_eq!(
        words[1],
        Word {
            segments: vec![Segment::Var("FOO".into()), Segment::Literal("bar".into())]
        }
    );
}

#[test]
fn parse_pipeline() {
    let s = parse("a | b | c").unwrap().unwrap();
    match s {
        Stmt::Pipe(cmds) => assert_eq!(cmds.len(), 3),
        _ => panic!("expected pipe"),
    }
}

#[test]
fn and_or_chain() {
    let s = parse("a && b || c").unwrap().unwrap();
    match s {
        Stmt::OrIf(l, _) => match *l {
            Stmt::AndIf(_, _) => {}
            _ => panic!("expected and inside or"),
        },
        _ => panic!("expected or"),
    }
}

#[test]
fn sequence() {
    let s = parse("a; b; c").unwrap().unwrap();
    match s {
        Stmt::Sequence(_, _) => {}
        _ => panic!("expected seq"),
    }
}

#[test]
fn redirect_out() {
    let s = parse("ls > out.txt").unwrap().unwrap();
    match s {
        Stmt::Cmd(c) => {
            assert_eq!(c.redirects.len(), 1);
            assert_eq!(c.redirects[0].fd, 1);
            assert_eq!(c.redirects[0].op, RedirOp::Out);
            assert_eq!(c.redirects[0].target, w("out.txt"));
        }
        _ => panic!(),
    }
}

#[test]
fn redirect_stderr() {
    let s = parse("foo 2> err").unwrap().unwrap();
    match s {
        Stmt::Cmd(c) => {
            assert_eq!(c.redirects[0].fd, 2);
            assert_eq!(c.redirects[0].op, RedirOp::Out);
        }
        _ => panic!(),
    }
}

#[test]
fn redirect_append() {
    let s = parse("foo >> log").unwrap().unwrap();
    match s {
        Stmt::Cmd(c) => {
            assert_eq!(c.redirects[0].op, RedirOp::Append);
        }
        _ => panic!(),
    }
}

#[test]
fn comment_ignored() {
    let s = parse("ls # this is a comment").unwrap().unwrap();
    assert_eq!(cmd_words(&s), vec![w("ls")]);
}

#[test]
fn empty_input() {
    assert!(parse("").unwrap().is_none());
    assert!(parse("   # only comment").unwrap().is_none());
}

#[test]
fn errors_on_unterminated_quote() {
    assert!(parse(r#"echo "unterminated"#).is_err());
    assert!(parse("echo 'unterminated").is_err());
}

#[test]
fn redirect_in_defaults_to_stdin() {
    match parse("cat < in").unwrap().unwrap() {
        Stmt::Cmd(c) => {
            assert_eq!(c.redirects[0].fd, 0);
            assert_eq!(c.redirects[0].op, RedirOp::In);
            assert_eq!(c.redirects[0].target, w("in"));
        }
        _ => panic!("not a cmd"),
    }
}

#[test]
fn status_and_substitution_are_segments() {
    assert_eq!(segments("echo $?"), vec![Segment::Status]);
    assert_eq!(segments("echo ${?}"), vec![Segment::Var("?".into())]);
    assert_eq!(segments("echo 'é'"), vec![Segment::Literal("Ã©".into())]);
    assert_eq!(segments("echo $(pwd)"), vec![Segment::Sub("pwd".into())]);
    assert_eq!(
        segments("echo a$(echo (b))c"),
        vec![
            Segment::Literal("a".into()),
            Segment::Sub("echo (b)".into()),
            Segment::Literal("c".into())
        ]
    );
}

#[test]
fn single_quotes_take_everything() {
    assert_eq!(
        segments("echo '$X \\ \"'"),
        vec![Segment::Literal("$X \\ \"".into())]
    );
}

#[test]
fn each_error_has_its_line() {
    assert_eq!(parse("a & b").unwrap_err(), ParseError::Background);
    assert_eq!(parse("echo '").unwrap_err(), ParseError::SingleQuote);
    assert_eq!(parse("echo \"").unwrap_err(), ParseError::DoubleQuote);
    assert_eq!(parse("echo ${X").unwrap_err(), ParseError::Brace);
    assert_eq!(parse("echo $(x").unwrap_err(), ParseError::Paren);
    assert_eq!(parse("echo ${}").unwrap_err(), ParseError::EmptyName);
    assert_eq!(parse("echo $-").unwrap_err(), ParseError::Dollar);
    assert_eq!(parse("a 99999999999> b").unwrap_err(), ParseError::IoNumber);
    assert_eq!(parse("a >").unwrap_err(), ParseError::Target(Some(RedirOp::Out)));
    assert_eq!(parse("a 2>").unwrap_err(), ParseError::Target(None));
    assert_eq!(parse("| a").unwrap_err(), ParseError::EmptyCommand);
    assert_eq!(parse("a; ;").unwrap_err(), ParseError::EmptyCommand);
}

#[test]
fn last_semicolon_is_optional() {
    assert_eq!(parse("a; b;").unwrap(), parse("a; b").unwrap());
    assert_eq!(parse("a").unwrap(), parse("a;").unwrap());
}

#[test]
fn unterminated_substitution_says_so() {
    let e = parse("echo $(oops").unwrap_err();
    assert!(e.message().contains("unterminated"), "got: {}", e.message());
}

#[test]
fn names_and_substitutions_are_text() {
    assert_eq!(segments("echo ${é}"), vec![Segment::Var("é".into())]);
    assert_eq!(segments("echo $(echo é)"), vec![Segment::Sub("echo é".into())]);
}

// ---------- Lines that are put together ---------------------------------------

#[test]
fn a_comment_behind_a_line_changes_nothing() {
    for line in ["", "echo hi", "a && b; c", "echo 'x # y'", "echo a # b"] {
        let commented = format!("{line} # \"it's $(not && read");
        assert_eq!(parse(&commented).unwrap(), parse(line).unwrap());
    }
    // A backslash takes the blank in front of the comment into the word.
    assert_ne!(parse("echo \\ # x").unwrap(), parse("echo \\").unwrap());
}

#[test]
fn a_semicolon_joins_two_lines() {
    let (a, b) = ("x 1 && y", "z | w");
    let (l, r) = (parse(a).unwrap().unwrap(), parse(b).unwrap().unwrap());
    assert_eq!(
        parse(&format!("{a};{b}")).unwrap().unwrap(),
        Stmt::Sequence(Box::new(l.clone()), Box::new(r))
    );
    assert_eq!(parse(&format!("{a};")).unwrap().unwrap(), l);
}

#[test]
fn redirections_stand_anywhere_in_a_command() {
    let s = parse("cmd one two < in 2>> err").unwrap();
    assert_eq!(parse("< in cmd 2>> err one two").unwrap(), s);
    assert_eq!(parse("cmd < in one 2>>err two").unwrap(), s);
    // Their order among themselves counts.
    assert_ne!(parse("cmd one two 2>> err < in").unwrap(), s);
    match s.unwrap() {
        Stmt::Cmd(c) => {
            assert_eq!(c.words, vec![w("cmd"), w("one"), w("two")]);
            assert_eq!((c.redirects[0].fd, c.redirects[0].op), (0, RedirOp::In));
            assert_eq!((c.redirects[1].fd, c.redirects[1].op), (2, RedirOp::Append));
        }
        s => panic!("{s:?}"),
    }
}

#[test]
fn a_command_is_read_from_its_tokens() {
    let word = |s: &str| Tok::Word(w(s));
    let spread = vec![
        Tok::Redir(None, RedirOp::In),
        word("in"),
        word("cmd"),
        Tok::Redir(Some(2), RedirOp::Out),
        word("err"),
        word("arg"),
        Tok::Redir(None, RedirOp::Append),
        word("out"),
        Tok::Pipe,
    ];
    let behind = vec![
        word("cmd"),
        word("arg"),
        Tok::Redir(None, RedirOp::In),
        word("in"),
        Tok::Redir(Some(2), RedirOp::Out),
        word("err"),
        Tok::Redir(None, RedirOp::Append),
        word("out"),
    ];
    let (a, i) = parse_command(&spread, 0).unwrap();
    let (b, j) = parse_command(&behind, 0).unwrap();
    assert_eq!(a, b);
    assert_eq!((i, j), (8, 8));
    assert_eq!(a.words, vec![w("cmd"), w("arg")]);
    let redirects: Vec<(i32, RedirOp)> = a.redirects.iter().map(|r| (r.fd, r.op)).collect();
    assert_eq!(
        redirects,
        vec![(0, RedirOp::In), (2, RedirOp::Out), (1, RedirOp::Append)]
    );
    assert!(matches!(parse_command(&vec![], 0), Err(ParseError::EmptyCommand)));
}
