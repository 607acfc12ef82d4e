//! Lines evaluated in a small world of pretended programs and files.

use fern::daemon::collect as gather;
use fern::eval::{chunk, is_pure_builtin_line, Action, EvalError, Open, Reply};
use fern::evaluator::{Evaluator, Step};
use fern::parse::{ParseError, RedirOp};
use fern::tree::{CellId, Process, State, SystemInfo, Tree};
use fern::wire::{CellEvent, Stream};

struct World {
    files: Vec<(String, String)>,
    out: String,
    events: Vec<CellEvent>,
    spawned: usize,
}

fn st() -> State {
    State::baseline(
        "/work".into(),
        Some("/bin".into()),
        Some("/home/u".into()),
        Some("u".into()),
        None,
        None,
    )
}

fn program(p: &Process, stdin: &str, tty: bool) -> (String, i32) {
    let args: Vec<&str> = p.argv[1..].iter().map(|a| a.as_str()).collect();
    match p.argv[0].as_str() {
        "echo" => (format!("{}\n", args.join(" ")), 0),
        "printf" => (args[0].replace("\\n", "\n"), 0),
        "wc" if args[0] == "-l" => (format!("{}\n", stdin.matches('\n').count()), 0),
        "wc" => (format!("{}\n", stdin.len()), 0),
        "cat" => (stdin.to_string(), 0),
        "true" => (String::new(), 0),
        "false" => (String::new(), 1),
        "pwd" => (format!("{}\n", p.cwd), 0),
        "printenv" => match p.env.get(args[0]) {
            Some(v) => (format!("{}\n", v), 0),
            None => (String::new(), 1),
        },
        "tty" if tty => ("/dev/pts/0\n".into(), 0),
        "tty" => ("not a tty\n".into(), 1),
        other => panic!("no program {other}"),
    }
}

impl World {
    fn new() -> World {
        World {
            files: Vec::new(),
            out: String::new(),
            events: Vec::new(),
            spawned: 0,
        }
    }

    fn file(&self, path: &str) -> Option<String> {
        self.files
            .iter()
            .find(|f| f.0 == path)
            .map(|f| f.1.clone())
    }

    fn write(&mut self, path: &str, op: RedirOp, text: &str) {
        let before = match op {
            RedirOp::Append => self.file(path).unwrap_or_default(),
            _ => String::new(),
        };
        self.files.retain(|f| f.0 != path);
        self.files.push((path.into(), before + text));
    }

    fn put(&mut self, opens: &[Open], text: &str) {
        match opens.iter().rev().find(|o| o.fd == 1) {
            Some(o) => self.write(&o.path, o.op, text),
            None => self.say(text),
        }
    }

    fn say(&mut self, text: &str) {
        self.out.push_str(text);
        self.events.push(chunk(0, Stream::Stdout, text.as_bytes()));
    }

    fn act(&mut self, action: Action) -> Reply {
        match action {
            Action::Substitute { source, state, status } => {
                let mut inner = World::new();
                match inner.eval_from(state, status, &source, true) {
                    Ok(_) => Reply::Captured(inner.out),
                    Err(e) => Reply::Failed(e.message()),
                }
            }
            Action::Canonicalize { target } => {
                if target.contains("missing") {
                    Reply::Failed("No such file or directory (os error 2)".into())
                } else {
                    Reply::Resolved(target)
                }
            }
            Action::Spawn { process, opens } => {
                self.spawned += 1;
                let stdin = match opens.iter().find(|o| o.fd == 0) {
                    Some(o) => self.file(&o.path).unwrap_or_default(),
                    None => String::new(),
                };
                let (text, code) = program(&process, &stdin, false);
                self.put(&opens, &text);
                Reply::Exited(code)
            }
            Action::Pty { process, .. } => {
                self.spawned += 1;
                let (text, code) = program(&process, "", true);
                self.say(&text);
                Reply::Exited(code)
            }
            Action::Pipeline { stages } => {
                let mut text = String::new();
                let mut code = 0;
                for s in &stages {
                    self.spawned += 1;
                    if let Some(o) = s.opens.iter().rev().find(|o| o.fd == 0) {
                        text = self.file(&o.path).unwrap_or_default();
                    }
                    let (t, c) = program(&s.process, &text, false);
                    code = c;
                    text = match s.opens.iter().rev().find(|o| o.fd == 1) {
                        Some(o) => {
                            self.write(&o.path, o.op, &t);
                            String::new()
                        }
                        None => t,
                    };
                }
                if !text.is_empty() {
                    self.say(&text);
                }
                Reply::Exited(code)
            }
            Action::Open { .. } | Action::Start { .. } => Reply::Ready,
        }
    }

    fn eval_from(
        &mut self,
        state: State,
        status: i32,
        line: &str,
        capture: bool,
    ) -> Result<(State, i32), EvalError> {
        let mut e = Evaluator::new(state, status, line, capture);
        loop {
            match e.next() {
                Step::Ask(action) => {
                    let reply = self.act(action);
                    e.reply(reply);
                }
                Step::Done(state, code) => return Ok((state, code)),
                Step::Failed(err) => return Err(err),
            }
        }
    }

    fn eval(&mut self, state: &State, line: &str) -> Result<(State, i32), EvalError> {
        self.eval_from(state.clone(), 0, line, false)
    }
}

fn collect(state: &State, line: &str) -> (State, String, i32) {
    let mut world = World::new();
    let (s, code) = world.eval(state, line).unwrap();
    (s, world.out, code)
}

fn fails(state: &State, line: &str) -> EvalError {
    World::new().eval(state, line).unwrap_err()
}

#[test]
fn simple_command() {
    let (_s, o, code) = collect(&st(), "echo hello");
    assert_eq!(o.trim(), "hello");
    assert_eq!(code, 0);
}

#[test]
fn pure_builtin_classification() {
    // Pure builtins: no external program, so no terminal needed.
    assert!(is_pure_builtin_line("cd /tmp"));
    assert!(is_pure_builtin_line("export FOO=bar"));
    assert!(is_pure_builtin_line("unset FOO"));
    // Builtins chained still spawn nothing external.
    assert!(is_pure_builtin_line("cd /tmp && export FERN_IO=tty"));
    assert!(is_pure_builtin_line("cd /a; cd /b; unset X"));

    // Anything that runs an external program is not pure-builtin.
    assert!(!is_pure_builtin_line("ls"));
    assert!(!is_pure_builtin_line("vim"));
    assert!(!is_pure_builtin_line("cd /tmp && ls"));
    assert!(!is_pure_builtin_line("echo hi | cat"));
    // A command led by a variable can be anything.
    assert!(!is_pure_builtin_line("$EDITOR"));
    // Empty and unparseable lines are no builtins.
    assert!(!is_pure_builtin_line(""));
}

#[test]
fn builtins_are_builtins_in_every_part() {
    let lines = ["cd /tmp", "export A=b && unset A", "ls", "unset X || cat"];
    for a in lines {
        for b in lines {
            let both = is_pure_builtin_line(a) && is_pure_builtin_line(b);
            for op in [" && ", " || ", "; "] {
                assert_eq!(is_pure_builtin_line(&format!("{a}{op}{b}")), both);
            }
            assert!(!is_pure_builtin_line(&format!("{a} | {b}")));
        }
    }
    assert!(!is_pure_builtin_line("cd 'x"));
    assert!(!is_pure_builtin_line("# cd"));
}

#[test]
fn pure_builtins_spawn_nothing() {
    let mut world = World::new();
    world.eval(&st(), "cd /tmp && export A=b; unset A").unwrap();
    assert_eq!(world.spawned, 0);
}

#[test]
fn var_expansion_bare() {
    let mut s = st();
    s.set_var("X", "world".into());
    let (_s, o, _) = collect(&s, "echo hi-$X");
    assert_eq!(o.trim(), "hi-world");
}

#[test]
fn var_expansion_in_quotes() {
    let mut s = st();
    s.set_var("X", "world".into());
    let (_s, o, _) = collect(&s, r#"echo "hi $X""#);
    assert_eq!(o.trim(), "hi world");
}

#[test]
fn single_quotes_no_expansion() {
    let mut s = st();
    s.set_var("X", "world".into());
    let (_s, o, _) = collect(&s, "echo 'hi $X'");
    assert_eq!(o.trim(), "hi $X");
}

#[test]
fn unset_variables_are_empty() {
    let (_s, o, _) = collect(&st(), "echo [$NOPE]");
    assert_eq!(o.trim(), "[]");
}

#[test]
fn eval_pipeline() {
    let (_s, o, _) = collect(&st(), "printf 'a\\nb\\nc\\n' | wc -l");
    assert_eq!(o.trim(), "3");
}

#[test]
fn and_short_circuits() {
    let (_s, o, code) = collect(&st(), "false && echo nope");
    assert_ne!(code, 0);
    assert!(o.is_empty());
}

#[test]
fn or_runs_on_failure() {
    let (_s, o, code) = collect(&st(), "false || echo yes");
    assert_eq!(code, 0);
    assert_eq!(o.trim(), "yes");
}

#[test]
fn seq_runs_both() {
    let (_s, o, _) = collect(&st(), "echo a; echo b");
    assert_eq!(o.trim(), "a\nb");
}

#[test]
fn cd_builtin() {
    let (s, _o, _) = collect(&st(), "cd /tmp");
    assert_eq!(s.cwd, "/tmp");
    assert_eq!(s.var("PWD"), Some("/tmp".into()));
}

#[test]
fn cd_goes_home_and_down() {
    let (s, _o, _) = collect(&st(), "cd");
    assert_eq!(s.cwd, "/home/u");
    let (s, _o, _) = collect(&st(), "cd sub");
    assert_eq!(s.cwd, "/work/sub");
}

#[test]
fn export_builtin() {
    let (s, _o, _) = collect(&st(), "export FOO=bar");
    assert_eq!(s.var("FOO").as_deref(), Some("bar"));
}

#[test]
fn redirect_out_then_in() {
    let path = "/tmp/fern-test";
    let mut world = World::new();
    let (_s, code) = world
        .eval(&st(), &format!("echo redirected > {path}"))
        .unwrap();
    assert_eq!(code, 0);
    assert!(
        world.out.is_empty(),
        "redirected stdout should not be captured"
    );
    assert_eq!(world.file(path).unwrap().trim(), "redirected");
    world.eval(&st(), &format!("cat < {path}")).unwrap();
    assert_eq!(world.out.trim(), "redirected");
}

#[test]
fn redirects_append() {
    let mut world = World::new();
    world.eval(&st(), "echo a > log; echo b >> log").unwrap();
    assert_eq!(world.file("log").unwrap(), "a\nb\n");
}

#[test]
fn redirects_in_a_pipeline_apply_to_their_stage() {
    let mut world = World::new();
    world.eval(&st(), "printf 'a\\nb\\n' > /f").unwrap();
    world.eval(&st(), "cat < /f | wc -l").unwrap();
    assert_eq!(world.out, "2\n");
    // The stage behind reads its own file, and nothing where the one before wrote to a file.
    world.eval(&st(), "echo x | cat < /f").unwrap();
    assert_eq!(world.out, "2\na\nb\n");
    world.eval(&st(), "echo x > /g | wc -l >> /g").unwrap();
    assert_eq!(world.file("/g").unwrap(), "x\n0\n");
    assert_eq!(world.out, "2\na\nb\n");
}

#[test]
fn a_pipeline_asks_for_the_files_of_each_stage() {
    let mut e = Evaluator::new(st(), 0, "cat < /a 2> /b | wc -l | cat >> /c", false);
    let stages = match e.next() {
        Step::Ask(Action::Pipeline { stages }) => stages,
        s => panic!("{s:?}"),
    };
    let opens: Vec<Vec<(i32, &str, RedirOp)>> = stages
        .iter()
        .map(|s| {
            s.opens
                .iter()
                .map(|o| (o.fd, o.path.as_str(), o.op))
                .collect()
        })
        .collect();
    assert_eq!(
        opens,
        vec![
            vec![(0, "/a", RedirOp::In), (2, "/b", RedirOp::Out)],
            vec![],
            vec![(1, "/c", RedirOp::Append)],
        ]
    );
    assert_eq!(stages[1].process.argv, vec!["wc", "-l"]);
}

#[test]
fn a_stage_cannot_redirect_what_a_command_cannot() {
    let mut e = Evaluator::new(st(), 0, "cat | cat > /a 3> /b | cat", false);
    match e.next() {
        Step::Ask(Action::Open { stages, opens, fd: 3, op: RedirOp::Out }) => {
            assert_eq!(stages.len(), 1);
            assert_eq!(opens.len(), 1);
            assert_eq!(opens[0].path, "/a");
        }
        s => panic!("{s:?}"),
    }
    e.reply(Reply::Ready);
    assert!(matches!(
        e.next(),
        Step::Failed(EvalError::Unsupported { fd: 3, op: RedirOp::Out })
    ));
}

#[test]
fn pipe_mode_is_not_a_tty() {
    let (_s, o, code) = collect(&st(), "tty");
    assert_ne!(code, 0);
    assert!(o.to_lowercase().contains("not a tty"), "got: {:?}", o);
}

#[test]
fn tty_mode_gives_a_terminal() {
    let mut s = st();
    s.set_var("FERN_IO", "tty".into());
    let (_s, o, code) = collect(&s, "tty");
    assert_eq!(code, 0, "tty should report a terminal; got: {o:?}");
    assert!(o.contains("/dev/"), "got: {:?}", o);
}

#[test]
fn captured_lines_see_no_terminal() {
    let mut s = st();
    s.set_var("FERN_IO", "tty".into());
    let (_s, o, _) = collect(&s, "echo $(tty)");
    assert_eq!(o.trim(), "not a tty");
}

#[test]
fn pipeline_state_unchanged() {
    let s = st();
    let cwd_before = s.cwd.clone();
    let (s2, _o, _) = collect(&s, "echo a | cat");
    assert_eq!(s2.cwd, cwd_before);
}

#[test]
fn status_and_substitution() {
    let (_s, o, _) = collect(&st(), "false; echo $?");
    assert_eq!(o, "1\n");
    let (_s, o, _) = collect(&st(), "cd /tmp; echo from $(pwd), last=$?");
    assert_eq!(o, "from /tmp, last=0\n");
    // In braces it is the name of a variable.
    let (_s, o, _) = collect(&st(), "export ?=q; false; echo ${?} $?");
    assert_eq!(o, "q 1\n");
}

#[test]
fn substitution_loses_trailing_newlines() {
    let (_s, o, _) = collect(&st(), "echo [$(printf 'x\\n\\n')]");
    assert_eq!(o, "[x]\n");
}

#[test]
fn each_failure_has_its_line() {
    assert!(matches!(
        fails(&st(), "echo $(oops"),
        EvalError::Parse(ParseError::Paren)
    ));
    assert!(matches!(
        fails(&st(), "cd /tmp > x"),
        EvalError::BuiltinRedirect
    ));
    assert!(matches!(fails(&State::default(), "cd"), EvalError::NoHome));
    match fails(&st(), "cd missing") {
        EvalError::Cd { target, .. } => assert_eq!(target, "/work/missing"),
        e => panic!("{e:?}"),
    }
    assert!(matches!(
        fails(&st(), "cat 5< x"),
        EvalError::Unsupported { fd: 5, op: RedirOp::In }
    ));
    assert!(matches!(fails(&st(), "echo a | > x"), EvalError::EmptyStage));
}

#[test]
fn a_reply_must_fit_the_action() {
    let mut e = Evaluator::new(st(), 0, "echo hi", false);
    assert!(matches!(e.next(), Step::Ask(Action::Spawn { .. })));
    e.reply(Reply::Resolved("/".into()));
    assert!(matches!(e.next(), Step::Failed(EvalError::Mismatch)));
}

#[test]
fn what_fails_outside_fails_the_line() {
    let mut e = Evaluator::new(st(), 0, "nope", false);
    assert!(matches!(e.next(), Step::Ask(Action::Spawn { .. })));
    e.reply(Reply::Failed("spawn: nope".into()));
    match e.next() {
        Step::Failed(err) => assert_eq!(err.message(), "spawn: nope"),
        s => panic!("{s:?}"),
    }
}

// ---------- Cells -------------------------------------------------------------

fn sys() -> SystemInfo {
    SystemInfo {
        os: "linux".into(),
        arch: "x86_64".into(),
        hostname: "test-host".into(),
        fern_version: "0.0.0".into(),
    }
}

fn run(t: &mut Tree, parent: CellId, line: &str) -> CellId {
    let start = t.start_state(parent).unwrap();
    let mut world = World::new();
    let outcome = match world.eval(&start, line) {
        Ok((state, exit_code)) => Ok((state, gather(&world.events, exit_code))),
        Err(e) => Err(e.message()),
    };
    t.submit(parent, "test".into(), line.into(), outcome, 1)
        .unwrap()
}

fn out(t: &Tree, id: CellId) -> String {
    let r = t.get(id).unwrap().result.as_ref().unwrap();
    String::from_utf8_lossy(&r.stdout).into_owned()
}

fn cwd(t: &Tree, id: CellId) -> String {
    t.get(id)
        .unwrap()
        .result
        .as_ref()
        .unwrap()
        .end_state
        .cwd
        .clone()
}

fn env_of(t: &Tree, id: CellId, key: &str) -> Option<String> {
    t.get(id)
        .unwrap()
        .result
        .as_ref()
        .unwrap()
        .end_state
        .var(key)
}

#[test]
fn cwd_persists_across_cells() {
    let mut t = Tree::new(st(), sys());
    let a = run(&mut t, 0, "cd /tmp");
    let b = run(&mut t, a, "pwd");
    assert_eq!(cwd(&t, a), "/tmp");
    assert_eq!(out(&t, b).trim(), "/tmp");
}

#[test]
fn export_persists_to_children() {
    let mut t = Tree::new(st(), sys());
    let a = run(&mut t, 0, "export FOO=bar");
    let b = run(&mut t, a, "printenv FOO");
    assert_eq!(env_of(&t, a, "FOO").as_deref(), Some("bar"));
    assert_eq!(out(&t, b).trim(), "bar");
}

#[test]
fn branches_are_independent() {
    let mut t = Tree::new(st(), sys());
    let root = run(&mut t, 0, "export FOO=root");
    let a1 = run(&mut t, root, "export FOO=branchA");
    let a2 = run(&mut t, a1, "printenv FOO");
    let b1 = run(&mut t, root, "export FOO=branchB");
    let b2 = run(&mut t, b1, "printenv FOO");
    assert_eq!(out(&t, a2).trim(), "branchA");
    assert_eq!(out(&t, b2).trim(), "branchB");
}

#[test]
fn shell_features_work_in_cells() {
    let mut t = Tree::new(st(), sys());
    let a = run(&mut t, 0, "echo hello | wc -c");
    assert_eq!(out(&t, a).trim(), "6");
    let b = run(&mut t, 0, "false || echo recovered");
    assert_eq!(out(&t, b).trim(), "recovered");
}

#[test]
fn cells_get_a_hash_on_completion() {
    let mut t = Tree::new(st(), sys());
    let id = run(&mut t, 0, "echo hi");
    let cell = t.get(id).unwrap();
    let hash = cell.hash.as_ref().unwrap();
    assert_eq!(hash.len(), 64, "SHA-256 hex is 64 chars");
    assert!(hash.chars().all(|c| c.is_ascii_hexdigit()));
}

#[test]
fn root_hash_changes_with_machine() {
    let info_a = SystemInfo {
        os: "linux".into(),
        arch: "x86_64".into(),
        hostname: "machine-a".into(),
        fern_version: "0.0.0".into(),
    };
    let info_b = SystemInfo {
        hostname: "machine-b".into(),
        ..info_a.clone()
    };
    let tree_a = Tree::new(st(), info_a);
    let tree_b = Tree::new(st(), info_b);
    assert_ne!(
        tree_a.get(0).unwrap().hash,
        tree_b.get(0).unwrap().hash,
        "different hostnames produce different root hashes"
    );
}

#[test]
fn identical_runs_collide_dedup_by_design() {
    let mut t = Tree::new(st(), sys());
    let a = run(&mut t, 0, "true");
    let b = run(&mut t, 0, "true");
    let ha = t.get(a).unwrap().hash.clone().unwrap();
    let hb = t.get(b).unwrap().hash.clone().unwrap();
    assert_eq!(ha, hb, "identical work hashes identically");
}

#[test]
fn different_output_changes_hash() {
    let mut t = Tree::new(st(), sys());
    let a = run(&mut t, 0, "echo a");
    let b = run(&mut t, 0, "echo b");
    assert_ne!(t.get(a).unwrap().hash, t.get(b).unwrap().hash);
}

#[test]
fn hash_chain_propagates() {
    let mut t_a = Tree::new(
        st(),
        SystemInfo {
            hostname: "host-a".into(),
            ..sys()
        },
    );
    let mut t_b = Tree::new(
        st(),
        SystemInfo {
            hostname: "host-b".into(),
            ..sys()
        },
    );
    let id_a = run(&mut t_a, 0, "echo same");
    let id_b = run(&mut t_b, 0, "echo same");
    assert_ne!(
        t_a.get(id_a).unwrap().hash,
        t_b.get(id_b).unwrap().hash,
        "same command on different machines hashes differently"
    );
}

#[test]
fn output_is_collected_by_stream() {
    let events = vec![
        chunk(1, Stream::Stdout, b"a"),
        chunk(1, Stream::Stderr, b"x"),
        chunk(1, Stream::Stdout, b"b"),
        CellEvent::Completed { id: 1, exit_code: 0, duration_ms: 1, hash: None },
    ];
    let o = gather(&events, 3);
    assert_eq!((o.stdout, o.stderr, o.exit_code), (b"ab".to_vec(), b"x".to_vec(), 3));
}

#[test]
fn failed_lines_are_cells_with_code_two() {
    let mut t = Tree::new(st(), sys());
    let id = run(&mut t, 0, "echo $(oops");
    let r = t.get(id).unwrap().result.as_ref().unwrap();
    assert_eq!(r.exit_code, 2);
    assert!(String::from_utf8_lossy(&r.stderr).contains("unterminated"));
    assert_eq!(r.end_state.cwd, "/work");
}
