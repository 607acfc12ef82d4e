use fern::client::{
    branch_base, branch_is_tty, branch_tip_state, command_line, created, current_branch_path,
    deleted, detached, driving, expect_branches, expect_cell, expect_done, expect_tree,
    follow_mode, join_words, launched, needs_no_check, read_current_branch, renamed,
    replay_stored, report_fork, resolve_current_branch, resolve_target, send_line, stream_event,
    submitter, switch, terminal_event, typed, Cursor, Follow, Launch, Progress, Refusal,
    Submission, Typed,
};
use fern::cockpit::{classify, Feed, Line, Meta, StdinBuffer};
use fern::helm::{Cockpit, Need, News, Turn};
use fern::history::{has_lineage, lineage};
use fern::render::{
    can_cut, can_list, can_show_tree, echoed, ensure_trailing_newline, event_can_show, render,
    render_branches, render_tree, say_exit, short_hash, tree_nests, Print,
};
use fern::wire::{
    BranchSnapshot, CellEvent, CellSnapshot, Request, Response, Stream, TreeSnapshot,
};

fn branch(name: &str, tip: u64, running: bool, tty: bool) -> BranchSnapshot {
    BranchSnapshot {
        name: name.into(),
        tip,
        tip_hash: Some("0123456789abcdef".into()),
        running,
        tty,
    }
}

fn cell(id: u64, parent: Option<u64>, source: &str) -> CellSnapshot {
    CellSnapshot {
        id,
        parent,
        submitter: "u".into(),
        source: source.into(),
        exit_code: Some(0),
        duration_ms: 7,
        stdout: "stored-output\n".into(),
        stderr: String::new(),
        hash: Some("0123456789abcdef".into()),
    }
}

fn started(id: u64, who: &str, branch: &str) -> CellEvent {
    CellEvent::Started {
        id,
        parent: Some(0),
        source: "echo hi".into(),
        who: who.into(),
        branch: branch.into(),
    }
}

fn wrote(id: u64, stream: Stream, data: &str) -> CellEvent {
    CellEvent::OutputChunk {
        id,
        stream,
        data: data.into(),
    }
}

fn over(id: u64, exit_code: i32) -> CellEvent {
    CellEvent::Completed {
        id,
        exit_code,
        duration_ms: 9,
        hash: Some("0123456789abcdef".into()),
    }
}

fn stdout(prints: &[Print]) -> String {
    prints
        .iter()
        .map(|p| match p {
            Print::Stdout(s) => s.as_str(),
            Print::Stderr(_) => "",
        })
        .collect()
}

fn stderr(prints: &[Print]) -> String {
    prints
        .iter()
        .map(|p| match p {
            Print::Stderr(s) => s.as_str(),
            Print::Stdout(_) => "",
        })
        .collect()
}

// ---------- Commands --------------------------------------------------------------

#[test]
fn command_lines_are_words_with_spaces() {
    let words: Vec<String> = vec!["echo".into(), "a  b".into(), "c".into()];
    assert_eq!(join_words(&words), "echo a  b c");
    assert_eq!(command_line(&words), Some("echo a  b c".into()));
    assert_eq!(command_line(&vec![]), None);
    assert_eq!(command_line(&vec![" ".into(), "\t".into()]), None);
    assert_eq!(detached(1), "detached: cell #1 running\n");
}

#[test]
fn the_current_branch_is_kept_in_a_file() {
    assert_eq!(current_branch_path(Some("/run".into())), "/run/fern-branch");
    assert_eq!(current_branch_path(None), "/tmp/fern-branch");
    assert_eq!(read_current_branch(Some(" side \n".into())), "side");
    assert_eq!(read_current_branch(Some(" \n".into())), "main");
    assert_eq!(read_current_branch(None), "main");
}

#[test]
fn a_stale_current_branch_heals_to_main() {
    let bs = vec![branch("main", 0, false, false), branch("side", 1, false, false)];
    assert!(needs_no_check("main") && !needs_no_check("side"));
    assert!(matches!(resolve_current_branch("side", &bs), Cursor::On(n) if n == "side"));
    match resolve_current_branch("ghost-branch", &bs) {
        Cursor::Healed(m) => assert!(m.contains("ghost-branch") && m.contains("falling back")),
        c => panic!("{c:?}"),
    }
    assert!(matches!(resolve_current_branch("main", &vec![]), Cursor::On(_)));
}

#[test]
fn submitters_have_names() {
    assert_eq!(submitter(Some("w".into()), Some("u".into())), "w");
    assert_eq!(submitter(None, Some("u".into())), "u");
    assert_eq!(submitter(None, None), "?");
}

#[test]
fn answers_must_be_the_ones_expected() {
    assert!(expect_done(Response::Done).is_ok());
    assert!(matches!(expect_done(Response::Error { message: "no".into() }), Err(Refusal::Said(m)) if m == "no"));
    assert!(matches!(expect_tree(Response::Done), Err(Refusal::Unexpected(Response::Done))));
    assert!(matches!(expect_branches(Response::Done), Err(Refusal::Unexpected(_))));
    assert!(matches!(expect_cell(Response::Done), Err(Refusal::Unexpected(_))));
    assert_eq!(expect_cell(Response::Cell(cell(3, None, "x"))).unwrap().id, 3);
    assert_eq!(expect_tree(Response::Tree(TreeSnapshot { cells: vec![] })).unwrap().cells.len(), 0);
    assert_eq!(expect_branches(Response::Branches { branches: vec![] }).unwrap().len(), 0);
}

#[test]
fn a_submission_goes_on_until_its_cell_is_over() {
    let mut s = Submission::new("main".into(), "u".into(), "echo hi".into());
    match s.request(Some(4), false) {
        Request::Submit { branch, parent: Some(4), source, who, detach: false } => {
            assert_eq!((branch.as_str(), source.as_str(), who.as_str()), ("main", "echo hi", "u"));
        }
        r => panic!("{r:?}"),
    }
    match s.take(Response::Event(started(5, "u", "fork-1"))) {
        Progress::More(p) => assert!(stderr(&p).contains("forked off 'main'")),
        p => panic!("{p:?}"),
    }
    match s.take(Response::Event(wrote(5, Stream::Stdout, "hi\n"))) {
        Progress::More(p) => assert_eq!(stdout(&p), "hi\n"),
        p => panic!("{p:?}"),
    }
    match s.take(Response::Event(over(5, 3))) {
        Progress::Done(c) => {
            assert_eq!(c.id, 5);
            assert_eq!(c.exit_code, Some(3));
            assert_eq!(c.stdout, "hi\n");
            assert_eq!(c.duration_ms, 9);
        }
        p => panic!("{p:?}"),
    }
    let mut s = Submission::new("main".into(), "u".into(), "x".into());
    assert!(matches!(s.take(Response::Error { message: "no".into() }), Progress::Failed(m) if m == "no"));
}

#[test]
fn forks_are_reported() {
    assert!(report_fork("main", "main").is_empty());
    assert_eq!(
        stderr(&report_fork("main", "fork-1")).lines().next().unwrap(),
        "[fern] forked off 'main' → new branch 'fork-1'"
    );
}

#[test]
fn background_lines_are_launched() {
    assert!(matches!(launched("main", Response::Event(started(5, "u", "main"))), Launch::Started(5, p) if p.is_empty()));
    assert!(matches!(launched("main", Response::Error { message: "no".into() }), Launch::Failed(m) if m == "no"));
    assert!(matches!(launched("main", Response::Done), Launch::Wait));
}

#[test]
fn targets_are_branches_or_cells() {
    let bs = vec![branch("main", 3, true, false), branch("7", 4, false, true)];
    assert_eq!(resolve_target(&bs, "main"), Ok(3));
    assert_eq!(resolve_target(&bs, "7"), Ok(4));
    assert_eq!(resolve_target(&bs, "12"), Ok(12));
    assert_eq!(resolve_target(&bs, "+12"), Ok(12));
    assert!(resolve_target(&bs, "nope").is_err());
    assert!(resolve_target(&bs, "-1").is_err());
    assert!(resolve_target(&bs, "18446744073709551616").is_err());
    assert_eq!(branch_tip_state(&bs, "main"), Some((3, true)));
    assert_eq!(branch_tip_state(&bs, "x"), None);
    assert!(branch_is_tty(&bs, "7") && !branch_is_tty(&bs, "main") && !branch_is_tty(&bs, "x"));
}

#[test]
fn a_terminal_is_followed() {
    assert!(matches!(follow_mode(Response::Done), Follow::Terminal));
    assert!(matches!(follow_mode(Response::Error { message: "x".into() }), Follow::Events));
    assert!(matches!(follow_mode(Response::Tree(TreeSnapshot { cells: vec![] })), Follow::Unexpected(_)));
    assert!(driving(2).contains("driving cell #2"));
    match typed(2, b"ls\r") {
        Typed::Send(Request::Input { id: 2, data }) => assert_eq!(data, "ls\r"),
        t => panic!("{t:?}"),
    }
    match typed(2, b"x\x1dy") {
        Typed::Detach(Print::Stderr(s)) => assert!(s.contains("detached")),
        t => panic!("{t:?}"),
    }
    match typed(2, &[0xff]) {
        Typed::Send(Request::Input { data, .. }) => assert_eq!(data, "\u{fffd}"),
        t => panic!("{t:?}"),
    }
    let (p, done) = terminal_event(Response::Event(wrote(2, Stream::Stdout, "x")));
    assert!(stdout(&p) == "x" && !done);
    let (p, done) = terminal_event(Response::Event(over(2, 4)));
    assert!(stderr(&p).contains("cell exited with code 4") && done);
}

#[test]
fn a_cell_without_a_terminal_is_followed() {
    let (p, done) = stream_event(1, Response::Event(wrote(1, Stream::Stderr, "late-noise\n")));
    assert!(stderr(&p) == "late-noise\n" && !done);
    let (p, done) = stream_event(1, Response::Event(wrote(2, Stream::Stdout, "x")));
    assert!(p.is_empty() && !done);
    let (p, done) = stream_event(1, Response::Event(over(1, 3)));
    assert!(stdout(&p).contains("[#1 exit 3 9ms]") && done);
    let p = replay_stored(1, &cell(1, Some(0), "x")).unwrap();
    assert_eq!(stdout(&p), "stored-output\n[#1 exit 0 7ms]\n");
    let mut running = cell(1, Some(0), "x");
    running.exit_code = None;
    assert!(replay_stored(1, &running).is_none());
}

#[test]
fn branch_verbs_say_what_they_did() {
    let bs = vec![branch("main", 3, false, false)];
    assert_eq!(branch_base(Some(9), "ghost", &bs), Ok(9));
    assert_eq!(branch_base(None, "main", &bs), Ok(3));
    assert!(branch_base(None, "ghost", &bs).unwrap_err().contains("pass --at"));
    assert_eq!(created("x", 4), "created branch 'x' at #4\n");
    assert_eq!(deleted("x", "main"), ("deleted branch 'x'\n".into(), None));
    assert_eq!(
        deleted("here", "here"),
        ("deleted branch 'here' (switched to 'main')\n".into(), Some("main".into()))
    );
    assert_eq!(renamed("a", "b", "a"), ("renamed branch 'a' → 'b'\n".into(), Some("b".into())));
    assert_eq!(renamed("a", "b", "c").1, None);
    assert_eq!(switch("main", &bs), Ok("switched to branch 'main'\n".into()));
    assert!(switch("missing", &bs).unwrap_err().contains("no such branch"));
    assert!(matches!(send_line(2, "hi".into()), Request::Input { id: 2, data } if data == "hi\n"));
}

// ---------- What is printed -------------------------------------------------------

#[test]
fn trees_are_printed_with_their_lineage() {
    let mut root = cell(0, None, "");
    root.submitter = "system".into();
    let mut running = cell(2, Some(1), "sleep");
    running.exit_code = None;
    running.hash = None;
    let snap = TreeSnapshot { cells: vec![root, cell(1, Some(0), "echo a"), running] };
    assert!(tree_nests(&snap));
    let text = render_tree(&snap);
    assert_eq!(
        text,
        "#0 0123456 (root) [system] exit 0\n  #1 0123456 echo a [u] exit 0\n    #2 sleep [u] running\n"
    );
}

#[test]
fn branches_are_printed_with_their_marks() {
    let mut side = branch("side", 2, true, true);
    side.tip_hash = None;
    let text = render_branches(&vec![branch("main", 1, false, false), side], "main");
    assert!(text.contains("* main"), "{text}");
    assert!(text.contains("running") && text.contains("(tty)"), "{text}");
    assert!(!text.contains("* side"));
}

#[test]
fn small_prints() {
    assert_eq!(short_hash("0123456789"), "0123456");
    assert_eq!(short_hash("01"), "01");
    assert!(can_cut("0123456789") && can_cut("") && can_cut("é") && can_cut("01234é"));
    assert!(!can_cut("012345é"));
    assert_eq!(say_exit(1, 0, 7), "[#1 exit 0 7ms]\n");
    assert!(matches!(echoed(Stream::Stderr, "x"), Print::Stderr(s) if s == "x"));
    assert!(ensure_trailing_newline("a\n", "").is_none());
    assert!(ensure_trailing_newline("", "").is_none());
    assert!(ensure_trailing_newline("a", "").is_some());
    assert!(ensure_trailing_newline("a", "b\n").is_none());
    let over = |hash: &str| CellEvent::Completed {
        id: 1,
        exit_code: 0,
        duration_ms: 1,
        hash: Some(hash.into()),
    };
    assert!(event_can_show(&over("0123456789")) && !event_can_show(&over("012345é")));
    assert!(matches!(render(&started(1, "u", "main")), Print::Stdout(s) if s.contains("#1") && s.contains("echo hi")));
    assert!(matches!(render(&wrote(1, Stream::Stderr, "werr\n")), Print::Stderr(s) if s == "werr\n"));
}

#[test]
fn a_tree_nests_unless_a_cell_is_below_itself() {
    let snap = |cells: Vec<CellSnapshot>| TreeSnapshot { cells };
    // A cell may be older than its parent, and stand before it.
    let odd = snap(vec![cell(1, Some(5), "b"), cell(0, None, ""), cell(5, Some(0), "a")]);
    assert!(tree_nests(&odd));
    assert!(render_tree(&odd).contains("    #1 "));
    // A loop that hangs from nothing is not shown, and one that hangs from the root cannot be.
    assert!(tree_nests(&snap(vec![cell(1, Some(1), "x")])));
    assert_eq!(render_tree(&snap(vec![cell(1, Some(1), "x")])), "");
    assert!(!tree_nests(&snap(vec![
        cell(0, None, ""),
        cell(1, Some(0), "x"),
        cell(0, Some(1), "y"),
    ])));
}

#[test]
fn a_lineage_ends_unless_a_cell_is_its_own_ancestor() {
    let snap = TreeSnapshot {
        cells: vec![
            cell(1, Some(5), "b"),
            cell(0, None, ""),
            cell(5, Some(0), "a"),
            cell(7, Some(8), "x"),
            cell(8, Some(7), "y"),
            cell(9, Some(99), "z"),
        ],
    };
    assert!(has_lineage(&snap, 1));
    assert_eq!(lineage(&snap, 1).iter().map(|c| c.id).collect::<Vec<_>>(), vec![0, 5, 1]);
    assert!(!has_lineage(&snap, 7));
    assert!(has_lineage(&snap, 9));
    // It begins where there is no parent, or none that is there.
    assert_eq!(lineage(&snap, 9).iter().map(|c| c.id).collect::<Vec<_>>(), vec![9]);
    assert!(has_lineage(&snap, 42));
}

// ---------- The cockpit -----------------------------------------------------------

#[test]
fn input_is_cut_into_lines() {
    let mut b = StdinBuffer::new();
    assert_eq!(b.line(), None);
    b.feed(b"one\r\ntwo\nthr");
    assert_eq!(b.line(), Some("one".into()));
    assert_eq!(b.line(), Some("two".into()));
    assert_eq!(b.line(), None);
    b.feed(b"ee");
    assert_eq!(b.last_line(), Some("three".into()));
    assert_eq!(b.last_line(), None);
    b.feed(b"raw");
    assert_eq!(b.chunk(), Some(b"raw".to_vec()));
    assert_eq!(b.chunk(), None);
}

#[test]
fn lines_are_commands_or_metas() {
    assert!(matches!(classify("   "), Line::Blank));
    assert!(matches!(classify(" echo hi "), Line::Command(c) if c == "echo hi"));
    assert!(matches!(classify(":q"), Line::Meta(Meta::Quit)));
    assert!(matches!(classify(":exit"), Line::Meta(Meta::Quit)));
    assert!(matches!(classify(":help"), Line::Meta(Meta::Help)));
    assert!(matches!(classify(":at"), Line::Meta(Meta::At)));
    assert!(matches!(classify(":branches"), Line::Meta(Meta::Branches)));
    assert!(matches!(classify(":tree"), Line::Meta(Meta::Tree)));
    assert!(matches!(classify(":switch side"), Line::Meta(Meta::Switch(Some(n))) if n == "side"));
    assert!(matches!(classify(":switch"), Line::Meta(Meta::Switch(None))));
    assert!(matches!(classify(":bogus"), Line::Meta(Meta::Unknown(w)) if w == "bogus"));
}

#[test]
fn cells_of_others_are_echoed() {
    let mut f = Feed::new();
    assert!(f.is_quiet());
    let p = f.render("main", started(4, "other", "main"), true);
    assert!(stdout(&p).contains("[#4 other on main] $ echo hi\n"));
    assert!(!f.is_quiet());
    let p = f.render("main", wrote(4, Stream::Stdout, "partial"), false);
    assert_eq!(stdout(&p), "partial");
    let p = f.render("main", over(4, 0), false);
    assert!(stdout(&p).starts_with("\n"), "{p:?}");
    assert!(f.is_quiet());
}

#[test]
fn own_cells_and_other_branches_are_not_echoed() {
    let mut f = Feed::new();
    f.submitted(4);
    assert!(f.render("main", started(4, "me", "main"), true).is_empty());
    assert!(f.render("main", wrote(4, Stream::Stdout, "x"), true).is_empty());
    assert!(f.render("main", over(4, 0), true).is_empty());
    assert!(f.render("main", started(5, "other", "side"), true).is_empty());
    assert!(f.render("main", wrote(5, Stream::Stdout, "x"), true).is_empty());
}

fn enter(branches: Vec<BranchSnapshot>, target: Option<&str>) -> (Cockpit, Turn) {
    let (mut c, turn) = Cockpit::enter(target.map(String::from), "main".into());
    if matches!(turn.need, Need::Branches) {
        let turn = c.take(News::Branches(branches));
        return (c, turn);
    }
    (c, turn)
}

#[test]
fn a_session_starts_at_a_cell_by_its_number() {
    let (mut c, turn) = enter(vec![branch("main", 1, true, false)], Some("7"));
    assert!(matches!(turn.need, Need::Cell(7)));
    assert_eq!(turn.cursor, None);
    let turn = c.take(News::Cell(cell(7, Some(0), "vim")));
    assert!(matches!(turn.need, Need::Follow(7)));
    let turn = c.take(News::Followed { detached: true });
    assert!(matches!(turn.need, Need::Stop(None)));
    // One that is not there ends the session with what is said of it.
    let (mut c, _) = enter(vec![], Some("8"));
    match c.take(News::Failed("no such cell #8".into())).need {
        Need::Stop(Some(m)) => assert_eq!(m, "no such cell #8"),
        n => panic!("{n:?}"),
    }
    // A branch of that name comes first.
    let (_, turn) = enter(vec![branch("7", 1, false, false)], Some("7"));
    assert!(matches!(turn.need, Need::Events));
    assert_eq!(turn.cursor, Some("7".into()));
}

#[test]
fn hashes_matter_only_where_they_are_shown() {
    let odd = |running: bool| {
        let mut b = branch("main", 1, running, false);
        b.tip_hash = Some("012345é".into());
        b
    };
    assert!(!can_list(&vec![odd(false)]));
    assert!(can_list(&vec![odd(true)]));
    // On entry and while looking, nothing is shown of the branches.
    let (mut c, turn) = Cockpit::enter(Some("main".into()), "main".into());
    assert!(matches!(turn.need, Need::Branches));
    let news = News::Branches(vec![odd(false)]);
    assert!(c.can_take(&news));
    assert!(matches!(c.take(news).need, Need::Events));
    assert!(matches!(c.take(News::Subscribed).need, Need::Branches));
    let news = News::Branches(vec![odd(false)]);
    assert!(c.can_take(&news));
    assert!(matches!(c.take(news).need, Need::Input));
    // Where they are listed, it is.
    assert!(matches!(c.take(News::Line(Some(":branches".into()))).need, Need::Branches));
    assert!(!c.can_take(&News::Branches(vec![odd(false)])));
    assert!(c.can_take(&News::Branches(vec![odd(true)])));
    c.take(News::Branches(vec![odd(true)]));
    c.take(News::Branches(vec![odd(false)]));
    assert!(matches!(c.take(News::Line(Some(":tree".into()))).need, Need::Tree));
    assert!(c.can_take(&News::Tree(TreeSnapshot { cells: vec![cell(0, None, "")] })));
    let mut root = cell(0, None, "");
    root.hash = Some("012345é".into());
    let tree = TreeSnapshot { cells: vec![root] };
    assert!(!can_show_tree(&tree));
    assert!(!c.can_take(&News::Tree(tree)));
}

/// Answers what a session needs until it waits for input, and gives what was printed.
fn settle(c: &mut Cockpit, mut turn: Turn, branches: &dyn Fn() -> Vec<BranchSnapshot>) -> (String, Turn) {
    let mut text = stdout(&turn.prints);
    loop {
        turn = match turn.need {
            Need::Branches => c.take(News::Branches(branches())),
            Need::Events => c.take(News::Subscribed),
            Need::Tree => c.take(News::Tree(TreeSnapshot { cells: vec![cell(0, None, "")] })),
            Need::Stream { .. } => c.take(News::Streamed(cell(1, Some(0), "x"))),
            Need::Follow(_) => c.take(News::Followed { detached: false }),
            _ => return (text, turn),
        };
        text.push_str(&stdout(&turn.prints));
    }
}

#[test]
fn a_session_runs_commands_and_metas() {
    let bs = || vec![branch("main", 0, false, false), branch("side", 0, false, false)];
    let (mut c, turn) = enter(bs(), None);
    let (text, turn) = settle(&mut c, turn, &bs);
    assert!(text.contains("attached to 'main'"), "{text}");
    assert!(matches!(turn.need, Need::Input));
    let mut say = |line: &str| {
        let turn = c.take(News::Line(Some(line.into())));
        let cursor = turn.cursor.clone();
        let (text, turn) = settle(&mut c, turn, &bs);
        (text, cursor.or(turn.cursor.clone()), turn)
    };
    assert!(say(":help").0.contains(":switch <name>"));
    assert!(say(":at").0.contains("on branch 'main'"));
    assert!(say(":tree").0.contains("(root)"));
    assert!(say(":branches").0.contains("* main"));
    assert!(say(":bogus").0.contains("unknown command"));
    assert!(say(":switch nope").0.contains("error: no such branch 'nope'"));
    assert!(say("echo from-cockpit").0.contains("[#1 exit 0 7ms]"));
    assert!(say(":switch side").0.contains("switched to 'side'"));
    assert!(matches!(say(":quit").2.need, Need::Stop(None)));
}

#[test]
fn a_session_ends_with_its_input() {
    let bs = || vec![branch("main", 0, false, false)];
    let (mut c, turn) = enter(bs(), None);
    let (_text, turn) = settle(&mut c, turn, &bs);
    assert!(matches!(turn.need, Need::Input));
    let turn = c.take(News::Line(None));
    assert!(matches!(turn.need, Need::Stop(None)));
    let turn = c.take(News::Line(Some("echo".into())));
    assert!(matches!(turn.need, Need::Stop(_)));
}

#[test]
fn a_session_needs_a_branch_that_is_there() {
    let (_c, turn) = enter(vec![branch("main", 0, false, false)], Some("nope"));
    match turn.need {
        Need::Stop(Some(m)) => assert!(m.contains("no such branch 'nope'")),
        n => panic!("{n:?}"),
    }
}

#[test]
fn a_running_tip_is_followed() {
    let running = || vec![branch("main", 3, true, false)];
    let (mut c, mut turn) = enter(running(), None);
    for _ in 0..10 {
        turn = match turn.need {
            Need::Branches => c.take(News::Branches(running())),
            Need::Events => c.take(News::Subscribed),
            _ => turn,
        };
        if matches!(turn.need, Need::Follow(_)) {
            break;
        }
    }
    assert!(matches!(turn.need, Need::Follow(3)));
    let turn = c.take(News::Followed { detached: true });
    assert!(matches!(turn.need, Need::Stop(None)));
}

#[test]
fn commands_on_a_terminal_branch_are_launched() {
    let bs = || vec![branch("main", 0, false, true)];
    let (mut c, turn) = enter(bs(), None);
    let (_text, turn) = settle(&mut c, turn, &bs);
    assert!(matches!(turn.need, Need::Input));
    let turn = c.take(News::Line(Some("vim".into())));
    let (_text, turn) = settle(&mut c, turn, &bs);
    assert!(matches!(turn.need, Need::Launch { .. }), "{turn:?}");
    let turn = c.take(News::Line(None));
    drop(turn);
    let (mut c, turn) = enter(bs(), None);
    let (_text, _turn) = settle(&mut c, turn, &bs);
    let turn = c.take(News::Line(Some("cd /tmp".into())));
    assert!(matches!(turn.need, Need::Stream { .. } | Need::Branches), "{turn:?}");
}
