use fern::history::lineage;
use fern::keys::{encode_key, Key};
use fern::layout::{layout_rects, replace_leaf, Dir, Layout, Rect};
use fern::lines::{body_lines, pane_lines, sanitize};
use fern::mux::{
    tty_attached, tty_input, tty_news, Act, Active, Input, Mode, Msg, Mux, Terminal, TtyNews,
};
use fern::screen::{bar_fits, render, Color, Grid, GridCell, Paint};
use fern::wire::{
    BranchSnapshot, CellEvent, CellSnapshot, Request, Response, Stream, TreeSnapshot,
};

fn mux() -> Mux {
    Mux::new("main".into(), 80, 24)
}

fn key(m: &mut Mux, code: Key) -> Act {
    m.handle_event(Input::Key { code, ctrl: false, release: false }, "me".into())
}

fn leader(m: &mut Mux) {
    let act = m.handle_event(
        Input::Key { code: Key::Char('a'), ctrl: true, release: false },
        "me".into(),
    );
    assert!(matches!(act, Act::Nothing));
    assert_eq!(m.mode(), Mode::Prefix);
}

fn type_line(m: &mut Mux, line: &str) {
    for c in line.chars() {
        key(m, Key::Char(c));
    }
}

fn prompt(m: &Mux, pane: u32) -> String {
    match &m.pane(pane).unwrap().active {
        Active::Cooked { input } => input.clone(),
        a => panic!("{a:?}"),
    }
}

fn event(m: &mut Mux, e: CellEvent) {
    assert!(matches!(m.apply_msg(Msg::Event(e)), Terminal::Nothing));
}

fn started(id: u64, source: &str, branch: &str) -> CellEvent {
    CellEvent::Started {
        id,
        parent: Some(0),
        source: source.into(),
        who: "other".into(),
        branch: branch.into(),
    }
}

fn wrote(id: u64, data: &str) -> CellEvent {
    CellEvent::OutputChunk {
        id,
        stream: Stream::Stdout,
        data: data.into(),
    }
}

fn over(id: u64, exit_code: i32) -> CellEvent {
    CellEvent::Completed {
        id,
        exit_code,
        duration_ms: 5,
        hash: None,
    }
}

fn branches() -> Vec<BranchSnapshot> {
    vec![BranchSnapshot {
        name: "main".into(),
        tip: 2,
        tip_hash: None,
        running: true,
        tty: false,
    }]
}

fn snap(id: u64, parent: Option<u64>, source: &str, exit_code: Option<i32>) -> CellSnapshot {
    CellSnapshot {
        id,
        parent,
        submitter: "u".into(),
        source: source.into(),
        exit_code,
        duration_ms: 1,
        stdout: "out\n".into(),
        stderr: "err".into(),
        hash: None,
    }
}

fn split(m: &mut Mux, dir: Dir) -> u32 {
    let mut bs = branches();
    let focus = m.pane(m.focus()).unwrap().branch.clone();
    bs[0].name = focus;
    let fork = m.plan_split(&bs).unwrap();
    let id = fork.id;
    m.split(fork, dir);
    m.command_done();
    id
}

#[test]
fn typing_edits_the_prompt_and_enter_submits() {
    let mut m = mux();
    type_line(&mut m, " lsx");
    key(&mut m, Key::Backspace);
    assert_eq!(prompt(&m, 0), " ls");
    match key(&mut m, Key::Enter) {
        Act::Submit { pane: 0, branch, source } => assert_eq!((branch.as_str(), source.as_str()), ("main", "ls")),
        a => panic!("{a:?}"),
    }
    assert!(matches!(&m.pane(0).unwrap().active, Active::Running { id: None, source, .. } if source == "ls"));
    // The prompt is locked until the cell has finished.
    assert!(matches!(key(&mut m, Key::Char('x')), Act::Nothing));
    event(&mut m, started(7, "ls", "main"));
    event(&mut m, wrote(7, "a\n"));
    event(&mut m, over(7, 0));
    assert_eq!(prompt(&m, 0), "");
    let shown = &m.pane(0).unwrap().scrollback[0];
    assert_eq!((shown.source.as_str(), shown.who.as_str(), shown.body.as_str()), ("ls", "me", "a\n"));
    assert_eq!(shown.exit, Some(0));
}

#[test]
fn blank_lines_are_not_submitted() {
    let mut m = mux();
    type_line(&mut m, "   ");
    assert!(matches!(key(&mut m, Key::Enter), Act::Nothing));
    assert_eq!(prompt(&m, 0), "");
}

#[test]
fn cells_of_others_bring_the_typed_text_back() {
    let mut m = mux();
    type_line(&mut m, "half");
    event(&mut m, started(7, "make", "main"));
    event(&mut m, wrote(7, "x"));
    assert!(matches!(&m.pane(0).unwrap().active, Active::Running { id: Some(7), body, .. } if body == "x"));
    event(&mut m, over(7, 2));
    assert_eq!(prompt(&m, 0), "half");
    assert_eq!(m.pane(0).unwrap().scrollback[0].exit, Some(2));
    // Other branches are not shown.
    event(&mut m, started(8, "make", "side"));
    assert_eq!(prompt(&m, 0), "half");
}

#[test]
fn all_that_a_cell_writes_is_shown_in_order() {
    let body = |m: &Mux| m.pane(0).unwrap().scrollback.last().unwrap().body.clone();
    // A cell that takes the place of the prompt.
    let mut m = mux();
    type_line(&mut m, "half");
    event(&mut m, started(4, "make", "main"));
    for data in ["one\n", "", "two ", "three\n"] {
        event(&mut m, wrote(4, data));
    }
    event(&mut m, over(4, 0));
    assert_eq!(body(&m), "one\ntwo three\n");
    assert_eq!(prompt(&m, 0), "half");
    // A line submitted here.
    key(&mut m, Key::Enter);
    event(&mut m, started(5, "half", "main"));
    event(&mut m, wrote(5, "a"));
    event(&mut m, wrote(5, "b"));
    event(&mut m, over(5, 2));
    assert_eq!(body(&m), "ab");
    assert_eq!(m.pane(0).unwrap().scrollback.len(), 2);
    assert_eq!(prompt(&m, 0), "");
}

#[test]
fn failed_submits_are_shown() {
    let mut m = mux();
    type_line(&mut m, "ls");
    key(&mut m, Key::Enter);
    m.apply_msg(Msg::SubmitFailed { pane: 0, err: "no daemon".into() });
    let shown = &m.pane(0).unwrap().scrollback[0];
    assert_eq!((shown.source.as_str(), shown.body.as_str()), ("(submit failed)", "no daemon"));
    assert_eq!(shown.exit, Some(-1));
    assert_eq!(prompt(&m, 0), "");
}

#[test]
fn the_leader_starts_a_command() {
    let mut m = mux();
    assert_eq!(m.status(), "C-a then: e tty · %/\" split · o focus · q quit");
    leader(&mut m);
    assert_eq!(m.status(), "PREFIX — %/\" split · o focus · q quit");
    assert!(matches!(key(&mut m, Key::Char('q')), Act::Quit));
    assert_eq!(m.mode(), Mode::Pane);
    leader(&mut m);
    assert!(matches!(key(&mut m, Key::Char('%')), Act::Split(Dir::Horizontal)));
    leader(&mut m);
    assert!(matches!(key(&mut m, Key::Char('"')), Act::Split(Dir::Vertical)));
    leader(&mut m);
    assert!(matches!(key(&mut m, Key::Char('e')), Act::Tty));
    leader(&mut m);
    assert!(matches!(key(&mut m, Key::Char('z')), Act::Nothing));
    assert_eq!(m.status(), "focus: main");
    let act = m.handle_event(
        Input::Key { code: Key::Char('x'), ctrl: false, release: true },
        "me".into(),
    );
    assert!(matches!(act, Act::Nothing));
    assert_eq!(prompt(&m, 0), "");
    m.handle_event(Input::Resize { cols: 100, rows: 50 }, "me".into());
    assert_eq!(m.size(), (100, 50));
    assert!(matches!(m.handle_event(Input::Other, "me".into()), Act::Nothing));
}

#[test]
fn splits_fork_and_take_the_focus() {
    let mut m = mux();
    assert!(m.can_split());
    let fork = m.plan_split(&branches()).unwrap();
    assert_eq!((fork.id, fork.name.as_str(), fork.at), (1, "mux-1", 2));
    m.split(fork, Dir::Horizontal);
    m.command_done();
    assert_eq!(m.focus(), 1);
    assert_eq!(m.status(), "focus: mux-1");
    assert_eq!(m.plan_split(&branches()).unwrap_err(), "branch 'mux-1' vanished");
    let rects = m.rects();
    assert_eq!(
        rects,
        vec![
            (0, Rect { x: 0, y: 0, w: 40, h: 23 }),
            (1, Rect { x: 40, y: 0, w: 40, h: 23 }),
        ]
    );
    assert_eq!(split(&mut m, Dir::Vertical), 2);
    assert_eq!(m.rects()[1], (1, Rect { x: 40, y: 0, w: 40, h: 11 }));
    assert_eq!(m.rects()[2], (2, Rect { x: 40, y: 11, w: 40, h: 12 }));
    for expected in [0, 1, 2] {
        leader(&mut m);
        key(&mut m, Key::Char('o'));
        assert_eq!(m.focus(), expected);
    }
}

#[test]
fn panes_tile_the_area() {
    let layout = Layout::Split {
        dir: Dir::Vertical,
        a: Box::new(Layout::Leaf(5)),
        b: Box::new(Layout::Split {
            dir: Dir::Horizontal,
            a: Box::new(Layout::Leaf(6)),
            b: Box::new(Layout::Leaf(7)),
        }),
    };
    let mut rects = Vec::new();
    layout_rects(&layout, Rect { x: 3, y: 2, w: 7, h: 5 }, &mut rects);
    for x in 3..10u16 {
        for y in 2..7u16 {
            let n = rects
                .iter()
                .filter(|(_, r)| r.x <= x && x < r.x + r.w && r.y <= y && y < r.y + r.h)
                .count();
            assert_eq!(n, 1);
        }
    }
    assert_eq!(rects.iter().map(|(_, r)| r.w as u32 * r.h as u32).sum::<u32>(), 35);
}

#[test]
fn leaves_are_replaced_once() {
    let mut layout = Layout::Leaf(1);
    let mut repl = Some(Layout::Leaf(9));
    assert!(!replace_leaf(&mut layout, 2, &mut repl));
    assert!(repl.is_some());
    assert!(replace_leaf(&mut layout, 1, &mut repl));
    assert!(repl.is_none());
    assert!(matches!(layout, Layout::Leaf(9)));
}

#[test]
fn panes_open_with_their_history() {
    let mut m = mux();
    let tree = TreeSnapshot {
        cells: vec![
            snap(0, None, "", Some(0)),
            snap(1, Some(0), "one", Some(0)),
            snap(2, Some(1), "two", None),
            snap(3, Some(0), "elsewhere", Some(0)),
        ],
    };
    let ids: Vec<u64> = lineage(&tree, 2).iter().map(|c| c.id).collect();
    assert_eq!(ids, vec![0, 1, 2]);
    assert_eq!(lineage(&tree, 99).len(), 0);
    let tip = m.tip(0, &branches()).unwrap();
    assert_eq!(tip, 2);
    m.backfill(0, tip, &tree);
    let pane = m.pane(0).unwrap();
    assert_eq!(pane.scrollback.len(), 1);
    assert_eq!(pane.scrollback[0].body, "out\nerr");
    assert!(matches!(&pane.active, Active::Running { id: Some(2), source, .. } if source == "two"));
    event(&mut m, over(2, 0));
    assert_eq!(m.pane(0).unwrap().scrollback.len(), 2);
    assert_eq!(m.tip(0, &vec![]), None);
    m.backfill_failed("gone");
    assert_eq!(m.status(), "backfill failed: gone");
}

#[test]
fn terminal_programs_get_keys_and_sizes() {
    let mut m = mux();
    assert_eq!(m.tty_request(Some("/bin/zsh".into())), ("main".into(), "/bin/zsh".into()));
    assert_eq!(m.tty_request(None).1, "bash");
    type_line(&mut m, " vim x ");
    assert_eq!(m.tty_request(None).1, "vim x");
    assert_eq!(m.enter_tty(9), (21, 78));
    match key(&mut m, Key::Up) {
        Act::Send { pane: 0, bytes } => assert_eq!(bytes, b"\x1b[A"),
        a => panic!("{a:?}"),
    }
    assert!(m.reconcile_tty_sizes().is_empty());
    m.handle_event(Input::Resize { cols: 60, rows: 20 }, "me".into());
    let r = m.reconcile_tty_sizes();
    assert_eq!((r[0].pane, r[0].id, r[0].rows, r[0].cols), (0, 9, 17, 58));
    assert!(m.reconcile_tty_sizes().is_empty());
    // Events of its own cell are left alone, and so is the pane by other cells.
    event(&mut m, over(9, 0));
    event(&mut m, started(10, "export", "main"));
    assert!(matches!(&m.pane(0).unwrap().active, Active::LiveTty { id: 9, .. }));
    assert!(matches!(
        m.apply_msg(Msg::TtyOutput { pane: 0, data: b"x".to_vec() }),
        Terminal::Feed { pane: 0, .. }
    ));
    assert!(matches!(m.apply_msg(Msg::TtyClosed { pane: 0 }), Terminal::Drop { pane: 0 }));
    assert_eq!(prompt(&m, 0), "");
    assert!(matches!(m.apply_msg(Msg::TtyClosed { pane: 0 }), Terminal::Nothing));
    assert!(matches!(m.apply_msg(Msg::TtyOutput { pane: 0, data: vec![] }), Terminal::Nothing));
    m.tty_failed("no pty");
    assert_eq!(m.status(), "tty launch failed: no pty");
}

#[test]
fn small_screens_have_no_panes() {
    let mut m = Mux::new("main".into(), 3, 24);
    assert_eq!(m.pane_inner(0), None);
    assert_eq!(m.enter_tty(1), (24, 80));
    assert!(m.reconcile_tty_sizes().is_empty());
    assert!(render(&m, &vec![]).is_empty());
}

#[test]
fn a_terminal_connection_is_read() {
    assert!(tty_attached(&Some(Response::Done)));
    assert!(!tty_attached(&Some(Response::Error { message: "x".into() })));
    assert!(!tty_attached(&None));
    assert!(matches!(tty_news(Response::Event(wrote(1, "é"))), TtyNews::Output(b) if b == "é".as_bytes()));
    assert!(matches!(tty_news(Response::Event(over(1, 0))), TtyNews::Closed));
    assert!(matches!(tty_news(Response::Done), TtyNews::Nothing));
    assert!(matches!(tty_input(3, b"\xff"), Request::Input { id: 3, data } if data == "\u{fffd}"));
}

#[test]
fn keys_have_bytes() {
    assert_eq!(encode_key(Key::Char('c'), true), Some(vec![3]));
    assert_eq!(encode_key(Key::Char('Z'), true), Some(vec![26]));
    assert_eq!(encode_key(Key::Char('c'), false), Some(b"c".to_vec()));
    assert_eq!(encode_key(Key::Char('é'), false), Some("é".as_bytes().to_vec()));
    assert_eq!(encode_key(Key::Char('1'), true), Some(b"1".to_vec()));
    assert_eq!(encode_key(Key::Enter, false), Some(b"\r".to_vec()));
    assert_eq!(encode_key(Key::Backspace, false), Some(vec![0x7f]));
    assert_eq!(encode_key(Key::Tab, false), Some(b"\t".to_vec()));
    assert_eq!(encode_key(Key::Esc, false), Some(vec![0x1b]));
    assert_eq!(encode_key(Key::Left, false), Some(b"\x1b[D".to_vec()));
    assert_eq!(encode_key(Key::Right, false), Some(b"\x1b[C".to_vec()));
    assert_eq!(encode_key(Key::Down, false), Some(b"\x1b[B".to_vec()));
    assert_eq!(encode_key(Key::Home, false), Some(b"\x1b[H".to_vec()));
    assert_eq!(encode_key(Key::End, false), Some(b"\x1b[F".to_vec()));
    assert_eq!(encode_key(Key::PageUp, false), Some(b"\x1b[5~".to_vec()));
    assert_eq!(encode_key(Key::PageDown, false), Some(b"\x1b[6~".to_vec()));
    assert_eq!(encode_key(Key::Delete, false), Some(b"\x1b[3~".to_vec()));
    assert_eq!(encode_key(Key::Insert, false), Some(b"\x1b[2~".to_vec()));
    assert_eq!(encode_key(Key::Other, false), None);
}

#[test]
fn output_lines_are_made_safe() {
    assert_eq!(sanitize("a\x1b[31mred\x1b[0m b"), "ared b");
    assert_eq!(sanitize("a\tb\x07c"), "a    bc");
    assert_eq!(sanitize("\x1bX"), "X");
    assert_eq!(sanitize("x\x1b[31"), "x");
    assert_eq!(body_lines("10%\r50%\r100%\ndone\n"), vec!["100%", "done", ""]);
    assert_eq!(body_lines(""), vec![""]);
}

#[test]
fn panes_are_lines() {
    let mut m = mux();
    event(&mut m, started(1, "echo hi", "main"));
    event(&mut m, wrote(1, "hi"));
    assert_eq!(
        pane_lines(m.pane(0).unwrap()),
        vec!["❯ echo hi", "hi", "  … other running"]
    );
    event(&mut m, over(1, 3));
    type_line(&mut m, "x");
    assert_eq!(
        pane_lines(m.pane(0).unwrap()),
        vec!["❯ echo hi", "hi", "  └ other · exit 3 · 5ms", "", "❯ x█"]
    );
}

fn texts(paints: &[Paint]) -> Vec<(u16, u16, String)> {
    paints
        .iter()
        .filter_map(|p| match p {
            Paint::Text { x, y, text } => Some((*x, *y, text.clone())),
            _ => None,
        })
        .collect()
}

#[test]
fn a_pane_is_painted_in_its_border() {
    let mut m = Mux::new("main".into(), 20, 6);
    key(&mut m, Key::Char('x'));
    m.command_done();
    assert!(bar_fits(&m));
    let paints = render(&m, &vec![]);
    assert!(matches!(paints[0], Paint::Clear));
    let t = texts(&paints);
    assert_eq!(t[0], (0, 0, "┏ main ━━━━━━━━━━━━┓".into()));
    assert_eq!(t[1], (0, 1, "┃                  ┃".into()));
    assert_eq!(t[4], (1, 1, "❯ x█".into()));
    assert_eq!(t[5], (1, 2, "".into()));
    assert_eq!(t[7], (0, 4, "┗━━━━━━━━━━━━━━━━━━┛".into()));
    match paints.last() {
        Some(Paint::Bar { y: 5, text }) => assert_eq!(text, " [PANE] focus: main "),
        p => panic!("{p:?}"),
    }
}

#[test]
fn the_status_bar_is_cut_between_characters() {
    let m = Mux::new("main".into(), 80, 24);
    assert!(bar_fits(&m));
    // The first dot stands in the bytes 24 and 25 of the bar.
    assert!(!bar_fits(&Mux::new("main".into(), 25, 24)));
    let m = Mux::new("main".into(), 24, 24);
    assert!(bar_fits(&m));
    match render(&m, &vec![]).last() {
        Some(Paint::Bar { text, .. }) => assert_eq!(text, " [PANE] C-a then: e tty "),
        p => panic!("{p:?}"),
    }
}

#[test]
fn terminals_are_painted_cell_by_cell() {
    let mut m = Mux::new("main".into(), 20, 6);
    m.enter_tty(1);
    m.command_done();
    let cell = |s: &str| {
        Some(GridCell {
            contents: s.into(),
            fg: Color::Indexed(1),
            bg: Color::Rgb(1, 2, 3),
            bold: true,
            inverse: false,
        })
    };
    let grid = Grid {
        rows: 2,
        cols: 3,
        cells: vec![vec![cell("a"), cell(""), None], vec![]],
        cursor: (0, 1),
        hide_cursor: false,
    };
    let paints = render(&m, &vec![(0, grid)]);
    let rows: Vec<_> = paints
        .iter()
        .filter_map(|p| match p {
            Paint::Glyphs { x, y, glyphs } => Some((*x, *y, glyphs)),
            _ => None,
        })
        .collect();
    assert_eq!(rows.len(), 2);
    let (x, y, row) = rows[0];
    assert_eq!((x, y, row.len()), (1, 1, 3));
    assert_eq!((row[0].text.as_str(), row[0].inverse, row[0].bold), ("a", false, true));
    assert_eq!((row[1].text.as_str(), row[1].inverse), (" ", true));
    assert_eq!((row[2].text.as_str(), row[2].fg), (" ", Color::Default));
    assert_eq!(rows[1].1, 2);
}
