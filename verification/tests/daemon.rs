use fern::daemon::{
    answer, bad_request, check_name, complete, event_buffer, gen_fork_name, handle_attach,
    handle_kill, handle_line, handle_resize, relay, submit, submit_drawn, submit_named, Active,
    Attach, Completion, Ending, Incoming, Job, Kill, Relay, Submit, Transcript,
};
use fern::eval::{builtin, chunk, exit_code, open_error, spawn_error, tty_mode};
use fern::parse::RedirOp;
use fern::snapshot::{snapshot_branches, snapshot_cell, snapshot_tree};
use fern::store::Record;
use fern::tree::{CellId, State, SystemInfo, Tree};
use fern::wire::{socket_path, CellEvent, Request, Response, Stream};

fn st() -> State {
    State::baseline("/w".into(), None, None, None, None, None)
}

fn new_tree() -> Tree {
    Tree::new(
        st(),
        SystemInfo {
            os: "linux".into(),
            arch: "x86_64".into(),
            hostname: "h".into(),
            fern_version: "0".into(),
        },
    )
}

fn accept(t: &mut Tree, branch: &str, parent: Option<CellId>, source: &str) -> (CellId, State) {
    match submit_named(t, branch, parent, source, "u", "fork-1") {
        Submit::Accepted { id, start, .. } => (id, start),
        Submit::Rejected(r) => panic!("{r:?}"),
    }
}

fn end(t: &mut Tree, id: CellId, start: State, code: i32, stdout: &str) -> Completion {
    let mut transcript = Transcript::new();
    transcript.hear(&CellEvent::OutputChunk {
        id,
        stream: Stream::Stdout,
        data: stdout.into(),
    });
    let state = start.clone();
    complete(t, id, start, Ending::Evaluated(state, code), transcript, 3)
}

fn error_of(r: Response) -> String {
    match r {
        Response::Error { message } => message,
        other => panic!("{other:?}"),
    }
}

fn refused(t: &mut Tree, req: Request) -> String {
    let a = answer(t, &req).unwrap();
    assert!(a.records.is_empty());
    error_of(a.response)
}

#[test]
fn a_line_runs_on_the_tip_of_its_branch() {
    let mut t = new_tree();
    let (id, start) = accept(&mut t, "main", None, "echo hi");
    assert_eq!(id, 1);
    assert_eq!(t.branch_tip("main"), Some(1));
    assert_eq!(t.get(1).unwrap().hash, None);
    let c = end(&mut t, id, start, 0, "hi\n");
    assert!(c.chunk.is_none());
    assert!(matches!(
        c.event,
        CellEvent::Completed { id: 1, exit_code: 0, duration_ms: 3, hash: Some(_) }
    ));
    assert_eq!(c.records.len(), 2);
    assert!(matches!(&c.records[0], Record::Cell { id: 1, parent: 0, .. }));
    assert!(matches!(&c.records[1], Record::SetBranch { name, tip: 1 } if name == "main"));
}

#[test]
fn a_parent_that_is_not_the_tip_forks() {
    let mut t = new_tree();
    let (a, s) = accept(&mut t, "main", None, "echo one");
    end(&mut t, a, s, 0, "");
    match submit_named(&mut t, "main", Some(0), "echo forked", "u", "fork-x") {
        Submit::Accepted { id, event, .. } => {
            assert_eq!(id, 2);
            match event {
                CellEvent::Started { branch, parent, .. } => {
                    assert_eq!(branch, "fork-x");
                    assert_eq!(parent, Some(0));
                }
                e => panic!("{e:?}"),
            }
        }
        r => panic!("{r:?}"),
    }
    assert_eq!(t.branch_tip("main"), Some(1));
    assert_eq!(t.branch_tip("fork-x"), Some(2));
}

#[test]
fn submissions_are_turned_down() {
    let mut t = new_tree();
    let said = |t: &mut Tree, branch: &str, parent: Option<CellId>| {
        match submit_named(t, branch, parent, "echo", "u", "fork-1") {
            Submit::Rejected(r) => error_of(r),
            s => panic!("{s:?}"),
        }
    };
    assert!(said(&mut t, "ghost", None).contains("no such branch"));
    assert!(said(&mut t, "main", Some(999)).contains("no such parent"));
    accept(&mut t, "main", None, "sleep 5");
    assert!(said(&mut t, "main", None).contains("hasn't finished"));
    assert_eq!(t.next_id(), 2);
}

#[test]
fn a_taken_fork_name_is_drawn_again() {
    let mut t = new_tree();
    let (a, s) = accept(&mut t, "main", None, "echo a");
    end(&mut t, a, s, 0, "a");
    let (b, s) = accept(&mut t, "main", Some(0), "echo b");
    end(&mut t, b, s, 0, "b");
    assert_eq!(t.branch_tip("fork-1"), Some(b));
    // The name matters only where the line forks.
    assert!(submit_drawn(&mut t, "main", Some(0), "echo c", "u", "fork-1").is_none());
    assert_eq!(t.next_id(), 3);
    assert_eq!(t.branch_tip("fork-1"), Some(b));
    assert!(matches!(
        submit_drawn(&mut t, "main", Some(99), "echo c", "u", "fork-1"),
        Some(Submit::Rejected(_))
    ));
    assert!(matches!(
        submit_drawn(&mut t, "main", None, "echo c", "u", "fork-1"),
        Some(Submit::Accepted { id: 3, .. })
    ));
    assert!(matches!(
        submit_drawn(&mut t, "main", Some(0), "echo d", "u", "fork-2"),
        Some(Submit::Accepted { id: 4, .. })
    ));
    assert_eq!(t.branch_tip("fork-2"), Some(4));
}

#[test]
fn a_fork_lands_on_one_new_branch() {
    let mut t = new_tree();
    let (a, s) = accept(&mut t, "main", None, "echo a");
    end(&mut t, a, s, 0, "a");
    let id = match submit(&mut t, "main", Some(0), "echo b", "u").unwrap() {
        Submit::Accepted { id, event: CellEvent::Started { branch, .. }, .. } => {
            assert!(branch.starts_with("fork-"));
            assert_eq!(t.branch_tip(&branch), Some(id));
            id
        }
        r => panic!("{r:?}"),
    };
    assert_eq!(id, 2);
    assert_eq!(t.branch_tip("main"), Some(a));
    assert_eq!(t.branches().len(), 2);
}

#[test]
fn subscribers_may_fall_behind_as_far_as_asked() {
    assert_eq!(event_buffer(Some("8".into())), 8);
    assert_eq!(event_buffer(None), 4096);
    for s in ["", "0", "-1", "many", "99999999999999999999"] {
        assert_eq!(event_buffer(Some(s.into())), 4096);
    }
}

#[test]
fn exit_codes_are_handed_down() {
    let mut t = new_tree();
    let (a, s) = accept(&mut t, "main", None, "false");
    end(&mut t, a, s, 1, "");
    match submit(&mut t, "main", None, "echo $?", "u").unwrap() {
        Submit::Accepted { status, .. } => assert_eq!(status, 1),
        r => panic!("{r:?}"),
    }
}

#[test]
fn fork_names_are_eight_digits() {
    let a = gen_fork_name();
    assert_eq!(a.len(), 13);
    assert!(a.starts_with("fork-"));
    assert!(a[5..].chars().all(|c| c.is_ascii_hexdigit() && !c.is_ascii_uppercase()));
    assert_ne!(a, gen_fork_name());
}

#[test]
fn failed_lines_become_cells_with_code_two() {
    let mut t = new_tree();
    let (id, start) = accept(&mut t, "main", None, "echo $(oops");
    let c = complete(
        &mut t,
        id,
        start,
        Ending::Failed("unterminated $(".into()),
        Transcript::new(),
        1,
    );
    match c.chunk {
        Some(CellEvent::OutputChunk { stream: Stream::Stderr, data, .. }) => {
            assert!(data.contains("unterminated $("))
        }
        e => panic!("{e:?}"),
    }
    let r = t.get(id).unwrap().result.as_ref().unwrap();
    assert_eq!(r.exit_code, 2);
    assert!(String::from_utf8_lossy(&r.stderr).contains("unterminated $("));
}

#[test]
fn killed_and_broken_cells_end_too() {
    let mut t = new_tree();
    let (id, start) = accept(&mut t, "main", None, "sleep 30");
    let c = complete(&mut t, id, start, Ending::Killed, Transcript::new(), 1);
    assert!(c.chunk.is_none());
    let killed = t.get(id).unwrap().result.as_ref().unwrap().exit_code;
    let (id, start) = accept(&mut t, "main", None, "x");
    complete(&mut t, id, start, Ending::Panicked, Transcript::new(), 1);
    let broken = t.get(id).unwrap().result.as_ref().unwrap().exit_code;
    assert_ne!(killed, 0);
    assert_ne!(broken, 0);
    assert_eq!(t.get(id).unwrap().result.as_ref().unwrap().end_state.cwd, "/w");
}

#[test]
fn a_deleted_branch_is_not_brought_back() {
    let mut t = new_tree();
    answer(
        &mut t,
        &Request::CreateBranch { name: "doomed".into(), at: 0 },
    );
    let (id, start) = accept(&mut t, "doomed", None, "sleep 0.5");
    answer(&mut t, &Request::DeleteBranch { name: "doomed".into() });
    let c = end(&mut t, id, start, 0, "");
    assert!(!t.branch_exists("doomed"));
    assert_eq!(c.records.len(), 1);
}

#[test]
fn branch_names_are_checked() {
    assert_eq!(check_name("feature"), None);
    assert!(check_name("").unwrap().contains("can't be empty"));
    assert!(check_name("bad name").unwrap().contains("whitespace"));
    assert!(check_name("fork-abc").unwrap().contains("reserved"));
}

#[test]
fn branch_requests_are_answered() {
    let mut t = new_tree();
    let create = |name: &str, at| Request::CreateBranch { name: name.into(), at };
    assert!(refused(&mut t, create("bad name", 0)).contains("whitespace"));
    assert!(refused(&mut t, create("fork-abc", 0)).contains("reserved"));
    assert!(refused(&mut t, create("x", 999)).contains("no such cell"));
    let a = answer(&mut t, &create("dup", 0)).unwrap();
    assert!(matches!(a.response, Response::Done));
    assert!(matches!(&a.records[0], Record::SetBranch { name, tip: 0 } if name == "dup"));
    assert!(refused(&mut t, create("dup", 0)).contains("already exists"));
    let delete = |name: &str| Request::DeleteBranch { name: name.into() };
    assert!(refused(&mut t, delete("main")).contains("refusing"));
    assert!(refused(&mut t, delete("missing")).contains("no such branch"));
    let rename = |from: &str, to: &str| Request::RenameBranch { from: from.into(), to: to.into() };
    assert!(refused(&mut t, rename("missing", "x")).contains("no such branch"));
    assert!(refused(&mut t, rename("dup", "main")).contains("already exists"));
    assert!(refused(&mut t, rename("main", "trunk")).contains("refusing to rename the default branch 'main'"));
    assert_eq!(t.branch_tip("main"), Some(0));
    let a = answer(&mut t, &rename("dup", "renamed")).unwrap();
    assert!(matches!(&a.records[0], Record::RenameBranch { from, to } if from == "dup" && to == "renamed"));
    let a = answer(&mut t, &delete("renamed")).unwrap();
    assert!(matches!(&a.records[0], Record::DeleteBranch { name } if name == "renamed"));
    assert_eq!(t.branches().len(), 1);
}

#[test]
fn other_branches_and_cells_stay() {
    let mut t = new_tree();
    answer(&mut t, &Request::CreateBranch { name: "side".into(), at: 0 });
    let (a, sa) = accept(&mut t, "main", None, "echo a");
    let (b, sb) = accept(&mut t, "side", None, "echo b");
    assert_eq!(t.branch_tip("main"), Some(a));
    assert_eq!(t.branch_tip("side"), Some(b));
    end(&mut t, a, sa, 0, "a\n");
    assert!(t.get(b).unwrap().result.is_none());
    assert_eq!(t.get(b).unwrap().hash, None);
    end(&mut t, b, sb, 0, "b\n");
    assert!(t.get(a).unwrap().hash.is_some() && t.get(b).unwrap().hash.is_some());
    assert_ne!(t.get(a).unwrap().hash, t.get(b).unwrap().hash);
    assert!(t.branch_exists("main"));
}

#[test]
fn cells_start_where_their_parent_ended() {
    let mut t = new_tree();
    let (a, start) = accept(&mut t, "main", None, "cd /tmp && export A=1");
    let mut state = start.clone();
    state.cwd = "/tmp".into();
    state.set_var("A", "1".into());
    complete(&mut t, a, start, Ending::Evaluated(state, 0), Transcript::new(), 1);
    let (_b, start) = accept(&mut t, "main", None, "pwd");
    assert_eq!(start.cwd, "/tmp");
    assert_eq!(start.var("A"), Some("1".into()));
}

#[test]
fn cells_and_trees_are_shown() {
    let mut t = new_tree();
    let (id, start) = accept(&mut t, "main", None, "echo hi");
    end(&mut t, id, start, 0, "hi\n");
    match answer(&mut t, &Request::GetCell { id: 1 }).unwrap().response {
        Response::Cell(c) => {
            assert_eq!(c.source, "echo hi");
            assert_eq!(c.stdout, "hi\n");
            assert_eq!(c.exit_code, Some(0));
        }
        r => panic!("{r:?}"),
    }
    assert!(refused(&mut t, Request::GetCell { id: 999 }).contains("no such cell"));
    assert!(refused(&mut t, Request::Input { id: 0, data: "x".into() }).contains("outside Attach"));
    match answer(&mut t, &Request::GetTree).unwrap().response {
        Response::Tree(s) => {
            assert_eq!(s.cells.len(), 2);
            assert_eq!(s.cells[0].id, 0);
            assert_eq!(s.cells[1].parent, Some(0));
        }
        r => panic!("{r:?}"),
    }
    match answer(&mut t, &Request::ListBranches).unwrap().response {
        Response::Branches { branches } => {
            assert_eq!(branches.len(), 1);
            assert_eq!(branches[0].tip, 1);
            assert!(!branches[0].running);
            assert!(!branches[0].tty);
        }
        r => panic!("{r:?}"),
    }
    assert!(answer(&mut t, &Request::Subscribe).is_none());
}

#[test]
fn branches_say_what_their_tip_does() {
    let mut t = new_tree();
    let (id, start) = accept(&mut t, "main", None, "export FERN_IO=tty");
    assert!(snapshot_branches(&t)[0].running);
    assert_eq!(snapshot_branches(&t)[0].tip_hash, None);
    let mut state = start.clone();
    state.set_var("FERN_IO", "tty".into());
    complete(&mut t, id, start, Ending::Evaluated(state, 0), Transcript::new(), 1);
    let b = &snapshot_branches(&t)[0];
    assert!(b.tty && !b.running);
    assert_eq!(b.tip_hash, t.get(id).unwrap().hash);
}

#[test]
fn snapshots_are_in_order() {
    let mut t = new_tree();
    for parent in [0, 1, 0, 2] {
        let (id, s) = accept(&mut t, "main", Some(parent), "x");
        end(&mut t, id, s, 0, "");
        t.delete_branch("fork-1");
    }
    let ids: Vec<CellId> = snapshot_tree(&t).cells.iter().map(|c| c.id).collect();
    assert_eq!(ids, vec![0, 1, 2, 3, 4]);
}

#[test]
fn output_that_is_no_text_is_made_text() {
    let mut t = new_tree();
    let id = t
        .submit(
            0,
            "u".into(),
            "x".into(),
            Ok((
                st(),
                fern::tree::Output { exit_code: 0, stdout: vec![b'a', 0xff, b'b'], stderr: vec![] },
            )),
            1,
        )
        .unwrap();
    assert_eq!(snapshot_cell(t.get(id).unwrap()).stdout, "a\u{fffd}b");
    match chunk(7, Stream::Stdout, &[0xc3, 0x28]) {
        CellEvent::OutputChunk { id: 7, data, .. } => assert_eq!(data, "\u{fffd}("),
        e => panic!("{e:?}"),
    }
}

#[test]
fn lines_are_jobs() {
    let mut t = new_tree();
    assert!(matches!(handle_line(&mut t, "", Err("x".into())), Job::Skip));
    match handle_line(&mut t, "this is not json", Err("expected value".into())) {
        Job::Reply(a) => assert_eq!(error_of(a.response), "bad request: expected value"),
        j => panic!("{j:?}"),
    }
    assert!(matches!(handle_line(&mut t, "{}", Ok(Request::Subscribe)), Job::Subscribe));
    assert!(matches!(handle_line(&mut t, "{}", Ok(Request::Kill { id: 4 })), Job::Kill(4)));
    assert!(matches!(handle_line(&mut t, "{}", Ok(Request::Attach { id: 4 })), Job::Attach(4)));
    assert!(matches!(
        handle_line(&mut t, "{}", Ok(Request::Resize { id: 1, rows: 2, cols: 3 })),
        Job::Resize { id: 1, rows: 2, cols: 3 }
    ));
    assert!(matches!(handle_line(&mut t, "{}", Ok(Request::GetTree)), Job::Reply(_)));
    assert_eq!(error_of(bad_request("why")), "bad request: why");
}

#[test]
fn running_cells_are_reached() {
    let pipe = || Some(Active { tty: false, pty: false });
    let early = || Some(Active { tty: true, pty: false });
    let live = || Some(Active { tty: true, pty: true });
    match handle_kill(9, None) {
        Kill::Refused(r) => assert_eq!(error_of(r), "cell #9 is not running"),
        k => panic!("{k:?}"),
    }
    assert!(matches!(handle_kill(9, pipe()), Kill::Abort));
    assert!(matches!(handle_kill(9, live()), Kill::Terminal));
    assert!(handle_resize(9, live()).is_none());
    assert!(error_of(handle_resize(9, pipe()).unwrap()).contains("not a terminal"));
    assert!(error_of(handle_resize(9, early()).unwrap()).contains("no terminal yet"));
    assert!(error_of(handle_resize(9, None).unwrap()).contains("not running"));
    assert!(matches!(handle_attach(9, live(), false, false), Attach::Connect));
    assert!(matches!(handle_attach(9, early(), false, false), Attach::Wait));
    match handle_attach(9, early(), true, false) {
        Attach::Refused(r) => assert!(error_of(r).contains("no attachable terminal process")),
        a => panic!("{a:?}"),
    }
    assert!(matches!(handle_attach(9, pipe(), false, false), Attach::Refused(_)));
    assert!(matches!(handle_attach(9, None, false, false), Attach::Refused(_)));
}

#[test]
fn an_attached_client_hears_its_cell() {
    let out = |id| {
        Incoming::Event(CellEvent::OutputChunk { id, stream: Stream::Stdout, data: "x".into() })
    };
    assert!(matches!(relay(2, out(2)), Relay::Send(Response::Event(_), false)));
    assert!(matches!(relay(2, out(3)), Relay::Nothing));
    let over = CellEvent::Completed { id: 2, exit_code: 0, duration_ms: 1, hash: None };
    assert!(matches!(relay(2, Incoming::Event(over)), Relay::Send(_, true)));
    let input = |id| Incoming::Asked(Request::Input { id, data: "hi\n".into() });
    assert!(matches!(relay(2, input(2)), Relay::Write(d) if d == "hi\n"));
    assert!(matches!(relay(2, input(999)), Relay::Nothing));
    assert!(matches!(relay(2, Incoming::Asked(Request::GetTree)), Relay::Nothing));
    assert!(matches!(relay(2, Incoming::Junk), Relay::Nothing));
    assert!(matches!(relay(2, Incoming::Lagged), Relay::Nothing));
    assert!(matches!(relay(2, Incoming::Closed), Relay::End));
}

#[test]
fn small_rules() {
    assert_eq!(socket_path(Some("/run".into())), "/run/fern.sock");
    assert_eq!(socket_path(None), "/tmp/fern.sock");
    assert_eq!(exit_code(Some(3)), 3);
    assert_eq!(exit_code(None), -1);
    assert!(builtin("cd") && builtin("export") && builtin("unset") && !builtin("ls"));
    assert!(!tty_mode(&st()));
    assert_eq!(open_error(RedirOp::In, "x", "gone"), "< x: gone");
    assert_eq!(open_error(RedirOp::Out, "x", "gone"), "> x: gone");
    assert_eq!(open_error(RedirOp::Append, "x", "gone"), ">> x: gone");
    assert_eq!(spawn_error("nope", "gone"), "spawn nope: gone");
}
