use fern::hash::{hash_cell, hash_root, to_hex};
use fern::persist::restore;
use fern::store::{
    bad_line, default_path_from, log_lines, record_of, replay, replay_logged, Record,
};
use fern::tree::{
    Cell, CellId, CellResult, Output, State, SubmitError, SystemInfo, Tree, DEFAULT_BRANCH,
};
use sha2::{Digest, Sha256};

fn sys() -> SystemInfo {
    SystemInfo {
        os: "linux".into(),
        arch: "x86_64".into(),
        hostname: "test-host".into(),
        fern_version: "0.0.0-test".into(),
    }
}

fn st() -> State {
    State::baseline("/w".into(), Some("/bin".into()), None, None, None, None)
}

fn record(id: CellId, parent: CellId, source: &str, hash: &str) -> Record {
    Record::Cell {
        id,
        parent,
        submitter: "t".into(),
        source: source.into(),
        exit_code: 0,
        stdout: String::new(),
        stderr: String::new(),
        duration_ms: 1,
        end_state: st(),
        hash: hash.into(),
    }
}

fn root() -> Record {
    Record::Root {
        state: st(),
        sysinfo: sys(),
    }
}

fn finished_tree() -> (Tree, CellId) {
    let mut tree = Tree::new(st(), sys());
    let id = tree.reserve_id();
    tree.insert_cell(
        0,
        Cell {
            id,
            parent: Some(0),
            submitter: "test".into(),
            source: "echo hi".into(),
            hash: None,
            result: None,
        },
    );
    tree.set_cell_result(
        id,
        CellResult {
            exit_code: 0,
            stdout: b"hi\n".to_vec(),
            stderr: vec![],
            duration_ms: 5,
            end_state: st(),
        },
    );
    (tree, id)
}

#[test]
fn round_trip_preserves_hashes_and_branches() {
    let (mut tree, id) = finished_tree();
    tree.set_branch("feature", id);
    let records = vec![
        root(),
        record_of(tree.get(id).unwrap()).unwrap(),
        Record::SetBranch {
            name: "feature".into(),
            tip: id,
        },
    ];
    let mut restored = replay(&records).unwrap();
    // The replayed cell recomputes to the identical content hash.
    assert_eq!(restored.get(id).unwrap().hash, tree.get(id).unwrap().hash);
    assert_eq!(restored.branch_tip("feature"), Some(id));
    assert_eq!(restored.branch_tip(DEFAULT_BRANCH), Some(0));
    // The next number is past the restored cell.
    assert_eq!(restored.reserve_id(), id + 1);
}

#[test]
fn numbers_are_given_out_in_order() {
    let mut t = Tree::new(st(), sys());
    assert_eq!(t.reserve_id(), 1);
    assert!(t.get(1).is_none());
    t.set_branch("b", 0);
    assert_eq!(t.reserve_id(), 2);
    let cell = Cell {
        id: 2,
        parent: Some(0),
        submitter: "t".into(),
        source: "x".into(),
        hash: None,
        result: None,
    };
    t.insert_cell(0, cell);
    t.rename_branch("b", "c");
    t.delete_branch("c");
    assert_eq!(t.reserve_id(), 3);
    assert!(t.get(1).is_none());
    assert!(t.get(2).is_some());
}

#[test]
fn a_written_tree_comes_back() {
    let mut t = Tree::new(st(), sys());
    for (parent, source) in [(0, "a"), (1, "b"), (0, "c"), (2, "d")] {
        let outcome = Ok((
            st(),
            Output {
                exit_code: 3,
                stdout: source.as_bytes().to_vec(),
                stderr: vec![],
            },
        ));
        t.submit(parent, "u".into(), source.into(), outcome, 1).unwrap();
    }
    t.set_branch(DEFAULT_BRANCH, 4);
    t.set_branch("side", 3);
    let mut log = vec![root()];
    for id in 1..=4 {
        log.push(record_of(t.get(id).unwrap()).unwrap());
    }
    for (name, tip) in [("side", 3), (DEFAULT_BRANCH, 4)] {
        log.push(Record::SetBranch { name: name.into(), tip });
    }
    let mut back = replay(&log).unwrap();
    for id in 0..=4 {
        let (a, b) = (t.get(id).unwrap(), back.get(id).unwrap());
        assert_eq!(a.parent, b.parent);
        assert_eq!(a.source, b.source);
        assert_eq!(a.submitter, b.submitter);
        assert_eq!(a.hash, b.hash);
        let (r, s) = (a.result.as_ref().unwrap(), b.result.as_ref().unwrap());
        assert_eq!((r.exit_code, &r.stdout, &r.stderr), (s.exit_code, &s.stdout, &s.stderr));
        assert_eq!(r.end_state.cwd, s.end_state.cwd);
        assert_eq!(r.end_state.env.entries(), s.end_state.env.entries());
    }
    assert!(back.get(5).is_none());
    assert_eq!(back.branch_tip("side"), Some(3));
    assert_eq!(back.branch_tip(DEFAULT_BRANCH), Some(4));
    assert_eq!(back.branches().len(), 2);
    assert_eq!(back.reserve_id(), 5);
}

#[test]
fn dangling_branch_and_orphan_cell_are_skipped() {
    let records = vec![
        root(),
        // The parent never finished.
        record(6, 5, "echo orphan", "deadbeef"),
        Record::SetBranch {
            name: "ghost".into(),
            tip: 99,
        },
    ];
    let tree = replay(&records).unwrap();
    assert!(tree.get(6).is_none());
    assert!(!tree.branch_exists("ghost"));
    assert_eq!(tree.branch_tip(DEFAULT_BRANCH), Some(0));
}

#[test]
fn empty_store_replays_to_none() {
    assert!(replay(&[]).is_none());
}

#[test]
fn default_path_resolution_order() {
    assert_eq!(
        default_path_from(Some("/xdg".into()), Some("/home/u".into())),
        "/xdg/fern/tree.jsonl"
    );
    assert_eq!(
        default_path_from(None, Some("/home/u".into())),
        "/home/u/.local/share/fern/tree.jsonl"
    );
    assert_eq!(default_path_from(None, None), "/tmp/fern/tree.jsonl");
    // Whatever the environment holds, the path has the same shape.
    assert!(default_path_from(Some("".into()), None).ends_with("fern/tree.jsonl"));
}

#[test]
fn replay_applies_branch_ops_and_skips_junk() {
    let records = vec![
        root(),
        record(1, 0, "echo 1", "ignored"),
        record(1, 0, "echo 1", "ignored"),
        Record::SetBranch {
            name: "work".into(),
            tip: 1,
        },
        Record::RenameBranch {
            from: "work".into(),
            to: "renamed".into(),
        },
        Record::SetBranch {
            name: "doomed".into(),
            tip: 1,
        },
        Record::DeleteBranch {
            name: "doomed".into(),
        },
        // A second root in the middle is ignored with a warning.
        root(),
    ];
    let tree = replay(&records).unwrap();
    assert!(tree.get(1).is_some());
    assert_eq!(tree.branch_tip("renamed"), Some(1));
    assert!(!tree.branch_exists("work"));
    assert!(!tree.branch_exists("doomed"));
}

#[test]
fn skipped_records_are_warned_of() {
    let (_tree, warnings) = replay_logged(&[
        root(),
        record(6, 5, "echo orphan", "deadbeef"),
        record(1, 0, "echo 1", "ignored"),
        root(),
    ])
    .unwrap();
    assert_eq!(warnings.len(), 3);
    assert!(warnings[2].contains("unexpected mid-log Root record; ignoring"));
}

#[test]
fn blank_lines_are_no_records() {
    let lines = log_lines("{\"a\":1}\n\n   \n{\"b\":2}\n");
    assert_eq!(
        lines,
        vec![(1, "{\"a\":1}".to_string()), (4, "{\"b\":2}".to_string())]
    );
}

#[test]
fn torn_lines_are_named() {
    let lines = log_lines("{\"kind\":\"root\"}\n{\"kind\":\"cell\",\"id\":1,\"par");
    assert_eq!(lines.len(), 2);
    assert_eq!(lines[1].0, 2);
    assert!(bad_line(2, "EOF").contains("2"));
    assert!(bad_line(2, "EOF").contains("EOF"));
}

#[test]
fn the_tree_survives_a_restart() {
    let first = restore(&[], st(), sys());
    assert_eq!(first.records.len(), 1);
    assert!(first.warnings.is_empty());
    let (tree, id) = finished_tree();
    let log = vec![
        root(),
        record_of(tree.get(id).unwrap()).unwrap(),
        Record::SetBranch {
            name: "main".into(),
            tip: id,
        },
    ];
    let again = restore(&log, State::default(), sys());
    assert!(again.records.is_empty());
    assert!(again.warnings.is_empty());
    assert_eq!(again.tree.branch_tip("main"), Some(id));
    assert_eq!(again.tree.get(id).unwrap().hash, tree.get(id).unwrap().hash);
    assert_eq!(again.tree.get(0).unwrap().hash, first.tree.get(0).unwrap().hash);
}

#[test]
fn logged_hashes_are_verified() {
    let (tree, id) = finished_tree();
    let good = record_of(tree.get(id).unwrap()).unwrap();
    let (_t, warnings) = replay_logged(&[root(), good]).unwrap();
    assert!(warnings.is_empty());
    let mut changed = record_of(tree.get(id).unwrap()).unwrap();
    if let Record::Cell { stdout, .. } = &mut changed {
        stdout.push('x');
    }
    let (t, warnings) = replay_logged(&[root(), changed]).unwrap();
    assert_eq!(warnings.len(), 1);
    assert!(warnings[0].contains("hash mismatch"));
    assert_ne!(t.get(id).unwrap().hash, tree.get(id).unwrap().hash);
}

#[test]
fn a_log_needs_its_root_first() {
    assert!(replay(&[record(1, 0, "echo 1", "x"), root()]).is_none());
    let t = replay(&[root(), record(0, 0, "echo 0", "x")]).unwrap();
    assert_eq!(t.get(0).unwrap().hash, Some(hash_root(&sys(), &st())));
}

#[test]
fn running_cells_have_no_record() {
    let mut tree = Tree::new(st(), sys());
    let id = tree.reserve_id();
    tree.insert_cell(
        0,
        Cell {
            id,
            parent: Some(0),
            submitter: "t".into(),
            source: "sleep".into(),
            hash: None,
            result: None,
        },
    );
    assert!(record_of(tree.get(id).unwrap()).is_none());
    assert!(record_of(tree.get(0).unwrap()).is_none());
    assert_eq!(tree.get(id).unwrap().hash, None);
}

// ---------- Branches ------------------------------------------------------------

#[test]
fn tree_seeds_default_branch_at_root() {
    let t = Tree::new(st(), sys());
    assert_eq!(t.branch_tip(DEFAULT_BRANCH), Some(0));
    assert!(t.branch_exists(DEFAULT_BRANCH));
}

#[test]
fn set_and_move_branch() {
    let mut t = Tree::new(st(), sys());
    t.set_branch("feature", 0);
    assert_eq!(t.branch_tip("feature"), Some(0));
    t.set_branch("feature", 5); // move it
    assert_eq!(t.branch_tip("feature"), Some(5));
}

#[test]
fn delete_branch_removes_it() {
    let mut t = Tree::new(st(), sys());
    t.set_branch("tmp", 0);
    assert!(t.delete_branch("tmp"));
    assert!(!t.branch_exists("tmp"));
    assert!(!t.delete_branch("tmp")); // already gone
}

#[test]
fn rename_branch_preserves_tip_and_guards() {
    let mut t = Tree::new(st(), sys());
    t.set_branch("old", 3);
    assert!(t.rename_branch("old", "new"));
    assert_eq!(t.branch_tip("new"), Some(3));
    assert!(!t.branch_exists("old"));
    // A missing branch cannot be renamed, nor one onto another.
    assert!(!t.rename_branch("missing", "x"));
    t.set_branch("a", 1);
    t.set_branch("b", 2);
    assert!(!t.rename_branch("a", "b"));
}

#[test]
fn branches_are_listed_by_name() {
    let mut t = Tree::new(st(), sys());
    t.set_branch("zeta", 1);
    t.set_branch("alpha", 2);
    t.set_branch("Beta", 3);
    let names: Vec<&str> = t.branches().iter().map(|b| b.0.as_str()).collect();
    assert_eq!(names, vec!["Beta", "alpha", "main", "zeta"]);
}

#[test]
fn children_follow_their_parent() {
    let (mut tree, id) = finished_tree();
    assert_eq!(tree.children_of(0), &[id]);
    assert!(tree.children_of(99).is_empty());
    assert_eq!(tree.next_id(), id + 1);
    assert_eq!(tree.reserve_id(), id + 1);
    assert_eq!(tree.next_id(), id + 2);
}

#[test]
fn submitting_needs_a_finished_parent() {
    let mut t = Tree::new(st(), sys());
    let id = t.reserve_id();
    t.insert_cell(
        0,
        Cell {
            id,
            parent: Some(0),
            submitter: "t".into(),
            source: "sleep".into(),
            hash: None,
            result: None,
        },
    );
    assert!(matches!(t.start_state(99), Err(SubmitError::NoParent(99))));
    assert!(matches!(t.start_state(id), Err(SubmitError::Running(i)) if i == id));
}

// ---------- Hashes --------------------------------------------------------------

fn text(out: &mut Vec<u8>, s: &[u8]) {
    out.extend((s.len() as u64).to_le_bytes());
    out.extend(s);
}

fn state(out: &mut Vec<u8>, cwd: &str, vars: &[(&str, &str)]) {
    text(out, cwd.as_bytes());
    out.extend((vars.len() as u64).to_le_bytes());
    for (k, v) in vars {
        text(out, k.as_bytes());
        text(out, v.as_bytes());
    }
}

fn sha(b: &[u8]) -> String {
    Sha256::digest(b).iter().map(|x| format!("{x:02x}")).collect()
}

#[test]
fn root_hash_covers_machine_and_state() {
    let mut b = b"FERN_ROOT_V1\0".to_vec();
    for s in ["linux", "x86_64", "test-host", "0.0.0-test"] {
        text(&mut b, s.as_bytes());
    }
    state(&mut b, "/w", &[("PATH", "/bin"), ("PWD", "/w")]);
    assert_eq!(hash_root(&sys(), &st()), sha(&b));
    let t = Tree::new(st(), sys());
    assert_eq!(t.get(0).unwrap().hash, Some(sha(&b)));
}

#[test]
fn cell_hash_covers_parent_recipe_and_result() {
    let (tree, id) = finished_tree();
    let mut b = b"FERN_CELL_V1\0".to_vec();
    text(&mut b, tree.get(0).unwrap().hash.as_ref().unwrap().as_bytes());
    text(&mut b, b"echo hi");
    text(&mut b, b"test");
    text(&mut b, b"hi\n");
    text(&mut b, b"");
    b.extend(0i32.to_le_bytes());
    state(&mut b, "/w", &[("PATH", "/bin"), ("PWD", "/w")]);
    assert_eq!(tree.get(id).unwrap().hash, Some(sha(&b)));
    assert_eq!(
        hash_cell(tree.get(id).unwrap(), &tree.get(0).unwrap().hash),
        sha(&b)
    );
}

#[test]
fn hex_has_two_digits_a_byte() {
    assert_eq!(to_hex(&[0x00, 0x0f, 0xa5, 0xff]), "000fa5ff");
    assert_eq!(to_hex(&[]), "");
}

// ---------- Values of the machine -------------------------------------------------

#[test]
fn baseline_keeps_what_is_set() {
    let s = State::baseline(
        "/w".into(),
        None,
        Some("/home/u".into()),
        Some("u".into()),
        None,
        Some("xterm".into()),
    );
    assert_eq!(s.cwd, "/w");
    assert_eq!(s.var("PWD"), Some("/w".into()));
    assert_eq!(s.var("HOME"), Some("/home/u".into()));
    assert_eq!(s.var("TERM"), Some("xterm".into()));
    assert_eq!(s.var("PATH"), None);
}

#[test]
fn variables_are_set_and_unset() {
    let mut s = st();
    s.set_var("A", "1".into());
    s.set_var("A", "2".into());
    assert_eq!(s.var("A"), Some("2".into()));
    s.unset_var("A");
    assert_eq!(s.var("A"), None);
}

#[test]
fn the_machine_is_named_by_file_or_variable() {
    let info = |file: Option<&str>, var: Option<&str>| {
        SystemInfo::collect(
            "linux".into(),
            "x86_64".into(),
            file.map(String::from),
            var.map(String::from),
            "1".into(),
        )
        .hostname
    };
    assert_eq!(info(Some("box\n"), Some("other")), "box");
    assert_eq!(info(None, Some("other")), "other");
    assert_eq!(info(None, None), "unknown");
}
