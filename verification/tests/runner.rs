use infomaniak_mail_exporter::mail::MailMeta;
use infomaniak_mail_exporter::runner::{
    batches, complete_fetches, select_folders, selectable_folders, sorted_listing, uid_set,
    ExportConfig, ExportEvent, ExportRun, FolderListing, RunAction, RunInput,
};
use infomaniak_mail_exporter::state::ExportState;
use infomaniak_mail_exporter::index::IndexWriter;

fn names(v: &[&str]) -> Vec<String> {
    v.iter().map(|s| s.to_string()).collect()
}

fn config(folders: &[&str], limit: usize, batch_size: usize) -> ExportConfig {
    ExportConfig {
        email: "vous@domaine.ch".to_string(),
        password: "secret".to_string(),
        output: "./export".to_string(),
        server: "mail.infomaniak.com".to_string(),
        port: 993,
        folders: names(folders),
        limit,
        batch_size,
    }
}

fn meta(subject: &str, eml: &str) -> MailMeta {
    MailMeta {
        date: "2023-05-01".to_string(),
        from: "a@b.c".to_string(),
        to: "d@e.f".to_string(),
        subject: subject.to_string(),
        attachment_count: 0,
        eml_relative: eml.to_string(),
    }
}

#[test]
fn folder_selection() {
    let all = names(&["INBOX", "Sent", "Archives/2022"]);
    assert_eq!(select_folders(all.clone(), &vec![]), all);
    assert_eq!(select_folders(all.clone(), &names(&["Sent", "Nope", "INBOX"])), names(&["INBOX", "Sent"]));
    assert_eq!(select_folders(all, &names(&["Nope"])), Vec::<String>::new());
}

#[test]
fn noselect_folders_are_left_out() {
    let listed = vec![("INBOX".to_string(), false), ("[Gmail]".to_string(), true), ("Sent".to_string(), false)];
    assert_eq!(selectable_folders(listed), names(&["INBOX", "Sent"]));
}

#[test]
fn batching_and_uid_sets() {
    let uids = vec![1, 2, 3, 4, 5];
    assert_eq!(batches(&uids, 2), vec![vec![1, 2], vec![3, 4], vec![5]]);
    assert_eq!(batches(&uids, 0), vec![vec![1], vec![2], vec![3], vec![4], vec![5]]);
    assert_eq!(batches(&uids, 50), vec![vec![1, 2, 3, 4, 5]]);
    assert_eq!(batches(&vec![], 3), Vec::<Vec<u32>>::new());
    assert_eq!(uid_set(&vec![1, 20, 300]), "1,20,300");
    assert_eq!(uid_set(&vec![7]), "7");
    assert_eq!(uid_set(&vec![]), "");
}

#[test]
fn listings_are_sorted() {
    let l = sorted_listing(Some(3), vec![9, 1, 5, 1, 0]);
    assert_eq!(l.uids, vec![0, 1, 1, 5, 9]);
    assert_eq!(l.uid_validity, Some(3));
}

#[test]
fn fetches_without_uid_or_body_are_dropped() {
    let f = vec![(Some(1), Some(vec![1u8])), (None, Some(vec![2u8])), (Some(3), None), (Some(4), Some(vec![]))];
    assert_eq!(complete_fetches(f), vec![(1, vec![1u8]), (4, vec![])]);
}

#[test]
fn planning_skips_exported_and_applies_the_limit() {
    let mut state = ExportState::new();
    state.folder_mut("INBOX", Some(1)).record(2);
    let listing = FolderListing { uid_validity: Some(1), uids: vec![1, 2, 3, 4] };
    let plan = state.plan_folder("INBOX", &listing, 0);
    assert_eq!(plan.to_fetch, vec![1, 3, 4]);
    assert_eq!(plan.already, 1);
    let plan = state.plan_folder("INBOX", &listing, 2);
    assert_eq!(plan.to_fetch, vec![1, 3]);
    assert_eq!(plan.already, 2);
    // New UIDVALIDITY: everything is pending again.
    let listing2 = FolderListing { uid_validity: Some(2), uids: vec![1, 2] };
    let plan = state.plan_folder("INBOX", &listing2, 0);
    assert_eq!(plan.to_fetch, vec![1, 2]);
    assert_eq!(plan.already, 0);
}

fn expect_emit(action: RunAction) -> ExportEvent {
    match action {
        RunAction::Emit(e) => e,
        other => panic!("expected an event, got {:?}", other),
    }
}

#[test]
fn a_whole_run_resumes_and_counts() {
    let mut state = ExportState::new();
    state.folder_mut("INBOX", Some(7)).record(10);
    let mut run = ExportRun::new(names(&["INBOX", "Sent"]), &config(&[], 0, 2), state);
    match expect_emit(run.step(RunInput::Proceed, false)) {
        ExportEvent::FoldersListed { count } => assert_eq!(count, 2),
        e => panic!("{:?}", e),
    }
    match run.step(RunInput::Proceed, false) {
        RunAction::Examine { folder } => assert_eq!(folder, "INBOX"),
        a => panic!("{:?}", a),
    }
    let listing = FolderListing { uid_validity: Some(7), uids: vec![10, 11, 12, 13] };
    match expect_emit(run.step(RunInput::Examined(listing), false)) {
        ExportEvent::FolderStarted { name, total, already } => {
            assert_eq!(name, "INBOX");
            assert_eq!(total, 3);
            assert_eq!(already, 1);
        }
        e => panic!("{:?}", e),
    }
    match run.step(RunInput::Proceed, false) {
        RunAction::Fetch { folder, uids } => {
            assert_eq!(folder, "INBOX");
            assert_eq!(uids, vec![11, 12]);
        }
        a => panic!("{:?}", a),
    }
    match run.step(RunInput::Fetched(vec![(11, b"one".to_vec()), (12, b"two".to_vec())]), false) {
        RunAction::Write { folder, uid, seq, raw } => {
            assert_eq!((folder.as_str(), uid, seq, raw.as_slice()), ("INBOX", 11, 2, &b"one"[..]));
        }
        a => panic!("{:?}", a),
    }
    match expect_emit(run.step(RunInput::Written(meta("Un", "0002_x.eml")), false)) {
        ExportEvent::Mail { folder, subject } => assert_eq!((folder.as_str(), subject.as_str()), ("INBOX", "Un")),
        e => panic!("{:?}", e),
    }
    match run.step(RunInput::Proceed, false) {
        RunAction::Write { uid, seq, .. } => assert_eq!((uid, seq), (12, 3)),
        a => panic!("{:?}", a),
    }
    expect_emit(run.step(RunInput::Written(meta("Deux", "0003_x.eml")), false));
    assert!(matches!(run.step(RunInput::Proceed, false), RunAction::SaveState));
    assert!(run.state().folder("INBOX").unwrap().is_exported(12));
    // Cancelling before the next batch finishes the run.
    match run.step(RunInput::Proceed, true) {
        RunAction::Finish { total } => assert_eq!(total, 2),
        a => panic!("{:?}", a),
    }
    // The run is over: further reports are refused.
    assert!(matches!(run.step(RunInput::Proceed, false), RunAction::Fail { .. }));
    let (state, index) = run.into_parts();
    assert_eq!(state.folder("INBOX").unwrap().next_seq, 3);
    let records = index.into_records();
    assert_eq!(records.len(), 3);
    assert_eq!(records[1][0], "INBOX");
    assert_eq!(records[1][1], "11");
    assert_eq!(records[1][7], "INBOX/0002_x.eml");
}

#[test]
fn skipped_and_empty_folders() {
    let mut run = ExportRun::new(names(&["A", "B", "C"]), &config(&["A", "B"], 0, 50), ExportState::new());
    expect_emit(run.step(RunInput::Proceed, false));
    assert!(matches!(run.step(RunInput::Proceed, false), RunAction::Examine { .. }));
    match expect_emit(run.step(RunInput::ExamineFailed("NO such mailbox".to_string()), false)) {
        ExportEvent::FolderSkipped { name, reason } => assert_eq!((name.as_str(), reason.as_str()), ("A", "NO such mailbox")),
        e => panic!("{:?}", e),
    }
    match run.step(RunInput::Proceed, false) {
        RunAction::Examine { folder } => assert_eq!(folder, "B"),
        a => panic!("{:?}", a),
    }
    match expect_emit(run.step(RunInput::Examined(FolderListing { uid_validity: None, uids: vec![] }), false)) {
        ExportEvent::FolderStarted { total, already, .. } => assert_eq!((total, already), (0, 0)),
        e => panic!("{:?}", e),
    }
    match expect_emit(run.step(RunInput::Proceed, false)) {
        ExportEvent::FolderDone { name } => assert_eq!(name, "B"),
        e => panic!("{:?}", e),
    }
    match run.step(RunInput::Proceed, false) {
        RunAction::Finish { total } => assert_eq!(total, 0),
        a => panic!("{:?}", a),
    }
}

#[test]
fn unexpected_reports_change_nothing() {
    let mut run = ExportRun::new(names(&["A"]), &config(&[], 0, 50), ExportState::new());
    assert!(matches!(run.step(RunInput::Fetched(vec![]), false), RunAction::Fail { .. }));
    expect_emit(run.step(RunInput::Proceed, false));
    // Cancelling before the first folder finishes at once.
    assert!(matches!(run.step(RunInput::Proceed, true), RunAction::Finish { total: 0 }));
}

#[test]
fn a_new_uidvalidity_fetches_the_whole_folder_again() {
    let mut state = ExportState::new();
    state.folder_mut("INBOX", Some(7)).record(10);
    let mut run = ExportRun::new(names(&["INBOX"]), &config(&[], 0, 50), state);
    expect_emit(run.step(RunInput::Proceed, false));
    assert!(matches!(run.step(RunInput::Proceed, false), RunAction::Examine { .. }));
    let listing = FolderListing { uid_validity: Some(8), uids: vec![10, 11] };
    match expect_emit(run.step(RunInput::Examined(listing), false)) {
        ExportEvent::FolderStarted { total, already, .. } => assert_eq!((total, already), (2, 0)),
        e => panic!("{:?}", e),
    }
    match run.step(RunInput::Proceed, false) {
        RunAction::Fetch { uids, .. } => assert_eq!(uids, vec![10, 11]),
        a => panic!("{:?}", a),
    }
    match run.step(RunInput::Fetched(vec![(10, vec![])]), false) {
        RunAction::Write { uid, seq, .. } => assert_eq!((uid, seq), (10, 1)),
        a => panic!("{:?}", a),
    }
}

fn row(folder: &str, uid: u32) -> infomaniak_mail_exporter::index::Row {
    infomaniak_mail_exporter::index::Row {
        folder: folder.to_string(),
        uid,
        date: "2023-01-01".to_string(),
        from: String::new(),
        to: String::new(),
        subject: format!("s{uid}"),
        attachments: 0,
        file: format!("{folder}/{uid}.eml"),
    }
}

#[test]
fn a_resumed_run_keeps_the_earlier_index_rows() {
    let mut state = ExportState::new();
    state.folder_mut("INBOX", Some(7)).record(10);
    state.folder_mut("Sent", Some(3)).record(1);
    // Row 99 is no longer recorded in the state: it is dropped.
    let previous = IndexWriter::from_rows(vec![row("INBOX", 10), row("INBOX", 99), row("Sent", 1)]);
    let mut run = ExportRun::resume(names(&["INBOX", "Sent"]), &config(&[], 0, 50), state, previous);
    expect_emit(run.step(RunInput::Proceed, false));
    assert!(matches!(run.step(RunInput::Proceed, false), RunAction::Examine { .. }));
    let listing = FolderListing { uid_validity: Some(7), uids: vec![10, 11] };
    expect_emit(run.step(RunInput::Examined(listing), false));
    assert!(matches!(run.step(RunInput::Proceed, false), RunAction::Fetch { .. }));
    assert!(matches!(run.step(RunInput::Fetched(vec![(11, vec![])]), false), RunAction::Write { .. }));
    expect_emit(run.step(RunInput::Written(meta("New", "0002_new.eml")), false));
    assert!(matches!(run.step(RunInput::Proceed, false), RunAction::SaveState));
    expect_emit(run.step(RunInput::Proceed, false)); // INBOX done
    assert!(matches!(run.step(RunInput::Proceed, false), RunAction::Examine { .. }));
    // Sent changed its UIDVALIDITY: its earlier row goes with its exported UIDs.
    let listing = FolderListing { uid_validity: Some(4), uids: vec![] };
    expect_emit(run.step(RunInput::Examined(listing), false));
    expect_emit(run.step(RunInput::Proceed, false));
    match run.step(RunInput::Proceed, false) {
        RunAction::Finish { total } => assert_eq!(total, 1),
        a => panic!("{:?}", a),
    }
    let (_, index) = run.into_parts();
    let records = index.into_records();
    let uids: Vec<(String, String)> = records[1..].iter().map(|r| (r[0].clone(), r[1].clone())).collect();
    assert_eq!(uids, vec![("INBOX".to_string(), "10".to_string()), ("INBOX".to_string(), "11".to_string())]);
}

#[test]
fn an_unchanged_folder_is_not_fetched_again() {
    let mut state = ExportState::new();
    state.folder_mut("INBOX", Some(7)).record(10);
    state.folder_mut("INBOX", Some(7)).record(11);
    let mut run = ExportRun::new(names(&["INBOX"]), &config(&[], 0, 50), state);
    expect_emit(run.step(RunInput::Proceed, false));
    assert!(matches!(run.step(RunInput::Proceed, false), RunAction::Examine { .. }));
    let listing = FolderListing { uid_validity: Some(7), uids: vec![10, 11] };
    match expect_emit(run.step(RunInput::Examined(listing), false)) {
        ExportEvent::FolderStarted { total, already, .. } => assert_eq!((total, already), (0, 2)),
        e => panic!("{:?}", e),
    }
    assert!(matches!(expect_emit(run.step(RunInput::Proceed, false)), ExportEvent::FolderDone { .. }));
    assert!(matches!(run.step(RunInput::Proceed, false), RunAction::Finish { total: 0 }));
}
