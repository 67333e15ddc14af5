use infomaniak_mail_exporter::state::{ExportState, FolderState};

/// A copy of the state through its entries, as saving and loading it does.
fn reloaded(state: &ExportState) -> ExportState {
    let entries = state
        .entries()
        .iter()
        .map(|(name, f)| {
            (
                name.clone(),
                FolderState {
                    uid_validity: f.uid_validity,
                    exported_uids: f.exported_uids.clone(),
                    next_seq: f.next_seq,
                },
            )
        })
        .collect();
    ExportState::from_entries(entries)
}

#[test]
fn resume_skips_exported_uids() {
    let mut state = ExportState::new();
    {
        let f = state.folder_mut("INBOX", Some(42));
        assert!(!f.is_exported(100));
        let seq = f.record(100);
        assert_eq!(seq, 1);
        assert!(f.is_exported(100));
    }

    // Reloaded: UID 100 stays exported.
    let mut reloaded = reloaded(&state);
    let f = reloaded.folder_mut("INBOX", Some(42));
    assert!(f.is_exported(100));
    assert_eq!(f.next_seq, 1);
    assert_eq!(f.record(101), 2);
}

#[test]
fn uidvalidity_change_resets_folder() {
    let mut state = ExportState::new();
    state.folder_mut("INBOX", Some(1)).record(7);
    assert!(state.folder_mut("INBOX", Some(1)).is_exported(7));
    let f = state.folder_mut("INBOX", Some(2));
    assert!(!f.is_exported(7));
    assert_eq!(f.next_seq, 0);
    assert_eq!(f.uid_validity, Some(2));
}

#[test]
fn folders_are_independent() {
    let mut state = ExportState::new();
    state.folder_mut("INBOX", Some(1)).record(5);
    state.folder_mut("Sent", Some(9)).record(5);
    state.folder_mut("Sent", Some(10));
    assert!(state.folder_mut("INBOX", Some(1)).is_exported(5));
    assert!(!state.folder_mut("Sent", Some(10)).is_exported(5));
    assert_eq!(state.len(), 2);
    assert!(state.folder("Drafts").is_none());
    assert_eq!(state.folder("INBOX").map(|f| f.next_seq), Some(1));
}

#[test]
fn entries_later_name_wins() {
    let mut a = FolderState::new();
    a.record(1);
    let mut b = FolderState::new();
    b.record(2);
    b.record(3);
    let state = ExportState::from_entries(vec![
        ("INBOX".to_string(), a),
        ("Sent".to_string(), FolderState::new()),
        ("INBOX".to_string(), b),
    ]);
    assert_eq!(state.len(), 2);
    let inbox = state.folder("INBOX").unwrap();
    assert_eq!(inbox.next_seq, 2);
    assert!(inbox.is_exported(3));
    assert!(!inbox.is_exported(1));
    assert_eq!(state.entries().len(), 2);
}

#[test]
fn entries_in_any_order_give_the_same_state() {
    let make = |order: &[(&str, u32)]| {
        let entries = order
            .iter()
            .map(|(name, uid)| {
                let mut f = FolderState::new();
                f.record(*uid);
                (name.to_string(), f)
            })
            .collect();
        ExportState::from_entries(entries)
    };
    let a = make(&[("INBOX", 1), ("Sent", 2), ("Archives", 3)]);
    let b = make(&[("Archives", 3), ("INBOX", 1), ("Sent", 2)]);
    for name in ["INBOX", "Sent", "Archives"] {
        let fa = a.folder(name).unwrap();
        let fb = b.folder(name).unwrap();
        assert_eq!(fa.exported_uids, fb.exported_uids);
        assert_eq!(fa.next_seq, fb.next_seq);
        assert_eq!(fa.uid_validity, fb.uid_validity);
    }
    assert_eq!(a.len(), b.len());
}
