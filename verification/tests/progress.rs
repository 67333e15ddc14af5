use infomaniak_mail_exporter::progress::{can_start, form_config, parse_folder_list, Progress, Status, LOG_MAX};
use infomaniak_mail_exporter::runner::ExportEvent;

#[test]
fn the_log_keeps_its_last_lines() {
    let mut p = Progress::new();
    for i in 0..(LOG_MAX + 5) {
        p.push_log(format!("line {i}"));
    }
    assert_eq!(p.log.len(), LOG_MAX);
    assert_eq!(p.log[0], "line 5");
    assert_eq!(p.log[LOG_MAX - 1], format!("line {}", LOG_MAX + 4));
}

#[test]
fn events_update_the_counters_and_the_log() {
    let mut p = Progress::new();
    p.start();
    assert_eq!(p.status, Status::Running);
    p.handle_event(ExportEvent::Connecting { server: "mail.infomaniak.com".to_string(), port: 993 });
    assert_eq!(p.log.last().unwrap(), "Connexion à mail.infomaniak.com:993…");
    p.handle_event(ExportEvent::FoldersListed { count: 3 });
    assert_eq!(p.log.last().unwrap(), "3 dossier(s) à exporter.");
    p.handle_event(ExportEvent::FolderStarted { name: "INBOX".to_string(), total: 2, already: 5 });
    assert_eq!(p.current_folder, "INBOX");
    assert_eq!(p.folder_total, 2);
    assert_eq!(p.folder_done, 0);
    assert_eq!(p.log.last().unwrap(), "→ INBOX : 5 déjà exporté(s), 2 à télécharger");
    p.handle_event(ExportEvent::Mail { folder: "INBOX".to_string(), subject: "Hello".to_string() });
    assert_eq!(p.folder_done, 1);
    assert_eq!(p.exported, 1);
    assert_eq!(p.log.last().unwrap(), "  ✓ Hello");
    p.handle_event(ExportEvent::FolderSkipped { name: "Junk".to_string(), reason: "no".to_string() });
    assert_eq!(p.log.last().unwrap(), "  ! Junk ignoré : no");
    p.handle_event(ExportEvent::FolderDone { name: "INBOX".to_string() });
    assert_eq!(p.log.last().unwrap(), "✓ INBOX terminé");
    p.handle_event(ExportEvent::Finished { total: 1 });
    assert_eq!(p.log.last().unwrap(), "Terminé : 1 mail(s) exporté(s).");
    assert_eq!(p.log.len(), 7);
    assert_eq!(p.exported, 1);
}

#[test]
fn the_end_of_an_export() {
    let mut ok = Progress::new();
    ok.start();
    ok.finish(Ok(4), false);
    assert_eq!(ok.status, Status::Done);
    assert_eq!(ok.exported, 4);
    assert_eq!(ok.result_msg, "4 nouveau(x) mail(s) exporté(s).");

    let mut cancelled = Progress::new();
    cancelled.start();
    cancelled.handle_event(ExportEvent::Mail { folder: "INBOX".to_string(), subject: "s".to_string() });
    cancelled.finish(Err("interrupted".to_string()), true);
    assert_eq!(cancelled.status, Status::Done);
    assert_eq!(cancelled.result_msg, "Export annulé. 1 mail(s) exporté(s).");
    assert_eq!(cancelled.log.len(), 1);

    let mut failed = Progress::new();
    failed.start();
    failed.finish(Err("LOGIN refusé".to_string()), false);
    assert_eq!(failed.status, Status::Error);
    assert_eq!(failed.result_msg, "LOGIN refusé");
    assert_eq!(failed.log.last().unwrap(), "Erreur : LOGIN refusé");
}

#[test]
fn the_form_can_start_only_when_filled() {
    assert!(can_start("vous@domaine.ch", "pw", "./export"));
    assert!(!can_start("   ", "pw", "./export"));
    assert!(!can_start("vous@domaine.ch", "", "./export"));
    assert!(!can_start("vous@domaine.ch", "pw", " \t"));
    assert!(can_start("vous@domaine.ch", " ", "./export"));
}

#[test]
fn folder_lists_and_form_config() {
    assert_eq!(parse_folder_list("INBOX, Sent"), vec!["INBOX", "Sent"]);
    assert_eq!(parse_folder_list(" , a ,,b c, "), vec!["a", "b c"]);
    assert!(parse_folder_list("").is_empty());
    let cfg = form_config(" vous@domaine.ch ", " pw ", " ./out ", " mail.infomaniak.com", 993, "INBOX,Sent", 5, 50);
    assert_eq!(cfg.email, "vous@domaine.ch");
    assert_eq!(cfg.password, " pw ");
    assert_eq!(cfg.output, "./out");
    assert_eq!(cfg.server, "mail.infomaniak.com");
    assert_eq!(cfg.port, 993);
    assert_eq!(cfg.folders, vec!["INBOX", "Sent"]);
    assert_eq!(cfg.limit, 5);
    assert_eq!(cfg.batch_size, 50);
}

#[test]
fn progress_bar_texts() {
    let mut p = Progress::new();
    p.start();
    assert_eq!(p.bar_label(), "Connexion…");
    p.handle_event(ExportEvent::FolderStarted { name: "INBOX".to_string(), total: 4, already: 0 });
    p.handle_event(ExportEvent::Mail { folder: "INBOX".to_string(), subject: "a".to_string() });
    assert_eq!(p.bar_label(), "INBOX — 1/4");
    assert_eq!(p.total_line(), "1 mail(s) exporté(s) au total");
}
