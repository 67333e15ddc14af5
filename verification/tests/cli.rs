use infomaniak_mail_exporter::cli::Cli;

fn cli(password: Option<&str>) -> Cli {
    Cli {
        email: "vous@domaine.ch".to_string(),
        password: password.map(|p| p.to_string()),
        output: "./export".to_string(),
        server: "mail.infomaniak.com".to_string(),
        port: 993,
        folders: vec!["INBOX".to_string()],
        limit: 5,
        batch_size: 50,
    }
}

#[test]
fn the_flag_wins_then_the_environment() {
    assert_eq!(cli(Some("flag")).preset_password(Some("env".to_string())), Some("flag".to_string()));
    assert_eq!(cli(None).preset_password(Some("env".to_string())), Some("env".to_string()));
    assert_eq!(cli(None).preset_password(Some(String::new())), None);
    assert_eq!(cli(None).preset_password(None), None);
    assert_eq!(cli(Some("")).preset_password(Some("env".to_string())), Some(String::new()));
}

#[test]
fn prompt_and_config() {
    let c = cli(None);
    assert_eq!(c.prompt_text(), "Mot de passe IMAP pour vous@domaine.ch : ");
    let cfg = c.into_config("pw".to_string());
    assert_eq!(cfg.email, "vous@domaine.ch");
    assert_eq!(cfg.password, "pw");
    assert_eq!(cfg.output, "./export");
    assert_eq!(cfg.port, 993);
    assert_eq!(cfg.folders, vec!["INBOX"]);
    assert_eq!(cfg.limit, 5);
    assert_eq!(cfg.batch_size, 50);
}
