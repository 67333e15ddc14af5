use infomaniak_mail_exporter::naming::{file_stem, slugify};

#[test]
fn slugify_handles_special_chars() {
    assert_eq!(
        slugify("Re: Facture / Mars 2023!", 60),
        "Re-Facture-Mars-2023"
    );
    assert_eq!(slugify("", 60), "sans-objet");
    assert_eq!(slugify("***", 60), "sans-objet");
    assert_eq!(slugify("Café ☕ émojis", 60), "Café-émojis");
}

#[test]
fn slugify_truncates() {
    let long = "a".repeat(200);
    assert_eq!(slugify(&long, 10).len(), 10);
}

#[test]
fn file_stem_format() {
    assert_eq!(
        file_stem(1, "2023-05-01", "Hello World"),
        "0001_2023-05-01_Hello-World"
    );
}
