use infomaniak_mail_exporter::index::{text_less, IndexWriter};
use infomaniak_mail_exporter::mail::MailMeta;

fn meta(date: &str, subject: &str, eml: &str, attachments: usize) -> MailMeta {
    MailMeta {
        date: date.to_string(),
        from: "a@b.c".to_string(),
        to: "d@e.f".to_string(),
        subject: subject.to_string(),
        attachment_count: attachments,
        eml_relative: eml.to_string(),
    }
}

#[test]
fn rows_are_added_and_counted() {
    let mut idx = IndexWriter::new();
    assert!(idx.is_empty());
    idx.add("INBOX", 5, &meta("2023-05-01", "Hello", "0001_x.eml", 0));
    assert!(!idx.is_empty());
    assert_eq!(idx.len(), 1);
    assert!(IndexWriter::default().is_empty());
}

#[test]
fn records_are_sorted_by_folder_then_date_stably() {
    let mut idx = IndexWriter::new();
    idx.add("Sent", 1, &meta("2023-01-02", "s1", "0001_s1.eml", 0));
    idx.add("INBOX", 2, &meta("2023-03-01", "i1", "0001_i1.eml", 1));
    idx.add("INBOX", 3, &meta("2022-12-31", "i2", "0002_i2.eml", 0));
    idx.add("INBOX", 4, &meta("2023-03-01", "i3", "0003_i3.eml", 12));
    let records = idx.into_records();
    assert_eq!(records.len(), 5);
    assert_eq!(
        records[0],
        vec!["folder", "uid", "date", "from", "to", "subject", "attachments", "file"]
    );
    assert_eq!(
        records[1],
        vec!["INBOX", "3", "2022-12-31", "a@b.c", "d@e.f", "i2", "0", "INBOX/0002_i2.eml"]
    );
    assert_eq!(records[2][5], "i1");
    assert_eq!(records[2][6], "1");
    assert_eq!(records[3][5], "i3");
    assert_eq!(records[3][6], "12");
    assert_eq!(records[4][0], "Sent");
    assert_eq!(records[4][7], "Sent/0001_s1.eml");
}

#[test]
fn an_empty_index_has_only_its_header() {
    let records = IndexWriter::new().into_records();
    assert_eq!(records.len(), 1);
    assert_eq!(records[0].len(), 8);
}

#[test]
fn text_order_is_by_code_points() {
    assert!(text_less("INBOX", "Sent"));
    assert!(!text_less("Sent", "INBOX"));
    assert!(text_less("ab", "abc"));
    assert!(!text_less("abc", "abc"));
    assert!(text_less("Z", "a"));
    assert!(text_less("e", "é"));
}
