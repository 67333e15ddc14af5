use infomaniak_mail_exporter::mail::{meta_of_plan, plan_export, plan_from_parsed, Attachment, ParsedMail};

const RAW: &str = "From: Alice <alice@example.com>\r\n\
To: Bob <bob@example.com>, Carol <carol@example.com>\r\n\
Subject: Facture mars\r\n\
Date: Mon, 1 May 2023 10:00:00 +0200\r\n\
MIME-Version: 1.0\r\n\
Content-Type: multipart/mixed; boundary=\"XYZ\"\r\n\
\r\n\
--XYZ\r\n\
Content-Type: text/plain\r\n\
\r\n\
Bonjour\r\n\
--XYZ\r\n\
Content-Type: application/pdf; name=\"facture.pdf\"\r\n\
Content-Disposition: attachment; filename=\"facture.pdf\"\r\n\
Content-Transfer-Encoding: base64\r\n\
\r\n\
SGVsbG8=\r\n\
--XYZ\r\n\
Content-Type: application/octet-stream\r\n\
Content-Disposition: attachment\r\n\
Content-Transfer-Encoding: base64\r\n\
\r\n\
AAE=\r\n\
--XYZ--\r\n";

#[test]
fn a_parsed_mail_gives_its_headers_and_attachments() {
    let plan = plan_export(7, RAW.as_bytes());
    assert_eq!(plan.subject, "Facture mars");
    assert_eq!(plan.date, "2023-05-01");
    assert_eq!(plan.from, "alice@example.com");
    assert_eq!(plan.to, "bob@example.com");
    assert_eq!(plan.stem, "0007_2023-05-01_Facture-mars");
    assert_eq!(plan.eml_name, "0007_2023-05-01_Facture-mars.eml");
    assert_eq!(plan.attachments_dir, "0007_2023-05-01_Facture-mars_attachments");
    assert_eq!(plan.attachments.len(), 2);
    assert_eq!(plan.attachments[0].raw_name, "facture.pdf");
    assert_eq!(plan.attachments[0].contents, b"Hello".to_vec());
    assert_eq!(plan.attachments[1].raw_name, "attachment_2");
    assert_eq!(plan.attachments[1].contents, vec![0u8, 1u8]);
}

#[test]
fn a_mail_without_headers_gets_the_defaults() {
    let plan = plan_export(1, b"");
    assert_eq!(plan.subject, "(sans objet)");
    assert_eq!(plan.date, "0000-00-00");
    assert_eq!(plan.from, "");
    assert_eq!(plan.to, "");
    assert_eq!(plan.stem, "0001_0000-00-00_sans-objet");
    assert!(plan.attachments.is_empty());
}

#[test]
fn defaults_replace_missing_fields() {
    let parsed = ParsedMail {
        subject: None,
        date: Some((2024, 2, 9)),
        from: Some("x@y.z".to_string()),
        to: None,
        attachments: vec![
            Attachment { name: None, contents: vec![1, 2, 3] },
            Attachment { name: Some("a:b.txt".to_string()), contents: vec![] },
        ],
    };
    let plan = plan_from_parsed(12, Some(parsed));
    assert_eq!(plan.subject, "(sans objet)");
    assert_eq!(plan.date, "2024-02-09");
    assert_eq!(plan.from, "x@y.z");
    assert_eq!(plan.to, "");
    assert_eq!(plan.stem, "0012_2024-02-09_sans-objet");
    assert_eq!(plan.attachments[0].raw_name, "attachment_1");
    assert_eq!(plan.attachments[0].contents, vec![1, 2, 3]);
    assert_eq!(plan.attachments[1].raw_name, "a:b.txt");

    let none = plan_from_parsed(3, None);
    assert_eq!(none.stem, "0003_0000-00-00_sans-objet");
    assert_eq!(none.eml_name, "0003_0000-00-00_sans-objet.eml");

    let meta = meta_of_plan(plan, 2);
    assert_eq!(meta.subject, "(sans objet)");
    assert_eq!(meta.date, "2024-02-09");
    assert_eq!(meta.attachment_count, 2);
    assert_eq!(meta.eml_relative, "0012_2024-02-09_sans-objet.eml");
}
