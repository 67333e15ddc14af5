use infomaniak_mail_exporter::naming::{
    attachment_base_name, attachment_collision_name, date_string, default_attachment_string,
    account_dir_name, file_stem, free_attachment_name, sanitize_folder, slug_from_sanitized, slugify,
};
use infomaniak_mail_exporter::text::{decimal_string, padded_decimal, trim_chars, chars_of, Strip};

#[test]
fn decimal_rendering() {
    assert_eq!(decimal_string(0), "0");
    assert_eq!(decimal_string(7), "7");
    assert_eq!(decimal_string(1234567890123), "1234567890123");
    assert_eq!(decimal_string(u64::MAX), u64::MAX.to_string());
    assert_eq!(padded_decimal(7, 4), "0007");
    assert_eq!(padded_decimal(42, 2), "42");
    assert_eq!(padded_decimal(12345, 4), "12345");
    assert_eq!(padded_decimal(0, 4), "0000");
}

#[test]
fn trimming_whitespace_and_dashes() {
    let t: String = trim_chars(&chars_of("  \t a b \u{2003}\n"), Strip::Whitespace).into_iter().collect();
    assert_eq!(t, "a b");
    let d: String = trim_chars(&chars_of("--a-b--"), Strip::Dash).into_iter().collect();
    assert_eq!(d, "a-b");
    let e: String = trim_chars(&chars_of("---"), Strip::Dash).into_iter().collect();
    assert_eq!(e, "");
}

#[test]
fn sanitize_removes_illegal_and_control_characters() {
    assert_eq!(account_dir_name("a/b:c*d?e"), "abcde");
    assert_eq!(account_dir_name("x\u{0001}y\u{0085}z"), "xyz");
    assert_eq!(account_dir_name(".."), "");
    assert_eq!(account_dir_name("vous@domaine.ch"), "vous@domaine.ch");
    assert_eq!(attachment_base_name("facture.pdf", 0), "facture.pdf");
}

#[test]
fn slug_collapses_runs_and_keeps_unicode_letters() {
    assert_eq!(slug_from_sanitized("  Hello,   World!! ", 60), "Hello-World");
    assert_eq!(slug_from_sanitized("--", 60), "sans-objet");
    assert_eq!(slug_from_sanitized("Été 2023", 60), "Été-2023");
}

#[test]
fn slug_cut_counts_bytes_and_never_splits_a_character() {
    // "é" takes two bytes: with room for 3 bytes, "aé" fits, "aéb" does not.
    assert_eq!(slug_from_sanitized("aébc", 3), "aé");
    assert_eq!(slug_from_sanitized("éé", 3), "é");
    // A cut that ends on a dash is trimmed again.
    assert_eq!(slug_from_sanitized("ab cd", 3), "ab");
    // Nothing fits: the fallback.
    assert_eq!(slug_from_sanitized("éa", 1), "sans-objet");
}

#[test]
fn slugify_is_safe_for_file_systems() {
    let s = slugify("../../etc/passwd", 60);
    assert!(!s.contains('/'));
    assert!(!s.starts_with('-') && !s.ends_with('-'));
    assert_eq!(s, "etcpasswd");
}

#[test]
fn file_stem_pads_and_keeps_large_numbers() {
    assert_eq!(file_stem(42, "0000-00-00", ""), "0042_0000-00-00_sans-objet");
    assert_eq!(file_stem(12345, "2024-12-31", "Re: Re: Bonjour"), "12345_2024-12-31_Re-Re-Bonjour");
}

#[test]
fn dates_are_zero_padded() {
    assert_eq!(date_string(Some((2023, 5, 1))), "2023-05-01");
    assert_eq!(date_string(Some((999, 12, 31))), "0999-12-31");
    assert_eq!(date_string(None), "0000-00-00");
}

#[test]
fn attachment_names() {
    assert_eq!(default_attachment_string(0), "attachment_1");
    assert_eq!(attachment_base_name("facture.pdf", 0), "facture.pdf");
    assert_eq!(attachment_base_name("a/b:c.txt", 0), "abc.txt");
    assert_eq!(attachment_base_name("   ", 2), "attachment_3");
    assert_eq!(attachment_base_name("//", 0), "attachment_1");
}

#[test]
fn collision_names_insert_the_number_before_the_extension() {
    assert_eq!(attachment_collision_name("facture.pdf", 0), "facture_1.pdf");
    assert_eq!(attachment_collision_name("archive.tar.gz", 1), "archive.tar_2.gz");
    assert_eq!(attachment_collision_name("README", 4), "README_5");
    assert_eq!(attachment_collision_name(".bashrc", 1), ".bashrc_2");
    assert_eq!(attachment_collision_name("note.", 0), "note_1.");
}

#[test]
fn folder_names_are_flattened() {
    assert_eq!(sanitize_folder("INBOX"), "INBOX");
    assert_eq!(sanitize_folder("Archives/2022"), "Archives.2022");
    assert_eq!(sanitize_folder("Archives.2022"), "Archives.2022");
    assert_eq!(sanitize_folder(" a / b . c "), "a.b.c");
    assert_eq!(sanitize_folder("a//b"), "a.b");
    assert_eq!(sanitize_folder(".."), "");
    assert_eq!(sanitize_folder("Envoyés:*"), "Envoyés");
}

#[test]
fn slugs_hold_no_character_that_sanitizing_removes() {
    for subject in ["a/b\u{1}c:d", "Re: \"devis\" <urgent>?", "x*y|z\\w", "\u{85}\u{9f}ok"] {
        let slug = slugify(subject, 60);
        assert!(!slug.chars().any(|c| "/?<>\\:*|\"".contains(c) || (c as u32) < 0x20 || (0x80..=0x9f).contains(&(c as u32))), "{slug}");
    }
    assert_eq!(slugify("a/b\u{1}c:d", 60), "abcd");
}

#[test]
fn names_starting_like_devices_are_kept() {
    assert_eq!(account_dir_name("contact@domaine.ch"), "contact@domaine.ch");
    assert_eq!(sanitize_folder("Contacts/Commandes"), "Contacts.Commandes");
    assert_eq!(slugify("Contrat de location", 60), "Contrat-de-location");
    assert_eq!(attachment_base_name("Confirmation.pdf", 0), "Confirmation.pdf");
}

#[test]
fn attachment_names_avoid_the_files_already_there() {
    let taken = |v: &[&str]| v.iter().map(|s| s.to_string()).collect::<Vec<String>>();
    assert_eq!(free_attachment_name("a.pdf", 1, &taken(&[])), "a.pdf");
    assert_eq!(free_attachment_name("a.pdf", 1, &taken(&["a.pdf"])), "a_2.pdf");
    assert_eq!(free_attachment_name("a.pdf", 1, &taken(&["a.pdf", "a_2.pdf"])), "a_2_2.pdf");
    assert_eq!(free_attachment_name("", 0, &taken(&["attachment_1"])), "attachment_1_1");
    assert_eq!(free_attachment_name("a/b", 0, &taken(&["ab"])), "ab_1");
}

#[test]
fn a_slug_is_its_own_slug() {
    for subject in ["Re: Facture / Mars 2023!", "", "***", "Café ☕ émojis", "  --a--b--  ", "x.y.z"] {
        let once = slugify(subject, 60);
        assert_eq!(slugify(&once, 60), once);
    }
    let once = slugify("", 10);
    assert_eq!(once, "sans-objet");
    assert_eq!(slugify(&once, 10), once);
}
