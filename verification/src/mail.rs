//! What the exporter reads of a mail (subject, date, first sender and first
//! recipient, attachments) and the names of the files it writes for it.

use vstd::prelude::*;
use mail_parser::MimeHeaders;
use crate::text::{owned, concat};
use crate::naming::{
    slug_of, stem_text, file_stem, date_string, date_text, unknown_date, default_attachment_name,
    default_attachment_string, SUBJECT_SLUG_MAX,
};

verus! {

/// An attachment as the parser reports it: its name, if any, and its bytes.
#[derive(Debug)]
pub struct Attachment {
    pub name: Option<String>,
    pub contents: Vec<u8>,
}

/// The parts of a parsed mail that the exporter uses.
#[derive(Debug)]
pub struct ParsedMail {
    /// The Subject header, decoded.
    pub subject: Option<String>,
    /// Year, month and day of the Date header.
    pub date: Option<(u16, u8, u8)>,
    /// Address of the first sender.
    pub from: Option<String>,
    /// Address of the first recipient.
    pub to: Option<String>,
    /// The attachments, in the order of the message.
    pub attachments: Vec<Attachment>,
}

/// Mathematical model of a `ParsedMail`.
pub struct MailFields {
    pub subject: Option<Seq<char>>,
    pub date: Option<(u16, u8, u8)>,
    pub from: Option<Seq<char>>,
    pub to: Option<Seq<char>>,
    pub attachments: Seq<(Option<Seq<char>>, Seq<u8>)>,
}

/// The text of an optional string.
pub open spec fn opt_text(s: Option<String>) -> Option<Seq<char>> {
    match s {
        Some(t) => Some(t@),
        None => None,
    }
}

impl View for ParsedMail {
    type V = MailFields;

    open spec fn view(&self) -> MailFields {
        MailFields {
            subject: opt_text(self.subject),
            date: self.date,
            from: opt_text(self.from),
            to: opt_text(self.to),
            attachments: self.attachments@.map_values(
                |a: Attachment| (opt_text(a.name), a.contents@),
            ),
        }
    }
}

/// What `mail_parser` makes of the raw message `raw`: `None` when it cannot
/// parse it, else the subject, date, first sender and first recipient addresses
/// and the attachments (name and bytes) of the message.
pub uninterp spec fn parsed_mail(raw: Seq<u8>) -> Option<MailFields>;

/// `mail_parser::MessageParser::default().parse`, followed by the accessors
/// `subject`, `date`, `from().first().address()`, `to().first().address()` and
/// `attachments` (with `attachment_name` and `contents` of each part). The
/// contract says only that the result is `parsed_mail(raw)`, a name for what the
/// parser computes from the bytes.
#[verifier::external_body]
pub(crate) fn parse_mail(raw: &[u8]) -> (res: Option<ParsedMail>)
    ensures
        match res {
            Some(p) => parsed_mail(raw@) == Some(p@),
            None => parsed_mail(raw@) is None,
        },
{
    let m = mail_parser::MessageParser::default().parse(raw)?;
    let first = |a: Option<&mail_parser::Address>| a.and_then(|a| a.first()).and_then(|a| a.address()).map(String::from);
    Some(ParsedMail {
        subject: m.subject().map(String::from),
        date: m.date().map(|d| (d.year, d.month, d.day)),
        from: first(m.from()),
        to: first(m.to()),
        attachments: m.attachments().map(|p| Attachment { name: p.attachment_name().map(String::from), contents: p.contents().to_vec() }).collect(),
    })
}

/// Metadata of an exported mail, for the index.
#[derive(Debug)]
pub struct MailMeta {
    pub date: String,
    pub from: String,
    pub to: String,
    pub subject: String,
    pub attachment_count: usize,
    pub eml_relative: String,
}

/// An attachment to write: the name it is first tried under (before
/// sanitizing) and its bytes.
#[derive(Debug)]
pub struct PlannedAttachment {
    pub raw_name: String,
    pub contents: Vec<u8>,
}

/// The files to write for one mail and the metadata it gets in the index.
#[derive(Debug)]
pub struct ExportPlan {
    pub subject: String,
    pub date: String,
    pub from: String,
    pub to: String,
    /// Stem of the file names: `0001_2023-05-01_Subject-slug`.
    pub stem: String,
    /// `<stem>.eml`, where the raw message goes.
    pub eml_name: String,
    /// `<stem>_attachments`, the directory of the attachments.
    pub attachments_dir: String,
    pub attachments: Vec<PlannedAttachment>,
}

/// Subject written when a mail has none.
pub open spec fn no_subject() -> Seq<char> {
    "(sans objet)"@
}

/// The value of an optional text, or `default`.
pub open spec fn text_or(s: Option<Seq<char>>, default: Seq<char>) -> Seq<char> {
    match s {
        Some(t) => t,
        None => default,
    }
}

/// The date text of an optional date.
pub open spec fn date_or_unknown(date: Option<(u16, u8, u8)>) -> Seq<char> {
    match date {
        Some((y, m, d)) => date_text(y as nat, m as nat, d as nat),
        None => unknown_date(),
    }
}

/// The attachments of a parsed mail, or none when it could not be parsed.
pub open spec fn attachments_of(fields: Option<MailFields>) -> Seq<(Option<Seq<char>>, Seq<u8>)> {
    match fields {
        Some(f) => f.attachments,
        None => Seq::empty(),
    }
}

/// `plan` is what the exporter does with a mail numbered `seq` whose parsed
/// fields are `fields`: defaults replace missing fields ("(sans objet)",
/// "0000-00-00", ""), the stem is built from the number, the date and a slug of
/// the subject, and each attachment keeps its bytes and its name, or gets
/// `attachment_<position + 1>`.
pub open spec fn plan_of(seq: u32, fields: Option<MailFields>, plan: ExportPlan) -> bool {
    &&& plan_headers_of(fields, plan)
    &&& plan_names_of(seq, fields, plan)
    &&& plan_attachments_of(fields, plan)
}

/// The subject of a parsed mail, or "(sans objet)".
pub open spec fn subject_of(fields: Option<MailFields>) -> Seq<char> {
    text_or(
        match fields {
            Some(f) => f.subject,
            None => None,
        },
        no_subject(),
    )
}

/// The date text of a parsed mail, or "0000-00-00".
pub open spec fn date_of(fields: Option<MailFields>) -> Seq<char> {
    date_or_unknown(
        match fields {
            Some(f) => f.date,
            None => None,
        },
    )
}

/// Subject, date, sender and recipient of the plan, with their defaults.
pub open spec fn plan_headers_of(fields: Option<MailFields>, plan: ExportPlan) -> bool {
    &&& plan.subject@ == subject_of(fields)
    &&& plan.date@ == date_of(fields)
    &&& plan.from@ == text_or(
        match fields {
            Some(f) => f.from,
            None => None,
        },
        Seq::empty(),
    )
    &&& plan.to@ == text_or(
        match fields {
            Some(f) => f.to,
            None => None,
        },
        Seq::empty(),
    )
}

/// Stem, `.eml` name and attachment directory of the plan.
pub open spec fn plan_names_of(seq: u32, fields: Option<MailFields>, plan: ExportPlan) -> bool {
    &&& exists|slug: Seq<char>|
        slug_of(subject_of(fields), SUBJECT_SLUG_MAX as nat, slug) && plan.stem@ == stem_text(
            seq as nat,
            date_of(fields),
            slug,
        )
    &&& plan.eml_name@ == plan.stem@ + ".eml"@
    &&& plan.attachments_dir@ == plan.stem@ + "_attachments"@
}

/// Attachments of the plan: one per attachment of the mail, with its bytes and
/// its name or `attachment_<position + 1>`.
pub open spec fn plan_attachments_of(fields: Option<MailFields>, plan: ExportPlan) -> bool {
    let atts = attachments_of(fields);
    &&& plan.attachments@.len() == atts.len()
    &&& forall|i: int|
        0 <= i < atts.len() ==> {
            &&& (#[trigger] plan.attachments@[i]).contents@ == atts[i].1
            &&& plan.attachments@[i].raw_name@ == text_or(
                atts[i].0,
                default_attachment_name(i as nat),
            )
        }
}

fn text_or_default(s: Option<String>, default: &str) -> (res: String)
    ensures
        res@ == text_or(opt_text(s), default@),
{
    match s {
        Some(t) => t,
        None => owned(default),
    }
}

/// The export plan of a mail numbered `seq`, given what the parser made of it.
pub fn plan_from_parsed(seq: u32, parsed: Option<ParsedMail>) -> (plan: ExportPlan)
    ensures
        plan_of(
            seq,
            match parsed {
                Some(p) => Some(p@),
                None => None,
            },
            plan,
        ),
{
    let ghost fields = match &parsed {
        Some(p) => Some(p@),
        None => None::<MailFields>,
    };
    let (subject, date, from, to, found) = match parsed {
        Some(p) => (p.subject, p.date, p.from, p.to, p.attachments),
        None => (None, None, None, None, Vec::new()),
    };
    let ghost found_view = found@.map_values(|a: Attachment| (opt_text(a.name), a.contents@));
    assert(found_view == attachments_of(fields));
    let subject = text_or_default(subject, "(sans objet)");
    let date_text = date_string(date);
    let from = match from {
        Some(t) => t,
        None => String::new(),
    };
    let to = match to {
        Some(t) => t,
        None => String::new(),
    };
    let stem = file_stem(seq, date_text.as_str(), subject.as_str());
    let eml_name = concat(stem.as_str(), ".eml");
    let attachments_dir = concat(stem.as_str(), "_attachments");
    let mut attachments: Vec<PlannedAttachment> = Vec::new();
    let n = found.len();
    let ghost all = found@;
    for a in it: found
        invariant
            it.seq() == all,
            n == all.len(),
            found_view == all.map_values(|a: Attachment| (opt_text(a.name), a.contents@)),
            attachments@.len() == it.index(),
            forall|i: int|
                0 <= i < it.index() ==> {
                    &&& (#[trigger] attachments@[i]).contents@ == found_view[i].1
                    &&& attachments@[i].raw_name@ == text_or(
                        found_view[i].0,
                        default_attachment_name(i as nat),
                    )
                },
    {
        let ghost k = it.index() as int;
        assert(all[k] == a);
        let raw_name = match a.name {
            Some(name) => name,
            None => default_attachment_string(attachments.len()),
        };
        attachments.push(PlannedAttachment { raw_name, contents: a.contents });
    }
    let plan = ExportPlan { subject, date: date_text, from, to, stem, eml_name, attachments_dir, attachments };
    proof {
        reveal_strlit("(sans objet)");
        assert(plan_headers_of(fields, plan));
        assert(plan_names_of(seq, fields, plan));
        assert(plan_attachments_of(fields, plan));
    }
    plan
}

/// Reads a raw message and says which files to write for it and what to put in
/// the index (see `plan_of`); the parsing is `mail_parser`'s.
pub fn plan_export(seq: u32, raw: &[u8]) -> (plan: ExportPlan)
    ensures
        plan_of(seq, parsed_mail(raw@), plan),
{
    let parsed = parse_mail(raw);
    plan_from_parsed(seq, parsed)
}

/// The index metadata of a mail exported by `plan`, `attachment_count`
/// attachments having been written.
pub fn meta_of_plan(plan: ExportPlan, attachment_count: usize) -> (meta: MailMeta)
    ensures
        meta.date@ == plan.date@,
        meta.from@ == plan.from@,
        meta.to@ == plan.to@,
        meta.subject@ == plan.subject@,
        meta.attachment_count == attachment_count,
        meta.eml_relative@ == plan.eml_name@,
{
    MailMeta {
        date: plan.date,
        from: plan.from,
        to: plan.to,
        subject: plan.subject,
        attachment_count,
        eml_relative: plan.eml_name,
    }
}

} // verus!
