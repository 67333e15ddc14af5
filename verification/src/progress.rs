//! What the graphical interface shows of an export: its status, the progress in
//! the current folder, the number of mails exported, the final message and the
//! log; and the export parameters taken from its form.

use vstd::prelude::*;
use crate::text::{chars_of, trim_chars, trim, Strip, string_from_chars, decimal, decimal_string, owned};
use crate::naming::{split_by, split_chars, Sep, lemma_split_len};
use crate::runner::{ExportConfig, ExportEvent, texts};

verus! {

/// Longest number of lines the log keeps (the oldest go first).
pub const LOG_MAX: usize = 300;

/// State of the export shown by the interface.
#[derive(Debug, Clone, Copy, PartialEq, Eq, Structural)]
pub enum Status {
    Idle,
    Running,
    Done,
    Error,
}

/// What the interface shows of an export.
#[derive(Debug)]
pub struct Progress {
    pub status: Status,
    pub current_folder: String,
    /// Mails exported in the current folder.
    pub folder_done: usize,
    /// Mails to export in the current folder.
    pub folder_total: usize,
    /// Mails exported in the whole run.
    pub exported: usize,
    pub result_msg: String,
    pub log: Vec<String>,
}

/// The last `max` elements of `s` (all of them when there are fewer).
pub open spec fn last_lines(s: Seq<String>, max: nat) -> Seq<String> {
    if s.len() > max {
        s.skip(s.len() - max)
    } else {
        s
    }
}

/// The log line of an event.
pub open spec fn event_line(ev: ExportEvent) -> Seq<char> {
    match ev {
        ExportEvent::Connecting { server, port } => "Connexion à "@ + server@ + ":"@ + decimal(
            port as nat,
        ) + "…"@,
        ExportEvent::FoldersListed { count } => decimal(count as nat) + " dossier(s) à exporter."@,
        ExportEvent::FolderStarted { name, total, already } => "→ "@ + name@ + " : "@ + decimal(
            already as nat,
        ) + " déjà exporté(s), "@ + decimal(total as nat) + " à télécharger"@,
        ExportEvent::Mail { folder, subject } => "  ✓ "@ + subject@,
        ExportEvent::FolderSkipped { name, reason } => "  ! "@ + name@ + " ignoré : "@ + reason@,
        ExportEvent::FolderDone { name } => "✓ "@ + name@ + " terminé"@,
        ExportEvent::Finished { total } => "Terminé : "@ + decimal(total as nat)
            + " mail(s) exporté(s)."@,
    }
}

/// The message shown when an export ends.
pub open spec fn result_text(result: Result<usize, Seq<char>>, cancelled: bool, exported: nat) -> Seq<
    char,
> {
    match result {
        Ok(total) => decimal(total as nat) + " nouveau(x) mail(s) exporté(s)."@,
        Err(e) => if cancelled {
            "Export annulé. "@ + decimal(exported) + " mail(s) exporté(s)."@
        } else {
            e
        },
    }
}

impl Progress {
    /// The interface before any export.
    pub fn new() -> (res: Progress)
        ensures
            res.status == Status::Idle,
            res.current_folder@ == Seq::<char>::empty(),
            res.folder_done == 0,
            res.folder_total == 0,
            res.exported == 0,
            res.result_msg@ == Seq::<char>::empty(),
            res.log@ == Seq::<String>::empty(),
    {
        Progress {
            status: Status::Idle,
            current_folder: String::new(),
            folder_done: 0,
            folder_total: 0,
            exported: 0,
            result_msg: String::new(),
            log: Vec::new(),
        }
    }

    /// Appends a line to the log, which keeps its last `LOG_MAX` lines.
    pub fn push_log(&mut self, line: String)
        ensures
            final(self).log@ == last_lines(old(self).log@.push(line), LOG_MAX as nat),
            final(self).status == old(self).status,
            final(self).current_folder == old(self).current_folder,
            final(self).folder_done == old(self).folder_done,
            final(self).folder_total == old(self).folder_total,
            final(self).exported == old(self).exported,
            final(self).result_msg == old(self).result_msg,
    {
        self.log.push(line);
        let len = self.log.len();
        if len > LOG_MAX {
            let drop = len - LOG_MAX;
            let kept = self.log.split_off(drop);
            self.log = kept;
        }
    }

    /// Gets ready for a new export: running, counters at zero, no folder, no
    /// message, empty log.
    pub fn start(&mut self)
        ensures
            final(self).status == Status::Running,
            final(self).current_folder@ == Seq::<char>::empty(),
            final(self).folder_done == 0,
            final(self).folder_total == 0,
            final(self).exported == 0,
            final(self).result_msg@ == Seq::<char>::empty(),
            final(self).log@ == Seq::<String>::empty(),
    {
        self.status = Status::Running;
        self.exported = 0;
        self.folder_done = 0;
        self.folder_total = 0;
        self.current_folder = String::new();
        self.result_msg = String::new();
        self.log = Vec::new();
    }

    /// Takes an event of the export into account: a folder start sets the
    /// current folder and its total, a mail advances both counters, and every
    /// event adds its line to the log.
    pub fn handle_event(&mut self, ev: ExportEvent)
        requires
            ev is Mail ==> old(self).folder_done < usize::MAX && old(self).exported < usize::MAX,
        ensures
            final(self).log@.len() > 0,
            final(self).log@.last()@ == event_line(ev),
            final(self).log@ == last_lines(old(self).log@.push(final(self).log@.last()), LOG_MAX as nat),
            final(self).status == old(self).status,
            final(self).result_msg == old(self).result_msg,
            match ev {
                ExportEvent::FolderStarted { name, total, already } => {
                    &&& final(self).current_folder@ == name@
                    &&& final(self).folder_total == total
                    &&& final(self).folder_done == 0
                    &&& final(self).exported == old(self).exported
                },
                ExportEvent::Mail { .. } => {
                    &&& final(self).current_folder == old(self).current_folder
                    &&& final(self).folder_total == old(self).folder_total
                    &&& final(self).folder_done == old(self).folder_done + 1
                    &&& final(self).exported == old(self).exported + 1
                },
                _ => {
                    &&& final(self).current_folder == old(self).current_folder
                    &&& final(self).folder_total == old(self).folder_total
                    &&& final(self).folder_done == old(self).folder_done
                    &&& final(self).exported == old(self).exported
                },
            },
    {
        let ghost e = ev;
        let line = match ev {
            ExportEvent::Connecting { server, port } => {
                let p = decimal_string(port as u64);
                {
                    let mut s = owned("Connexion à ");
                    s.append(server.as_str());
                    s.append(":");
                    s.append(p.as_str());
                    s.append("…");
                    s
                }
            },
            ExportEvent::FoldersListed { count } => {
                let c = decimal_string(count as u64);
                {
                    let mut s = owned(c.as_str());
                    s.append(" dossier(s) à exporter.");
                    s
                }
            },
            ExportEvent::FolderStarted { name, total, already } => {
                let a = decimal_string(already as u64);
                let t = decimal_string(total as u64);
                let line = {
                    let mut s = owned("→ ");
                    s.append(name.as_str());
                    s.append(" : ");
                    s.append(a.as_str());
                    s.append(" déjà exporté(s), ");
                    s.append(t.as_str());
                    s.append(" à télécharger");
                    s
                };
                self.current_folder = name;
                self.folder_total = total;
                self.folder_done = 0;
                line
            },
            ExportEvent::Mail { folder, subject } => {
                self.folder_done = self.folder_done + 1;
                self.exported = self.exported + 1;
                {
                    let mut s = owned("  ✓ ");
                    s.append(subject.as_str());
                    s
                }
            },
            ExportEvent::FolderSkipped { name, reason } => {
                {
                    let mut s = owned("  ! ");
                    s.append(name.as_str());
                    s.append(" ignoré : ");
                    s.append(reason.as_str());
                    s
                }
            },
            ExportEvent::FolderDone { name } => {
                {
                    let mut s = owned("✓ ");
                    s.append(name.as_str());
                    s.append(" terminé");
                    s
                }
            },
            ExportEvent::Finished { total } => {
                let t = decimal_string(total as u64);
                {
                    let mut s = owned("Terminé : ");
                    s.append(t.as_str());
                    s.append(" mail(s) exporté(s).");
                    s
                }
            },
        };
        proof {
            assert(line@ == event_line(e));
        }
        let ghost pushed = line;
        self.push_log(line);
        proof {
            lemma_last_lines_last(old(self).log@, pushed, LOG_MAX as nat);
        }
    }

    /// Takes the end of an export into account: `Ok(total)` shows the number
    /// exported; an error shows as a cancellation when the user cancelled, else
    /// as an error, which is also logged.
    pub fn finish(&mut self, result: Result<usize, String>, cancelled: bool)
        ensures
            final(self).result_msg@ == result_text(
                match result {
                    Ok(t) => Ok(t),
                    Err(e) => Err(e@),
                },
                cancelled,
                old(self).exported as nat,
            ),
            final(self).status == match result {
                Ok(_) => Status::Done,
                Err(_) => if cancelled {
                    Status::Done
                } else {
                    Status::Error
                },
            },
            final(self).exported == match result {
                Ok(t) => t,
                Err(_) => old(self).exported,
            },
            final(self).log@ == match result {
                Err(e) => if cancelled {
                    old(self).log@
                } else {
                    last_lines(old(self).log@.push(final(self).log@.last()), LOG_MAX as nat)
                },
                Ok(_) => old(self).log@,
            },
            (result is Err && !cancelled) ==> final(self).log@.len() > 0
                && final(self).log@.last()@ == "Erreur : "@ + match result {
                Err(e) => e@,
                Ok(_) => Seq::empty(),
            },
    {
        match result {
            Ok(total) => {
                self.status = Status::Done;
                self.exported = total;
                let t = decimal_string(total as u64);
                self.result_msg = {
                    let mut s = owned(t.as_str());
                    s.append(" nouveau(x) mail(s) exporté(s).");
                    s
                };
            },
            Err(e) => {
                if cancelled {
                    self.status = Status::Done;
                    let n = decimal_string(self.exported as u64);
                    self.result_msg = {
                        let mut s = owned("Export annulé. ");
                        s.append(n.as_str());
                        s.append(" mail(s) exporté(s).");
                        s
                    };
                } else {
                    self.status = Status::Error;
                    let line = {
                        let mut s = owned("Erreur : ");
                        s.append(e.as_str());
                        s
                    };
                    self.result_msg = e;
                    let ghost pushed = line;
                    let ghost before = self.log@;
                    self.push_log(line);
                    proof {
                        lemma_last_lines_last(before, pushed, LOG_MAX as nat);
                    }
                }
            },
        }
    }
}

impl Progress {
    /// Text of the progress bar: "Connexion…" before the first folder, else
    /// "<folder> — <done>/<total>".
    pub fn bar_label(&self) -> (res: String)
        ensures
            res@ == if self.current_folder@.len() == 0 {
                "Connexion…"@
            } else {
                self.current_folder@ + " — "@ + decimal(self.folder_done as nat) + "/"@ + decimal(
                    self.folder_total as nat,
                )
            },
    {
        if self.current_folder.as_str().unicode_len() == 0 {
            owned("Connexion…")
        } else {
            let d = decimal_string(self.folder_done as u64);
            let t = decimal_string(self.folder_total as u64);
            let mut s = owned(self.current_folder.as_str());
            s.append(" — ");
            s.append(d.as_str());
            s.append("/");
            s.append(t.as_str());
            s
        }
    }

    /// The line under the progress bar: "<n> mail(s) exporté(s) au total".
    pub fn total_line(&self) -> (res: String)
        ensures
            res@ == decimal(self.exported as nat) + " mail(s) exporté(s) au total"@,
    {
        let n = decimal_string(self.exported as u64);
        let mut s = owned(n.as_str());
        s.append(" mail(s) exporté(s) au total");
        s
    }
}

/// The last line kept is the line just added.
pub proof fn lemma_last_lines_last(s: Seq<String>, line: String, max: nat)
    requires
        max > 0,
    ensures
        last_lines(s.push(line), max).len() > 0,
        last_lines(s.push(line), max).last() == line,
{
}

/// The log is bounded and keeps the most recent lines: it holds at most `max`
/// lines (all of them when there are fewer), and they are the last ones, in order.
pub proof fn law_log_keeps_last_lines(s: Seq<String>, max: nat)
    ensures
        last_lines(s, max).len() == if s.len() > max {
            max
        } else {
            s.len()
        },
        last_lines(s, max) == s.subrange(s.len() - last_lines(s, max).len(), s.len() as int),
{
    assert(s.subrange(0, s.len() as int) == s);
}

/// Whether the form holds enough to start: an email and an output directory
/// that are not blank, and a password.
pub open spec fn can_start_spec(email: Seq<char>, password: Seq<char>, output: Seq<char>) -> bool {
    trim(email, Strip::Whitespace).len() > 0 && password.len() > 0 && trim(
        output,
        Strip::Whitespace,
    ).len() > 0
}

/// `s` without surrounding white space.
pub fn trimmed(s: &str) -> (res: String)
    ensures
        res@ == trim(s@, Strip::Whitespace),
{
    let c = chars_of(s);
    let t = trim_chars(&c, Strip::Whitespace);
    string_from_chars(&t)
}

/// Whether an export can be started from the form (see `can_start_spec`).
pub fn can_start(email: &str, password: &str, output: &str) -> (res: bool)
    ensures
        res == can_start_spec(email@, password@, output@),
{
    let e = trimmed(email);
    let o = trimmed(output);
    e.as_str().unicode_len() > 0 && password.unicode_len() > 0 && o.as_str().unicode_len() > 0
}

/// The trimmed, non-empty pieces of a comma-separated list, in order.
pub open spec fn folder_list(csv: Seq<char>) -> Seq<Seq<char>> {
    nonblank(split_by(csv, Sep::Comma))
}

/// The pieces of `parts` trimmed of white space, empty ones dropped.
pub open spec fn nonblank(parts: Seq<Seq<char>>) -> Seq<Seq<char>>
    decreases parts.len(),
{
    if parts.len() == 0 {
        Seq::empty()
    } else if trim(parts.last(), Strip::Whitespace).len() == 0 {
        nonblank(parts.drop_last())
    } else {
        nonblank(parts.drop_last()).push(trim(parts.last(), Strip::Whitespace))
    }
}

/// The folders of a comma-separated list ("INBOX, Sent"): each piece trimmed,
/// empty pieces dropped.
pub fn parse_folder_list(csv: &str) -> (res: Vec<String>)
    ensures
        texts(res@) == folder_list(csv@),
{
    let chars = chars_of(csv);
    let pieces = split_chars(&chars, Sep::Comma);
    let ghost pv = pieces@.map_values(|p: Vec<char>| p@);
    let mut res: Vec<String> = Vec::new();
    let n = pieces.len();
    for i in 0..n
        invariant
            n == pieces@.len(),
            pv == pieces@.map_values(|p: Vec<char>| p@),
            texts(res@) == nonblank(pv.take(i as int)),
    {
        proof {
            assert(pv.take(i + 1).drop_last() == pv.take(i as int));
            assert(pv.take(i + 1).last() == pieces@[i as int]@);
        }
        let t = trim_chars(&pieces[i], Strip::Whitespace);
        if t.len() > 0 {
            let ghost before = texts(res@);
            res.push(string_from_chars(&t));
            assert(texts(res@) == before.push(res@.last()@));
        }
    }
    assert(pv.take(n as int) == pv);
    res
}

/// The export parameters of the form: email, output and server trimmed, the
/// folder list parsed, the other fields as they are.
pub fn form_config(
    email: &str,
    password: &str,
    output: &str,
    server: &str,
    port: u16,
    folders_csv: &str,
    limit: usize,
    batch_size: usize,
) -> (cfg: ExportConfig)
    ensures
        cfg.email@ == trim(email@, Strip::Whitespace),
        cfg.password@ == password@,
        cfg.output@ == trim(output@, Strip::Whitespace),
        cfg.server@ == trim(server@, Strip::Whitespace),
        cfg.port == port,
        texts(cfg.folders@) == folder_list(folders_csv@),
        cfg.limit == limit,
        cfg.batch_size == batch_size,
{
    ExportConfig {
        email: trimmed(email),
        password: owned(password),
        output: trimmed(output),
        server: trimmed(server),
        port,
        folders: parse_folder_list(folders_csv),
        limit,
        batch_size,
    }
}

} // verus!
