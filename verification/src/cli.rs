//! Command-line parameters of the exporter and the choice of the password.

use vstd::prelude::*;
use crate::text::owned;
use crate::runner::ExportConfig;
use crate::mail::opt_text;

verus! {

/// Parameters of the command line.
#[derive(Debug)]
pub struct Cli {
    /// Full email address (the IMAP login).
    pub email: String,
    /// Password; when absent, the IMAP_PASSWORD variable, else a masked prompt.
    pub password: Option<String>,
    /// Output directory.
    pub output: String,
    /// IMAP server.
    pub server: String,
    /// IMAP port (implicit TLS).
    pub port: u16,
    /// Folders to export (repeatable); all by default.
    pub folders: Vec<String>,
    /// Largest number of mails per folder; 0 means no limit.
    pub limit: usize,
    /// Size of the IMAP fetch batches.
    pub batch_size: usize,
}

/// The password known without prompting: the one given on the command line,
/// else the value of IMAP_PASSWORD when it is not empty; `None` means the user
/// must be prompted.
pub open spec fn preset_password_spec(flag: Option<Seq<char>>, env: Option<Seq<char>>) -> Option<
    Seq<char>,
> {
    match flag {
        Some(p) => Some(p),
        None => match env {
            Some(e) => if e.len() > 0 {
                Some(e)
            } else {
                None
            },
            None => None,
        },
    }
}

impl Cli {
    /// The password to use without prompting (flag > IMAP_PASSWORD when not
    /// empty), given the value of IMAP_PASSWORD if it is set; `None` when the
    /// user must be prompted.
    pub fn preset_password(&self, env_password: Option<String>) -> (res: Option<String>)
        ensures
            opt_text(res) == preset_password_spec(opt_text(self.password), opt_text(env_password)),
    {
        match &self.password {
            Some(p) => Some(p.clone()),
            None => match env_password {
                Some(e) => if e.as_str().unicode_len() > 0 {
                    Some(e)
                } else {
                    None
                },
                None => None,
            },
        }
    }

    /// The prompt shown when asking for the password.
    pub fn prompt_text(&self) -> (res: String)
        ensures
            res@ == "Mot de passe IMAP pour "@ + self.email@ + " : "@,
    {
        let mut s = owned("Mot de passe IMAP pour ");
        s.append(self.email.as_str());
        s.append(" : ");
        s
    }

    /// The export parameters of the command line, with the password resolved.
    pub fn into_config(self, password: String) -> (cfg: ExportConfig)
        ensures
            cfg.email == self.email,
            cfg.password == password,
            cfg.output == self.output,
            cfg.server == self.server,
            cfg.port == self.port,
            cfg.folders == self.folders,
            cfg.limit == self.limit,
            cfg.batch_size == self.batch_size,
    {
        ExportConfig {
            email: self.email,
            password,
            output: self.output,
            server: self.server,
            port: self.port,
            folders: self.folders,
            limit: self.limit,
            batch_size: self.batch_size,
        }
    }
}

} // verus!
