# Infomaniak mail exporter, verified core

Exports every folder of an IMAP mailbox (read-only, `EXAMINE`) to raw `.eml`
files, extracts attachments, and writes an `index.csv` per account; an
`.export_state.json` file makes the export resumable, and a resumed export
keeps the index rows of the mails exported before.

- `src/` is the library, verified with Verus: file naming (`naming`), the
  resume state (`state`), the decisions of an export run as a state machine
  (`runner`), what is read of a parsed mail (`mail`), the index rows and their
  order (`index`), what the graphical interface shows (`progress`) and the
  command-line parameters (`cli`).
- `app/` is the program around it: IMAP connection, files, JSON and CSV,
  the command line and the egui interface. Started under a name ending in
  `-gui`, it opens the graphical interface.
- `tests/` runs the library on concrete values.
