//! Rows of the per-account `index.csv`: one per exported mail, sorted by folder
//! then date before they are written.

use vstd::prelude::*;
use crate::text::{chars_of, concat, push_char, decimal, decimal_string, owned};
use crate::mail::MailMeta;
use crate::state::{ExportState, FolderView, folder_in, exported_keys};

verus! {

/// One line of the index.
#[derive(Debug)]
pub struct Row {
    pub folder: String,
    pub uid: u32,
    pub date: String,
    pub from: String,
    pub to: String,
    pub subject: String,
    pub attachments: usize,
    /// Path of the `.eml` file relative to the account directory.
    pub file: String,
}

/// Accumulates the index rows of an account.
#[derive(Debug)]
pub struct IndexWriter {
    rows: Vec<Row>,
}

/// The row recorded for a mail of `folder` with UID `uid` and metadata `meta`.
pub open spec fn row_of(folder: Seq<char>, uid: u32, meta: MailMeta) -> (Seq<char>, u32, Seq<
    char,
>, Seq<char>, Seq<char>, Seq<char>, usize, Seq<char>) {
    (folder, uid, meta.date@, meta.from@, meta.to@, meta.subject@, meta.attachment_count, folder
        + seq!['/'] + meta.eml_relative@)
}

/// The contents of a row.
pub open spec fn row_view(r: Row) -> (Seq<char>, u32, Seq<char>, Seq<char>, Seq<char>, Seq<
    char,
>, usize, Seq<char>) {
    (r.folder@, r.uid, r.date@, r.from@, r.to@, r.subject@, r.attachments, r.file@)
}

/// The contents of a sequence of rows.
pub open spec fn rows_view(rows: Seq<Row>) -> Seq<
    (Seq<char>, u32, Seq<char>, Seq<char>, Seq<char>, Seq<char>, usize, Seq<char>),
> {
    rows.map_values(|r: Row| row_view(r))
}

impl IndexWriter {
    /// The rows added so far, in the order of addition.
    pub closed spec fn rows(&self) -> Seq<Row> {
        self.rows@
    }

    /// An index with no row.
    pub fn new() -> (res: IndexWriter)
        ensures
            res.rows() == Seq::<Row>::empty(),
    {
        IndexWriter { rows: Vec::new() }
    }

    /// Records the row of a mail of `folder` with UID `uid`; its file is
    /// `<folder>/<eml name>`.
    pub fn add(&mut self, folder: &str, uid: u32, meta: &MailMeta)
        ensures
            final(self).rows().len() == old(self).rows().len() + 1,
            final(self).rows().drop_last() == old(self).rows(),
            row_view(final(self).rows().last()) == row_of(folder@, uid, *meta),
    {
        let mut file = owned(folder);
        push_char(&mut file, '/');
        file.append(meta.eml_relative.as_str());
        let row = Row {
            folder: owned(folder),
            uid,
            date: meta.date.clone(),
            from: meta.from.clone(),
            to: meta.to.clone(),
            subject: meta.subject.clone(),
            attachments: meta.attachment_count,
            file,
        };
        self.rows.push(row);
        assert(self.rows@.drop_last() == old(self).rows@);
    }

    /// Number of rows added.
    pub fn len(&self) -> (n: usize)
        ensures
            n == self.rows().len(),
    {
        self.rows.len()
    }

    /// Whether no row was added.
    pub fn is_empty(&self) -> (res: bool)
        ensures
            res == (self.rows().len() == 0),
    {
        self.rows.len() == 0
    }
}

impl Default for IndexWriter {
    /// An index with no row.
    fn default() -> (res: IndexWriter)
        ensures
            res.rows() == Seq::<Row>::empty(),
    {
        IndexWriter::new()
    }
}

/// The rows of `rows` whose folder is not `folder`, in order.
pub open spec fn rows_outside(
    rows: Seq<(Seq<char>, u32, Seq<char>, Seq<char>, Seq<char>, Seq<char>, usize, Seq<char>)>,
    folder: Seq<char>,
) -> Seq<(Seq<char>, u32, Seq<char>, Seq<char>, Seq<char>, Seq<char>, usize, Seq<char>)>
    decreases rows.len(),
{
    if rows.len() == 0 {
        rows
    } else if rows.last().0 == folder {
        rows_outside(rows.drop_last(), folder)
    } else {
        rows_outside(rows.drop_last(), folder).push(rows.last())
    }
}

/// The rows of `rows` whose UID is exported in their folder according to
/// `state`, in order.
pub open spec fn rows_in_state(
    rows: Seq<(Seq<char>, u32, Seq<char>, Seq<char>, Seq<char>, Seq<char>, usize, Seq<char>)>,
    state: Map<Seq<char>, FolderView>,
) -> Seq<(Seq<char>, u32, Seq<char>, Seq<char>, Seq<char>, Seq<char>, usize, Seq<char>)>
    decreases rows.len(),
{
    if rows.len() == 0 {
        rows
    } else if folder_in(state, rows.last().0).exported.contains(rows.last().1) {
        rows_in_state(rows.drop_last(), state).push(rows.last())
    } else {
        rows_in_state(rows.drop_last(), state)
    }
}

/// The (folder, UID) pairs that rows describe.
pub open spec fn index_keys(
    rows: Seq<(Seq<char>, u32, Seq<char>, Seq<char>, Seq<char>, Seq<char>, usize, Seq<char>)>,
) -> Set<(Seq<char>, u32)> {
    Set::new(
        |k: (Seq<char>, u32)| exists|i: int| 0 <= i < rows.len() && #[trigger] rows[i].0 == k.0 && rows[i].1 == k.1,
    )
}

impl IndexWriter {
    /// An index holding `rows`, in this order (as read back from an earlier
    /// `index.csv`).
    pub fn from_rows(rows: Vec<Row>) -> (res: IndexWriter)
        ensures
            res.rows() == rows@,
    {
        IndexWriter { rows }
    }

    /// Removes the rows of `folder`, keeping the others in order.
    pub fn drop_folder(&mut self, folder: &str)
        ensures
            rows_view(final(self).rows()) == rows_outside(rows_view(old(self).rows()), folder@),
    {
        let mut old_rows: Vec<Row> = Vec::new();
        std::mem::swap(&mut old_rows, &mut self.rows);
        let ghost all = old_rows@;
        for r in it: old_rows
            invariant
                it.seq() == all,
                rows_view(self.rows@) == rows_outside(rows_view(all.take(it.index() as int)), folder@),
        {
            let ghost k = it.index() as int;
            proof {
                assert(rows_view(all.take(k + 1)).drop_last() =~= rows_view(all.take(k)));
                assert(rows_view(all.take(k + 1)).last() == row_view(r));
            }
            if !crate::text::same_text(r.folder.as_str(), folder) {
                let ghost before = rows_view(self.rows@);
                self.rows.push(r);
                assert(rows_view(self.rows@) =~= before.push(row_view(r)));
            }
        }
        proof {
            assert(all.take(all.len() as int) =~= all);
        }
    }

    /// Keeps the rows whose UID `state` records as exported in their folder.
    pub fn keep_exported(&mut self, state: &ExportState)
        requires
            state.wf(),
        ensures
            rows_view(final(self).rows()) == rows_in_state(rows_view(old(self).rows()), state@),
    {
        let mut old_rows: Vec<Row> = Vec::new();
        std::mem::swap(&mut old_rows, &mut self.rows);
        let ghost all = old_rows@;
        for r in it: old_rows
            invariant
                it.seq() == all,
                state.wf(),
                rows_view(self.rows@) == rows_in_state(rows_view(all.take(it.index() as int)), state@),
        {
            let ghost k = it.index() as int;
            proof {
                assert(rows_view(all.take(k + 1)).drop_last() =~= rows_view(all.take(k)));
                assert(rows_view(all.take(k + 1)).last() == row_view(r));
            }
            let keep = match state.folder(r.folder.as_str()) {
                Some(f) => f.is_exported(r.uid),
                None => false,
            };
            if keep {
                let ghost before = rows_view(self.rows@);
                self.rows.push(r);
                assert(rows_view(self.rows@) =~= before.push(row_view(r)));
            }
        }
        proof {
            assert(all.take(all.len() as int) =~= all);
        }
    }
}

/// A row added to the index adds its (folder, UID) pair.
pub proof fn lemma_index_keys_push(
    rows: Seq<(Seq<char>, u32, Seq<char>, Seq<char>, Seq<char>, Seq<char>, usize, Seq<char>)>,
    r: (Seq<char>, u32, Seq<char>, Seq<char>, Seq<char>, Seq<char>, usize, Seq<char>),
)
    ensures
        index_keys(rows.push(r)) == index_keys(rows).insert((r.0, r.1)),
{
    let p = rows.push(r);
    assert forall|k: (Seq<char>, u32)| #[trigger] index_keys(p).contains(k) <==> index_keys(rows).insert((r.0, r.1)).contains(k) by {
        if index_keys(p).contains(k) {
            let i = choose|i: int| 0 <= i < p.len() && #[trigger] p[i].0 == k.0 && p[i].1 == k.1;
            if i < rows.len() {
                assert(rows[i] == p[i]);
            }
        }
        if index_keys(rows).contains(k) {
            let i = choose|i: int| 0 <= i < rows.len() && #[trigger] rows[i].0 == k.0 && rows[i].1 == k.1;
            assert(p[i] == rows[i]);
        }
        if k == (r.0, r.1) {
            assert(p[rows.len() as int] == r);
        }
    }
    assert(index_keys(p) =~= index_keys(rows).insert((r.0, r.1)));
}

/// Dropping the rows of a folder drops its pairs and only those.
pub proof fn lemma_index_keys_outside(
    rows: Seq<(Seq<char>, u32, Seq<char>, Seq<char>, Seq<char>, Seq<char>, usize, Seq<char>)>,
    folder: Seq<char>,
)
    ensures
        index_keys(rows_outside(rows, folder)) == index_keys(rows).filter(
            |k: (Seq<char>, u32)| k.0 != folder,
        ),
    decreases rows.len(),
{
    if rows.len() == 0 {
        assert(index_keys(rows) =~= Set::empty());
        assert(index_keys(rows_outside(rows, folder)) =~= Set::empty());
        assert(index_keys(rows).filter(|k: (Seq<char>, u32)| k.0 != folder) =~= Set::empty());
    } else {
        let init = rows.drop_last();
        let last = rows.last();
        lemma_index_keys_outside(init, folder);
        assert(rows =~= init.push(last));
        lemma_index_keys_push(init, last);
        if last.0 != folder {
            lemma_index_keys_push(rows_outside(init, folder), last);
        }
        assert(index_keys(rows_outside(rows, folder)) =~= index_keys(rows).filter(
            |k: (Seq<char>, u32)| k.0 != folder,
        ));
    }
}

/// Keeping the rows of exported mails keeps the pairs that the state records.
pub proof fn lemma_index_keys_in_state(
    rows: Seq<(Seq<char>, u32, Seq<char>, Seq<char>, Seq<char>, Seq<char>, usize, Seq<char>)>,
    state: Map<Seq<char>, FolderView>,
)
    ensures
        index_keys(rows_in_state(rows, state)) == index_keys(rows).intersect(exported_keys(state)),
    decreases rows.len(),
{
    if rows.len() == 0 {
        assert(index_keys(rows) =~= Set::empty());
        assert(index_keys(rows_in_state(rows, state)) =~= Set::empty());
        assert(index_keys(rows).intersect(exported_keys(state)) =~= Set::empty());
    } else {
        let init = rows.drop_last();
        let last = rows.last();
        lemma_index_keys_in_state(init, state);
        assert(rows =~= init.push(last));
        lemma_index_keys_push(init, last);
        if folder_in(state, last.0).exported.contains(last.1) {
            lemma_index_keys_push(rows_in_state(init, state), last);
        }
        assert(index_keys(rows_in_state(rows, state)) =~= index_keys(rows).intersect(
            exported_keys(state),
        ));
    }
}

/// An index is empty exactly when nothing was added to it: along a sequence of
/// writers, the first new (no row) and each one the previous after one `add`
/// (one row more), the `k`-th holds `k` rows, so `is_empty` holds only of the
/// first.
pub proof fn law_is_empty_iff_nothing_added(writers: Seq<IndexWriter>)
    requires
        writers.len() > 0,
        writers[0].rows().len() == 0,
        forall|i: int|
            0 <= i < writers.len() - 1 ==> (#[trigger] writers[i + 1]).rows().len() == writers[i].rows().len()
                + 1,
    ensures
        forall|i: int| 0 <= i < writers.len() ==> (#[trigger] writers[i]).rows().len() == i,
        (writers.last().rows().len() == 0) == (writers.len() == 1),
    decreases writers.len(),
{
    if writers.len() > 1 {
        let init = writers.drop_last();
        assert forall|i: int| 0 <= i < init.len() - 1 implies (#[trigger] init[i + 1]).rows().len()
            == init[i].rows().len() + 1 by {
            assert(init[i + 1] == writers[i + 1] && init[i] == writers[i]);
        }
        law_is_empty_iff_nothing_added(init);
        assert forall|i: int| 0 <= i < writers.len() implies (#[trigger] writers[i]).rows().len()
            == i by {
            if i < writers.len() - 1 {
                assert(init[i] == writers[i]);
            } else {
                assert(init[i - 1] == writers[i - 1]);
                assert(writers[i - 1 + 1] == writers[i]);
            }
        }
    }
}

// ---------------------------------------------------------------------------
// Ordering of the rows
// ---------------------------------------------------------------------------

/// Strict lexicographic order of texts by code points (the order of `str`'s
/// `Ord`, which compares UTF-8 bytes: UTF-8 preserves the order of code points).
pub open spec fn text_lt(a: Seq<char>, b: Seq<char>) -> bool
    decreases a.len(),
{
    if a.len() == 0 {
        b.len() > 0
    } else if b.len() == 0 {
        false
    } else if a[0] != b[0] {
        (a[0] as int) < (b[0] as int)
    } else {
        text_lt(a.drop_first(), b.drop_first())
    }
}

/// Row `x` comes strictly after row `y`: by folder, then by date.
pub open spec fn row_after(x: Row, y: Row) -> bool {
    text_lt(y.folder@, x.folder@) || (x.folder@ == y.folder@ && text_lt(y.date@, x.date@))
}

/// `s` (sorted) with `x` inserted after every row that does not come after it.
pub open spec fn insert_row(s: Seq<Row>, x: Row) -> Seq<Row>
    decreases s.len(),
{
    if s.len() == 0 {
        seq![x]
    } else if row_after(s.last(), x) {
        insert_row(s.drop_last(), x).push(s.last())
    } else {
        s.push(x)
    }
}

/// Stable insertion sort of rows by folder then date.
pub open spec fn sort_rows(s: Seq<Row>) -> Seq<Row>
    decreases s.len(),
{
    if s.len() == 0 {
        Seq::empty()
    } else {
        insert_row(sort_rows(s.drop_last()), s.last())
    }
}

/// Whether text `a` comes strictly before text `b`.
pub fn text_less(a: &str, b: &str) -> (res: bool)
    ensures
        res == text_lt(a@, b@),
{
    let x = chars_of(a);
    let y = chars_of(b);
    let mut i: usize = 0;
    assert(x@.skip(0) == x@ && y@.skip(0) == y@);
    while i < x.len() && i < y.len() && x[i] == y[i]
        invariant
            x@ == a@,
            y@ == b@,
            i <= x@.len(),
            i <= y@.len(),
            text_lt(a@, b@) == text_lt(x@.skip(i as int), y@.skip(i as int)),
        decreases x@.len() - i,
    {
        assert(x@.skip(i as int).drop_first() == x@.skip(i + 1));
        assert(y@.skip(i as int).drop_first() == y@.skip(i + 1));
        i += 1;
    }
    if i == x.len() {
        assert(x@.skip(i as int).len() == 0);
        i < y.len()
    } else if i == y.len() {
        false
    } else {
        assert(x@.skip(i as int)[0] == x@[i as int]);
        assert(y@.skip(i as int)[0] == y@[i as int]);
        x[i] < y[i]
    }
}

fn after(x: &Row, y: &Row) -> (res: bool)
    ensures
        res == row_after(*x, *y),
{
    if text_less(y.folder.as_str(), x.folder.as_str()) {
        true
    } else {
        let same_folder = x.folder == y.folder;
        same_folder && text_less(y.date.as_str(), x.date.as_str())
    }
}

fn insert_sorted(out: &mut Vec<Row>, x: Row)
    ensures
        final(out)@ == insert_row(old(out)@, x),
{
    let mut p = out.len();
    assert(old(out)@.take(p as int) == old(out)@);
    assert(old(out)@.skip(p as int) == Seq::<Row>::empty());
    while p > 0 && after(&out[p - 1], &x)
        invariant
            out@ == old(out)@,
            p <= out@.len(),
            insert_row(out@, x) == insert_row(out@.take(p as int), x) + out@.skip(p as int),
        decreases p,
    {
        assert(out@.take(p as int).drop_last() == out@.take(p - 1));
        assert(out@.take(p as int).last() == out@[p - 1]);
        assert(insert_row(out@.take(p as int), x) == insert_row(out@.take(p - 1), x).push(
            out@[p - 1],
        ));
        assert(out@.skip(p - 1) == seq![out@[p - 1]] + out@.skip(p as int));
        assert(insert_row(out@.take(p - 1), x).push(out@[p - 1]) + out@.skip(p as int)
            == insert_row(out@.take(p - 1), x) + out@.skip(p - 1));
        p -= 1;
    }
    let ghost before = out@;
    if p > 0 {
        assert(before.take(p as int).last() == before[p - 1]);
        assert(before.take(p as int).drop_last() == before.take(p - 1));
    }
    out.insert(p, x);
    assert(out@ == before.take(p as int).push(x) + before.skip(p as int));
}

impl IndexWriter {
    /// The rows sorted by folder then date, rows with equal keys keeping the
    /// order in which they were added.
    pub fn sorted_rows(self) -> (res: Vec<Row>)
        ensures
            res@ == sort_rows(self.rows()),
    {
        let mut out: Vec<Row> = Vec::new();
        let ghost all = self.rows@;
        for r in it: self.rows
            invariant
                it.seq() == all,
                out@ == sort_rows(all.take(it.index() as int)),
        {
            let ghost k = it.index() as int;
            proof {
                assert(all.take(k + 1).drop_last() == all.take(k));
                assert(all.take(k + 1).last() == r);
            }
            insert_sorted(&mut out, r);
        }
        assert(all.take(all.len() as int) == all);
        out
    }
}

// ---------------------------------------------------------------------------
// CSV records
// ---------------------------------------------------------------------------

/// The header record of `index.csv`.
pub open spec fn header_record() -> Seq<Seq<char>> {
    seq![
        "folder"@,
        "uid"@,
        "date"@,
        "from"@,
        "to"@,
        "subject"@,
        "attachments"@,
        "file"@,
    ]
}

/// The record of a row: folder, UID, date, sender, recipient, subject, number
/// of attachments, file.
pub open spec fn row_record(r: Row) -> Seq<Seq<char>> {
    seq![
        r.folder@,
        decimal(r.uid as nat),
        r.date@,
        r.from@,
        r.to@,
        r.subject@,
        decimal(r.attachments as nat),
        r.file@,
    ]
}

/// The texts of a record.
pub open spec fn record_view(r: Vec<String>) -> Seq<Seq<char>> {
    r@.map_values(|s: String| s@)
}

fn header() -> (res: Vec<String>)
    ensures
        record_view(res) == header_record(),
{
    let res = vec![
        owned("folder"),
        owned("uid"),
        owned("date"),
        owned("from"),
        owned("to"),
        owned("subject"),
        owned("attachments"),
        owned("file"),
    ];
    assert(record_view(res) =~= header_record());
    res
}

fn record(r: Row) -> (res: Vec<String>)
    ensures
        record_view(res) == row_record(r),
{
    let uid = decimal_string(r.uid as u64);
    let attachments = decimal_string(r.attachments as u64);
    let res = vec![r.folder, uid, r.date, r.from, r.to, r.subject, attachments, r.file];
    assert(record_view(res) =~= row_record(r));
    res
}

impl IndexWriter {
    /// The records of `index.csv`: the header, then one record per row, the rows
    /// sorted by folder then date (stably).
    pub fn into_records(self) -> (res: Vec<Vec<String>>)
        ensures
            res@.len() == self.rows().len() + 1,
            record_view(res@[0]) == header_record(),
            forall|i: int|
                0 <= i < self.rows().len() ==> record_view(#[trigger] res@[i + 1]) == row_record(
                    sort_rows(self.rows())[i],
                ),
    {
        let ghost rows = self.rows();
        let sorted = self.sorted_rows();
        proof {
            lemma_sort_rows_len(rows);
        }
        let mut res: Vec<Vec<String>> = Vec::new();
        res.push(header());
        let ghost all = sorted@;
        for r in it: sorted
            invariant
                it.seq() == all,
                all == sort_rows(rows),
                all.len() == rows.len(),
                res@.len() == it.index() + 1,
                record_view(res@[0]) == header_record(),
                forall|i: int|
                    0 <= i < it.index() ==> record_view(#[trigger] res@[i + 1]) == row_record(
                        all[i],
                    ),
        {
            let ghost k = it.index() as int;
            assert(all[k] == r);
            res.push(record(r));
        }
        res
    }
}

/// Sorting keeps the number of rows.
pub proof fn lemma_sort_rows_len(s: Seq<Row>)
    ensures
        sort_rows(s).len() == s.len(),
    decreases s.len(),
{
    if s.len() > 0 {
        lemma_sort_rows_len(s.drop_last());
        lemma_insert_row_len(sort_rows(s.drop_last()), s.last());
    }
}

proof fn lemma_insert_row_len(s: Seq<Row>, x: Row)
    ensures
        insert_row(s, x).len() == s.len() + 1,
    decreases s.len(),
{
    if s.len() > 0 && row_after(s.last(), x) {
        lemma_insert_row_len(s.drop_last(), x);
    }
}

// ---------------------------------------------------------------------------
// Laws of the index order
// ---------------------------------------------------------------------------

/// The text order is a strict total order: irreflexive, asymmetric,
/// transitive, and any two different texts are ordered.
pub proof fn lemma_text_lt_order(a: Seq<char>, b: Seq<char>, c: Seq<char>)
    ensures
        !text_lt(a, a),
        text_lt(a, b) ==> !text_lt(b, a),
        text_lt(a, b) && text_lt(b, c) ==> text_lt(a, c),
        a != b ==> text_lt(a, b) || text_lt(b, a),
    decreases a.len(),
{
    if a.len() > 0 {
        lemma_text_lt_order(a.drop_first(), a.drop_first(), a.drop_first());
        if b.len() > 0 {
            lemma_text_lt_order(a.drop_first(), b.drop_first(), b.drop_first());
            if c.len() > 0 {
                lemma_text_lt_order(a.drop_first(), b.drop_first(), c.drop_first());
            }
            if a[0] == b[0] {
                assert(text_lt(a, b) == text_lt(a.drop_first(), b.drop_first()));
                assert(text_lt(b, a) == text_lt(b.drop_first(), a.drop_first()));
                if a != b {
                    assert(a.drop_first() != b.drop_first()) by {
                        if a.drop_first() == b.drop_first() {
                            assert(a =~= seq![a[0]] + a.drop_first());
                            assert(b =~= seq![b[0]] + b.drop_first());
                        }
                    }
                }
            } else {
                assert((a[0] as int) != (b[0] as int));
            }
        }
    } else {
        if b.len() == 0 {
            assert(a =~= b);
        }
    }
}

/// Row `x` does not come after row `y`.
pub open spec fn row_le(x: Row, y: Row) -> bool {
    !row_after(x, y)
}

/// Rows in order by folder then date.
pub open spec fn rows_sorted(s: Seq<Row>) -> bool {
    forall|i: int, j: int| 0 <= i < j < s.len() ==> row_le(#[trigger] s[i], #[trigger] s[j])
}

proof fn lemma_row_order(x: Row, y: Row, z: Row)
    ensures
        row_after(x, y) ==> row_le(y, x),
        row_le(x, y) && row_le(y, z) ==> row_le(x, z),
        !row_after(x, x),
{
    lemma_text_lt_order(x.folder@, y.folder@, z.folder@);
    lemma_text_lt_order(z.folder@, y.folder@, x.folder@);
    lemma_text_lt_order(y.folder@, x.folder@, z.folder@);
    lemma_text_lt_order(x.date@, y.date@, z.date@);
    lemma_text_lt_order(z.date@, y.date@, x.date@);
    lemma_text_lt_order(y.date@, x.date@, z.date@);
    lemma_text_lt_order(y.folder@, z.folder@, x.folder@);
    lemma_text_lt_order(y.date@, z.date@, x.date@);
    lemma_text_lt_order(x.folder@, z.folder@, y.folder@);
    lemma_text_lt_order(x.date@, z.date@, y.date@);
    lemma_text_lt_order(z.folder@, x.folder@, y.folder@);
    lemma_text_lt_order(z.date@, x.date@, y.date@);
}

proof fn lemma_insert_row_elems(s: Seq<Row>, x: Row)
    ensures
        insert_row(s, x).to_multiset() == s.to_multiset().insert(x),
        forall|i: int|
            0 <= i < insert_row(s, x).len() ==> #[trigger] insert_row(s, x)[i] == x || s.contains(
                insert_row(s, x)[i],
            ),
    decreases s.len(),
{
    broadcast use vstd::seq_lib::group_to_multiset_ensures;
    if s.len() == 0 {
        assert(seq![x] == Seq::<Row>::empty().push(x));
    } else if row_after(s.last(), x) {
        let init = s.drop_last();
        lemma_insert_row_elems(init, x);
        let r = insert_row(s, x);
        let q = insert_row(init, x);
        assert(s == init.push(s.last()));
        assert(r.to_multiset() == q.to_multiset().insert(s.last()));
        assert(s.to_multiset() == init.to_multiset().insert(s.last()));
        assert(r.to_multiset() =~= s.to_multiset().insert(x));
        assert forall|i: int| 0 <= i < r.len() implies #[trigger] r[i] == x || s.contains(r[i]) by {
            if i < q.len() {
                assert(r[i] == q[i]);
                if q[i] != x {
                    let k = choose|k: int| 0 <= k < init.len() && init[k] == q[i];
                    assert(s[k] == q[i]);
                }
            } else {
                assert(r[i] == s[s.len() - 1]);
            }
        }
    } else {
        let r = insert_row(s, x);
        assert forall|i: int| 0 <= i < r.len() implies #[trigger] r[i] == x || s.contains(r[i]) by {
            if i < s.len() {
                assert(r[i] == s[i]);
            }
        }
    }
}

proof fn lemma_insert_row_sorted(s: Seq<Row>, x: Row)
    requires
        rows_sorted(s),
    ensures
        rows_sorted(insert_row(s, x)),
    decreases s.len(),
{
    if s.len() == 0 {
    } else if row_after(s.last(), x) {
        let init = s.drop_last();
        let last = s.last();
        assert(rows_sorted(init)) by {
            assert forall|i: int, j: int| 0 <= i < j < init.len() implies row_le(
                #[trigger] init[i],
                #[trigger] init[j],
            ) by {
                assert(init[i] == s[i] && init[j] == s[j]);
            }
        }
        lemma_insert_row_sorted(init, x);
        lemma_insert_row_elems(init, x);
        let q = insert_row(init, x);
        let r = insert_row(s, x);
        lemma_row_order(last, x, x);
        assert forall|i: int, j: int| 0 <= i < j < r.len() implies row_le(
            #[trigger] r[i],
            #[trigger] r[j],
        ) by {
            if j < q.len() {
                assert(r[i] == q[i] && r[j] == q[j]);
            } else {
                assert(r[j] == last);
                assert(r[i] == q[i]);
                if q[i] != x {
                    let k = choose|k: int| 0 <= k < init.len() && init[k] == q[i];
                    assert(s[k] == init[k]);
                    assert(row_le(s[k], s[s.len() - 1]));
                }
            }
        }
    } else {
        let r = insert_row(s, x);
        let last = s.last();
        assert forall|i: int, j: int| 0 <= i < j < r.len() implies row_le(
            #[trigger] r[i],
            #[trigger] r[j],
        ) by {
            if j < s.len() {
                assert(r[i] == s[i] && r[j] == s[j]);
            } else {
                assert(r[j] == x && r[i] == s[i]);
                if i < s.len() - 1 {
                    assert(row_le(s[i], s[s.len() - 1]));
                    lemma_row_order(s[i], last, x);
                }
            }
        }
    }
}

/// The rows of `s` whose folder and date are `folder` and `date`, in order.
pub open spec fn with_key(s: Seq<Row>, folder: Seq<char>, date: Seq<char>) -> Seq<Row>
    decreases s.len(),
{
    if s.len() == 0 {
        Seq::empty()
    } else if s.last().folder@ == folder && s.last().date@ == date {
        with_key(s.drop_last(), folder, date).push(s.last())
    } else {
        with_key(s.drop_last(), folder, date)
    }
}

proof fn lemma_insert_row_key(s: Seq<Row>, x: Row, folder: Seq<char>, date: Seq<char>)
    ensures
        with_key(insert_row(s, x), folder, date) == if x.folder@ == folder && x.date@ == date {
            with_key(s, folder, date).push(x)
        } else {
            with_key(s, folder, date)
        },
    decreases s.len(),
{
    if s.len() == 0 {
        assert(insert_row(s, x) == seq![x]);
        assert(seq![x].drop_last() == Seq::<Row>::empty());
        assert(seq![x].last() == x);
        assert(with_key(Seq::<Row>::empty(), folder, date) == Seq::<Row>::empty());
        assert(Seq::<Row>::empty().push(x) == seq![x]);
    } else if row_after(s.last(), x) {
        let init = s.drop_last();
        let last = s.last();
        lemma_insert_row_key(init, x, folder, date);
        lemma_text_lt_order(x.folder@, x.folder@, x.folder@);
        lemma_text_lt_order(x.date@, x.date@, x.date@);
        let r = insert_row(s, x);
        let q = insert_row(init, x);
        assert(r == q.push(last));
        assert(r.drop_last() == q);
        assert(r.last() == last);
        assert(s.drop_last() == init);
        let kl = last.folder@ == folder && last.date@ == date;
        let kx = x.folder@ == folder && x.date@ == date;
        assert(with_key(r, folder, date) == if kl {
            with_key(q, folder, date).push(last)
        } else {
            with_key(q, folder, date)
        });
        assert(with_key(s, folder, date) == if kl {
            with_key(init, folder, date).push(last)
        } else {
            with_key(init, folder, date)
        });
        if kx {
            assert(!kl);
        }
    } else {
        let r = insert_row(s, x);
        assert(r == s.push(x));
        assert(r.drop_last() == s);
        assert(r.last() == x);
    }
}

/// Sorting the index puts the rows in order of folder then date, keeps every
/// row (the same rows, as many times each), and is stable: rows with the same
/// folder and date keep the order in which they were added.
pub proof fn law_sort_rows(s: Seq<Row>)
    ensures
        rows_sorted(sort_rows(s)),
        sort_rows(s).to_multiset() == s.to_multiset(),
        forall|folder: Seq<char>, date: Seq<char>|
            #[trigger] with_key(sort_rows(s), folder, date) == with_key(s, folder, date),
    decreases s.len(),
{
    broadcast use vstd::seq_lib::group_to_multiset_ensures;
    if s.len() > 0 {
        let init = s.drop_last();
        law_sort_rows(init);
        let q = sort_rows(init);
        lemma_insert_row_sorted(q, s.last());
        lemma_insert_row_elems(q, s.last());
        assert(s == init.push(s.last()));
        assert forall|folder: Seq<char>, date: Seq<char>|
            #[trigger] with_key(sort_rows(s), folder, date) == with_key(s, folder, date) by {
            lemma_insert_row_key(q, s.last(), folder, date);
            assert(with_key(q, folder, date) == with_key(init, folder, date));
        }
    } else {
        assert(s.to_multiset() =~= vstd::multiset::Multiset::empty());
        assert(sort_rows(s) =~= Seq::<Row>::empty());
    }
}

} // verus!
