//! Decisions of an export run, kept apart from the IMAP connection, the file
//! system and the display: which folders to export, which UIDs to fetch and in
//! which batches, and the events reported to the user interface.

use vstd::prelude::*;
use crate::text::{decimal, decimal_string, same_text, push_char};
use crate::state::{
    ExportState, FolderState, prepared, prepared_folder, folder_in, recorded, FolderView, exported_keys,
};
use crate::index::{
    index_keys, rows_in_state, lemma_index_keys_push, lemma_index_keys_outside, lemma_index_keys_in_state,
};

verus! {

broadcast use vstd::laws_cmp::group_laws_cmp, vstd::std_specs::btree::group_btree_axioms;

/// Parameters of an export, whatever their source (command line or form).
#[derive(Debug)]
pub struct ExportConfig {
    pub email: String,
    pub password: String,
    /// Output directory.
    pub output: String,
    pub server: String,
    pub port: u16,
    /// Folders to export; empty means all.
    pub folders: Vec<String>,
    /// Largest number of mails exported per folder; 0 means no limit.
    pub limit: usize,
    pub batch_size: usize,
}

/// Events reported while exporting, to drive a user interface or a terminal.
#[derive(Debug)]
pub enum ExportEvent {
    Connecting { server: String, port: u16 },
    FoldersListed { count: usize },
    FolderStarted { name: String, total: usize, already: usize },
    Mail { folder: String, subject: String },
    FolderSkipped { name: String, reason: String },
    FolderDone { name: String },
    Finished { total: usize },
}

/// An examined folder: its UIDVALIDITY and its UIDs in increasing order.
#[derive(Debug)]
pub struct FolderListing {
    pub uid_validity: Option<u32>,
    pub uids: Vec<u32>,
}

/// The texts of a sequence of strings.
pub open spec fn texts(v: Seq<String>) -> Seq<Seq<char>> {
    v.map_values(|s: String| s@)
}

// ---------------------------------------------------------------------------
// Folder selection
// ---------------------------------------------------------------------------

/// The folders of `all` that occur in `wanted`, in the order of `all`.
pub open spec fn kept_folders(all: Seq<Seq<char>>, wanted: Seq<Seq<char>>) -> Seq<Seq<char>>
    decreases all.len(),
{
    if all.len() == 0 {
        Seq::empty()
    } else if wanted.contains(all.last()) {
        kept_folders(all.drop_last(), wanted).push(all.last())
    } else {
        kept_folders(all.drop_last(), wanted)
    }
}

/// The folders exported: all of them when none is asked for, else those asked for.
pub open spec fn selected_folders(all: Seq<Seq<char>>, wanted: Seq<Seq<char>>) -> Seq<
    Seq<char>,
> {
    if wanted.len() == 0 {
        all
    } else {
        kept_folders(all, wanted)
    }
}

pub(crate) fn contains_text(list: &Vec<String>, s: &str) -> (res: bool)
    ensures
        res == texts(list@).contains(s@),
{
    let n = list.len();
    for i in 0..n
        invariant
            n == list@.len(),
            forall|j: int| 0 <= j < i ==> list@[j]@ != s@,
    {
        if same_text(list[i].as_str(), s) {
            assert(texts(list@)[i as int] == s@);
            return true;
        }
    }
    proof {
        if texts(list@).contains(s@) {
            let j = choose|j: int| 0 <= j < texts(list@).len() && texts(list@)[j] == s@;
            assert(list@[j]@ == s@);
        }
    }
    false
}

/// Keeps the folders of `all` that are asked for in `wanted` (all of them when
/// `wanted` is empty), in the server's order.
pub fn select_folders(all: Vec<String>, wanted: &Vec<String>) -> (res: Vec<String>)
    ensures
        texts(res@) == selected_folders(texts(all@), texts(wanted@)),
{
    if wanted.len() == 0 {
        return all;
    }
    let mut res: Vec<String> = Vec::new();
    let ghost all_t = texts(all@);
    let ghost wanted_t = texts(wanted@);
    let n = all.len();
    for f in it: all
        invariant
            it.seq() == all@,
            n == all@.len(),
            all_t == texts(all@),
            wanted_t == texts(wanted@),
            wanted_t.len() > 0,
            texts(res@) == kept_folders(all_t.take(it.index() as int), wanted_t),
    {
        let ghost k = it.index() as int;
        proof {
            assert(all_t.take(k + 1).drop_last() == all_t.take(k));
            assert(all_t.take(k + 1).last() == f@);
        }
        if contains_text(wanted, f.as_str()) {
            res.push(f);
            assert(texts(res@) == texts(res@.drop_last()).push(res@.last()@));
        }
    }
    assert(all_t.take(n as int) == all_t);
    res
}

// ---------------------------------------------------------------------------
// UIDs to fetch
// ---------------------------------------------------------------------------

/// The UIDs of `uids` not in `exported`, in order.
pub open spec fn pending(uids: Seq<u32>, exported: Set<u32>) -> Seq<u32>
    decreases uids.len(),
{
    if uids.len() == 0 {
        Seq::empty()
    } else if exported.contains(uids.last()) {
        pending(uids.drop_last(), exported)
    } else {
        pending(uids.drop_last(), exported).push(uids.last())
    }
}

/// The first `limit` elements of `s`, or all of them when `limit` is 0.
pub open spec fn limited(s: Seq<u32>, limit: nat) -> Seq<u32> {
    if limit > 0 && s.len() > limit {
        s.take(limit as int)
    } else {
        s
    }
}

/// `a - b`, or 0 when `b` exceeds `a`.
pub open spec fn saturating_sub(a: nat, b: nat) -> nat {
    if a >= b {
        (a - b) as nat
    } else {
        0
    }
}

/// What to do in one folder.
#[derive(Debug)]
pub struct FolderPlan {
    /// UIDs to fetch, in the order of the listing.
    pub to_fetch: Vec<u32>,
    /// How many UIDs of the listing are not fetched.
    pub already: usize,
}

/// The UIDs of `uids` that `folder` has not exported yet, in order, cut to the
/// first `limit` when `limit` is not 0.
pub fn pending_uids(folder: &FolderState, uids: &Vec<u32>, limit: usize) -> (res: Vec<u32>)
    ensures
        res@ == limited(pending(uids@, folder@.exported), limit as nat),
{
    let mut res: Vec<u32> = Vec::new();
    let n = uids.len();
    for i in 0..n
        invariant
            n == uids@.len(),
            res@ == pending(uids@.take(i as int), folder@.exported),
    {
        proof {
            assert(uids@.take(i + 1).drop_last() == uids@.take(i as int));
            assert(uids@.take(i + 1).last() == uids@[i as int]);
        }
        if !folder.is_exported(uids[i]) {
            res.push(uids[i]);
        }
    }
    assert(uids@.take(n as int) == uids@);
    if limit > 0 && res.len() > limit {
        res.truncate(limit);
    }
    res
}

impl ExportState {
    /// Prepares `folder` for the listing's UIDVALIDITY and says which of its UIDs
    /// to fetch: those not exported yet, in order, at most `limit` of them unless
    /// `limit` is 0; `already` counts the others.
    pub fn plan_folder(&mut self, folder: &str, listing: &FolderListing, limit: usize) -> (plan:
        FolderPlan)
        requires
            old(self).wf(),
        ensures
            final(self).wf(),
            final(self)@ == prepared(old(self)@, folder@, listing.uid_validity),
            plan.to_fetch@ == limited(
                pending(listing.uids@, final(self)@[folder@].exported),
                limit as nat,
            ),
            plan.already == saturating_sub(listing.uids@.len(), plan.to_fetch@.len()),
    {
        let fstate = self.folder_mut(folder, listing.uid_validity);
        let to_fetch = pending_uids(fstate, &listing.uids, limit);
        let already = listing.uids.len().saturating_sub(to_fetch.len());
        FolderPlan { to_fetch, already }
    }
}

// ---------------------------------------------------------------------------
// Batches
// ---------------------------------------------------------------------------

/// `s` cut into consecutive pieces of `n` elements (the last may be shorter).
pub open spec fn chunks(s: Seq<u32>, n: nat) -> Seq<Seq<u32>>
    decreases s.len(),
{
    if n == 0 || s.len() == 0 {
        Seq::empty()
    } else if s.len() <= n {
        seq![s]
    } else {
        seq![s.take(n as int)] + chunks(s.skip(n as int), n)
    }
}

/// The contents of a vector of vectors.
pub open spec fn nested(v: Seq<Vec<u32>>) -> Seq<Seq<u32>> {
    v.map_values(|b: Vec<u32>| b@)
}

/// Size of the fetch batches: the size asked for, but at least 1.
pub open spec fn effective_batch(batch_size: nat) -> nat {
    if batch_size == 0 {
        1
    } else {
        batch_size
    }
}

/// Cuts the UIDs to fetch into batches of `batch_size` (at least 1) UIDs each,
/// the last one possibly shorter, in order.
pub fn batches(uids: &Vec<u32>, batch_size: usize) -> (res: Vec<Vec<u32>>)
    ensures
        nested(res@) == chunks(uids@, effective_batch(batch_size as nat)),
{
    let size: usize = if batch_size == 0 {
        1
    } else {
        batch_size
    };
    let n = uids.len();
    let mut res: Vec<Vec<u32>> = Vec::new();
    let mut start: usize = 0;
    assert(uids@.skip(0) == uids@);
    while start < n
        invariant
            size >= 1,
            size == effective_batch(batch_size as nat),
            n == uids@.len(),
            start <= n,
            chunks(uids@, size as nat) == nested(res@) + chunks(uids@.skip(start as int), size as nat),
        decreases n - start,
    {
        let end: usize = if n - start <= size {
            n
        } else {
            start + size
        };
        let mut piece: Vec<u32> = Vec::new();
        let mut k = start;
        while k < end
            invariant
                start <= k <= end <= n == uids@.len(),
                piece@ == uids@.subrange(start as int, k as int),
            decreases end - k,
        {
            piece.push(uids[k]);
            assert(uids@.subrange(start as int, k + 1) == uids@.subrange(start as int, k as int).push(
                uids@[k as int],
            ));
            k += 1;
        }
        let ghost rest = uids@.skip(start as int);
        let ghost before = nested(res@);
        res.push(piece);
        proof {
            assert(nested(res@) == before.push(piece@));
            if n - start <= size {
                assert(rest == uids@.subrange(start as int, n as int));
                assert(chunks(rest, size as nat) == seq![rest]);
                assert(uids@.skip(end as int) == Seq::<u32>::empty());
                assert(before + seq![rest] == before.push(piece@) + Seq::<Seq<u32>>::empty());
            } else {
                assert(rest.take(size as int) == piece@);
                assert(rest.skip(size as int) == uids@.skip(end as int));
                assert(before + (seq![piece@] + chunks(uids@.skip(end as int), size as nat))
                    == before.push(piece@) + chunks(uids@.skip(end as int), size as nat));
            }
        }
        start = end;
    }
    assert(uids@.skip(n as int) == Seq::<u32>::empty());
    assert(nested(res@) + Seq::<Seq<u32>>::empty() == nested(res@));
    res
}

// ---------------------------------------------------------------------------
// IMAP helpers
// ---------------------------------------------------------------------------

/// The IMAP sequence set naming `uids`: their decimal numbers separated by ','.
pub open spec fn uid_set_text(uids: Seq<u32>) -> Seq<char>
    decreases uids.len(),
{
    if uids.len() == 0 {
        Seq::empty()
    } else if uids.len() == 1 {
        decimal(uids[0] as nat)
    } else {
        uid_set_text(uids.drop_last()) + seq![','] + decimal(uids.last() as nat)
    }
}

/// Renders the UIDs of a batch as an IMAP sequence set, "1,2,3".
pub fn uid_set(uids: &Vec<u32>) -> (res: String)
    ensures
        res@ == uid_set_text(uids@),
{
    let mut res = String::new();
    let n = uids.len();
    for i in 0..n
        invariant
            n == uids@.len(),
            res@ == uid_set_text(uids@.take(i as int)),
    {
        proof {
            assert(uids@.take(i + 1).drop_last() == uids@.take(i as int));
            assert(uids@.take(i + 1).last() == uids@[i as int]);
        }
        if i > 0 {
            push_char(&mut res, ',');
        } else {
            assert(uids@.take(1)[0] == uids@[0]);
        }
        let d = decimal_string(uids[i] as u64);
        res.append(d.as_str());
    }
    assert(uids@.take(n as int) == uids@);
    res
}

/// Whether `s` is in nondecreasing order.
pub open spec fn sorted(s: Seq<u32>) -> bool {
    forall|i: int, j: int| 0 <= i < j < s.len() ==> s[i] <= s[j]
}

/// A folder listing with its UIDs sorted in increasing order (the order of a
/// SEARCH answer is not specified).
pub fn sorted_listing(uid_validity: Option<u32>, uids: Vec<u32>) -> (res: FolderListing)
    ensures
        res.uid_validity == uid_validity,
        sorted(res.uids@),
        res.uids@.to_multiset() == uids@.to_multiset(),
{
    let mut v = uids;
    let n = v.len();
    let mut i: usize = 1;
    if n == 0 {
        return FolderListing { uid_validity, uids: v };
    }
    while i < n
        invariant
            1 <= i <= n == v@.len(),
            sorted(v@.take(i as int)),
            v@.to_multiset() == uids@.to_multiset(),
        decreases n - i,
    {
        let mut j = i;
        assert forall|a: int, b: int| 0 <= a < b <= i && a != j && b != j implies v@[a] <= v@[b] by {
            assert(v@.take(i as int)[a] == v@[a] && v@.take(i as int)[b] == v@[b]);
        }
        while j > 0 && v[j - 1] > v[j]
            invariant
                0 <= j <= i < n == v@.len(),
                v@.to_multiset() == uids@.to_multiset(),
                forall|a: int, b: int| 0 <= a < b <= i && a != j && b != j ==> v@[a] <= v@[b],
                forall|b: int| j < b <= i ==> v@[j as int] <= v@[b],
            decreases j,
        {
            let a = v[j - 1];
            let b = v[j];
            let ghost before = v@;
            v.set(j - 1, b);
            v.set(j, a);
            proof {
                assert(v@ == before.update(j - 1, b).update(j as int, a));
                lemma_swap_multiset(before, j - 1, j as int);
            }
            j -= 1;
        }
        assert(sorted(v@.take(i + 1))) by {
            assert forall|a: int, b: int| 0 <= a < b < i + 1 implies #[trigger] v@.take(i + 1)[a]
                <= #[trigger] v@.take(i + 1)[b] by {
                if a != j && b != j {
                } else if a == j {
                } else if a < j - 1 {
                    assert(v@[a] <= v@[j - 1]);
                }
            }
        }
        i += 1;
    }
    assert(v@.take(n as int) == v@);
    FolderListing { uid_validity, uids: v }
}

proof fn lemma_swap_multiset(s: Seq<u32>, i: int, j: int)
    requires
        0 <= i < j < s.len(),
    ensures
        s.update(i, s[j]).update(j, s[i]).to_multiset() == s.to_multiset(),
{
    broadcast use vstd::seq_lib::group_to_multiset_ensures;
    let t = s.update(i, s[j]);
    assert(t.to_multiset() == s.to_multiset().remove(s[i]).insert(s[j]));
    assert(t.update(j, s[i]).to_multiset() == t.to_multiset().remove(s[j]).insert(s[i]));
    assert(s.to_multiset().remove(s[i]).insert(s[j]).remove(s[j]).insert(s[i]) =~= s.to_multiset());
}

/// The names of the folders that can be selected: a folder listed with the
/// `\Noselect` attribute is left out.
pub open spec fn selectable(names: Seq<(String, bool)>) -> Seq<Seq<char>>
    decreases names.len(),
{
    if names.len() == 0 {
        Seq::empty()
    } else if names.last().1 {
        selectable(names.drop_last())
    } else {
        selectable(names.drop_last()).push(names.last().0@)
    }
}

/// Keeps the names of the folders listed without `\Noselect` (`names` pairs each
/// folder name with whether it has that attribute), in order.
pub fn selectable_folders(names: Vec<(String, bool)>) -> (res: Vec<String>)
    ensures
        texts(res@) == selectable(names@),
{
    let mut res: Vec<String> = Vec::new();
    let ghost all = names@;
    for e in it: names
        invariant
            it.seq() == all,
            texts(res@) == selectable(all.take(it.index() as int)),
    {
        let ghost k = it.index() as int;
        proof {
            assert(all.take(k + 1).drop_last() == all.take(k));
            assert(all.take(k + 1).last() == e);
        }
        let (name, noselect) = e;
        if !noselect {
            res.push(name);
            assert(texts(res@) == texts(res@.drop_last()).push(res@.last()@));
        }
    }
    assert(all.take(all.len() as int) == all);
    res
}

/// The messages of a FETCH answer that carry both a UID and a body.
pub open spec fn complete_messages(fetched: Seq<(Option<u32>, Option<Vec<u8>>)>) -> Seq<
    (u32, Seq<u8>),
>
    decreases fetched.len(),
{
    if fetched.len() == 0 {
        Seq::empty()
    } else {
        let rest = complete_messages(fetched.drop_last());
        match fetched.last() {
            (Some(uid), Some(body)) => rest.push((uid, body@)),
            _ => rest,
        }
    }
}

/// The UIDs and bytes of messages.
pub open spec fn message_views(m: Seq<(u32, Vec<u8>)>) -> Seq<(u32, Seq<u8>)> {
    m.map_values(|p: (u32, Vec<u8>)| (p.0, p.1@))
}

/// Keeps the fetched messages that carry both a UID and a body, in order.
pub fn complete_fetches(fetched: Vec<(Option<u32>, Option<Vec<u8>>)>) -> (res: Vec<(u32, Vec<u8>)>)
    ensures
        message_views(res@) == complete_messages(fetched@),
{
    let mut res: Vec<(u32, Vec<u8>)> = Vec::new();
    let ghost all = fetched@;
    for e in it: fetched
        invariant
            it.seq() == all,
            message_views(res@) == complete_messages(all.take(it.index() as int)),
    {
        let ghost k = it.index() as int;
        proof {
            assert(all.take(k + 1).drop_last() == all.take(k));
            assert(all.take(k + 1).last() == e);
        }
        match e {
            (Some(uid), Some(body)) => {
                res.push((uid, body));
                assert(message_views(res@) == message_views(res@.drop_last()).push(
                    (uid, res@.last().1@),
                ));
            },
            _ => {},
        }
    }
    assert(all.take(all.len() as int) == all);
    res
}

// ---------------------------------------------------------------------------
// The export run as a state machine
// ---------------------------------------------------------------------------

/// Where an export run stands.
#[derive(Debug, Clone, Copy, PartialEq, Eq, Structural)]
pub enum Phase {
    /// Nothing reported yet.
    Start,
    /// About to start the folder at `current` (or to finish).
    NextFolder,
    /// Waiting for the listing of the current folder.
    AwaitListing,
    /// The current folder has nothing to fetch; its end is reported next.
    FolderEnd,
    /// About to fetch the next batch of the current folder.
    Batches,
    /// Waiting for the messages of the current batch.
    AwaitMessages,
    /// About to hand out the next fetched message.
    NextMessage,
    /// Waiting for the files of the message being written.
    AwaitWritten,
    /// The run is over.
    Done,
}

/// What the caller reports to the run.
#[derive(Debug)]
pub enum RunInput {
    /// Nothing to report: the previous action was carried out.
    Proceed,
    /// The current folder was examined.
    Examined(FolderListing),
    /// The current folder could not be examined, for this reason.
    ExamineFailed(String),
    /// The messages of the current batch: UID and raw bytes.
    Fetched(Vec<(u32, Vec<u8>)>),
    /// The files of the message being written were written; its index metadata.
    Written(crate::mail::MailMeta),
}

/// What the run asks the caller to do next.
#[derive(Debug)]
pub enum RunAction {
    /// Examine `folder` and report `Examined` or `ExamineFailed`.
    Examine { folder: String },
    /// Fetch these UIDs of `folder` and report `Fetched`.
    Fetch { folder: String, uids: Vec<u32> },
    /// Write the files of a message (numbered `seq` in its folder) and report `Written`.
    Write { folder: String, uid: u32, seq: u32, raw: Vec<u8> },
    /// Save the resume state, then `Proceed`.
    SaveState,
    /// Report this event to the user, then `Proceed`.
    Emit(ExportEvent),
    /// Save the resume state, write the index if it has rows, log out and report
    /// `Finished { total }`: the run is over.
    Finish { total: usize },
    /// The report does not fit where the run stands (or a folder ran out of
    /// sequence numbers): nothing was changed.
    Fail { reason: String },
}

/// Mathematical model of an export run.
pub struct RunModel {
    /// The folders to export, in order.
    pub folders: Seq<Seq<char>>,
    pub limit: nat,
    pub batch_size: nat,
    /// The resume state.
    pub state: Map<Seq<char>, FolderView>,
    /// The index rows, in the order of export.
    pub rows: Seq<(Seq<char>, u32, Seq<char>, Seq<char>, Seq<char>, Seq<char>, usize, Seq<char>)>,
    /// Number of mails exported.
    pub total: nat,
    pub phase: Phase,
    /// Position of the current folder in `folders`.
    pub current: nat,
    /// UIDVALIDITY of the current folder.
    pub uid_validity: Option<u32>,
    /// Batches of UIDs of the current folder.
    pub batches: Seq<Seq<u32>>,
    /// Position of the next batch.
    pub batch: nat,
    /// Fetched messages of the current batch not handed out yet.
    pub messages: Seq<(u32, Seq<u8>)>,
    /// UID of the message being written.
    pub writing: u32,
}

/// The run is over and reports `total` mails.
pub open spec fn finishes(action: RunAction, total: nat) -> bool {
    action matches RunAction::Finish { total: t } && t == total
}

/// The run reports `event`... (as an `Emit` action).
pub open spec fn emits_folder_done(action: RunAction, name: Seq<char>) -> bool {
    action matches RunAction::Emit(ExportEvent::FolderDone { name: n }) && n@ == name
}

/// The step that hands out the next fetched message of `b` (or ends the batch).
pub open spec fn next_message_ok(b: RunModel, a: RunModel, action: RunAction) -> bool {
    let f = b.folders[b.current as int];
    if b.messages.len() == 0 {
        &&& a == RunModel { phase: Phase::Batches, batch: b.batch + 1, ..b }
        &&& action is SaveState
    } else {
        let uid = b.messages[0].0;
        let fs = prepared_folder(folder_in(b.state, f), b.uid_validity);
        if fs.next_seq == u32::MAX {
            &&& a == b
            &&& action is Fail
        } else {
            &&& a == RunModel {
                state: b.state.insert(f, recorded(fs, uid)),
                messages: b.messages.drop_first(),
                writing: uid,
                phase: Phase::AwaitWritten,
                ..b
            }
            &&& action matches RunAction::Write { folder, uid: u, seq, raw }
            &&& folder@ == f
            &&& u == uid
            &&& seq == fs.next_seq + 1
            &&& raw@ == b.messages[0].1
        }
    }
}

/// One step of an export run: from model `b`, on report `input` (the user having
/// asked to cancel when `cancelled`), the run moves to model `a` and asks for
/// `action`. This follows the export loop: folders in order, each examined,
/// prepared for its UIDVALIDITY and cut into batches of pending UIDs; cancelling
/// is honoured before a folder and before a batch; every message is numbered and
/// recorded in the resume state before its files are written, and counted in the
/// index once they are; the state is saved after each batch.
pub open spec fn run_step_ok(
    b: RunModel,
    input: RunInput,
    cancelled: bool,
    a: RunModel,
    action: RunAction,
) -> bool {
    let f = b.folders[b.current as int];
    match (b.phase, input) {
        (Phase::Start, RunInput::Proceed) => {
            &&& a == RunModel { phase: Phase::NextFolder, current: 0, ..b }
            &&& action matches RunAction::Emit(ExportEvent::FoldersListed { count })
            &&& count == b.folders.len()
        },
        (Phase::NextFolder, RunInput::Proceed) => {
            if cancelled || b.current >= b.folders.len() {
                &&& a == RunModel { phase: Phase::Done, ..b }
                &&& finishes(action, b.total)
            } else {
                &&& a == RunModel { phase: Phase::AwaitListing, ..b }
                &&& action matches RunAction::Examine { folder }
                &&& folder@ == f
            }
        },
        (Phase::AwaitListing, RunInput::ExamineFailed(reason)) => {
            &&& a == RunModel { phase: Phase::NextFolder, current: b.current + 1, ..b }
            &&& action matches RunAction::Emit(ExportEvent::FolderSkipped { name, reason: r })
            &&& name@ == f
            &&& r@ == reason@
        },
        (Phase::AwaitListing, RunInput::Examined(listing)) => {
            let st = prepared(b.state, f, listing.uid_validity);
            let pend = limited(pending(listing.uids@, st[f].exported), b.limit);
            &&& a == RunModel {
                state: st,
                rows: if folder_in(b.state, f).uid_validity != listing.uid_validity {
                    crate::index::rows_outside(b.rows, f)
                } else {
                    b.rows
                },
                uid_validity: listing.uid_validity,
                batches: chunks(pend, effective_batch(b.batch_size)),
                batch: 0,
                messages: Seq::empty(),
                phase: if pend.len() == 0 {
                    Phase::FolderEnd
                } else {
                    Phase::Batches
                },
                ..b
            }
            &&& action matches RunAction::Emit(
                ExportEvent::FolderStarted { name, total, already },
            )
            &&& name@ == f
            &&& total == pend.len()
            &&& already == saturating_sub(listing.uids@.len(), pend.len())
        },
        (Phase::FolderEnd, RunInput::Proceed) => {
            &&& a == RunModel { phase: Phase::NextFolder, current: b.current + 1, ..b }
            &&& emits_folder_done(action, f)
        },
        (Phase::Batches, RunInput::Proceed) => {
            if b.batch >= b.batches.len() {
                &&& a == RunModel { phase: Phase::NextFolder, current: b.current + 1, ..b }
                &&& emits_folder_done(action, f)
            } else if cancelled {
                &&& a == RunModel { phase: Phase::Done, ..b }
                &&& finishes(action, b.total)
            } else {
                &&& a == RunModel { phase: Phase::AwaitMessages, ..b }
                &&& action matches RunAction::Fetch { folder, uids }
                &&& folder@ == f
                &&& uids@ == b.batches[b.batch as int]
            }
        },
        (Phase::AwaitMessages, RunInput::Fetched(msgs)) => next_message_ok(
            RunModel { messages: message_views(msgs@), ..b },
            a,
            action,
        ),
        (Phase::NextMessage, RunInput::Proceed) => next_message_ok(b, a, action),
        (Phase::AwaitWritten, RunInput::Written(meta)) => if b.total >= usize::MAX {
            &&& a == b
            &&& action is Fail
        } else {
            &&& a == RunModel {
                rows: b.rows.push(crate::index::row_of(f, b.writing, meta)),
                total: b.total + 1,
                phase: Phase::NextMessage,
                ..b
            }
            &&& action matches RunAction::Emit(ExportEvent::Mail { folder, subject })
            &&& folder@ == f
            &&& subject@ == meta.subject@
        },
        _ => {
            &&& a == b
            &&& action is Fail
        },
    }
}

/// An export run: the decisions of the export loop, the caller doing the IMAP
/// and file work that each action asks for.
pub struct ExportRun {
    folders: Vec<String>,
    limit: usize,
    batch_size: usize,
    state: ExportState,
    index: crate::index::IndexWriter,
    total: usize,
    phase: Phase,
    current: usize,
    uid_validity: Option<u32>,
    batches: Vec<Vec<u32>>,
    batch: usize,
    messages: Vec<(u32, Vec<u8>)>,
    writing: u32,
}

impl View for ExportRun {
    type V = RunModel;

    closed spec fn view(&self) -> RunModel {
        RunModel {
            folders: texts(self.folders@),
            limit: self.limit as nat,
            batch_size: self.batch_size as nat,
            state: self.state@,
            rows: crate::index::rows_view(self.index.rows()),
            total: self.total as nat,
            phase: self.phase,
            current: self.current as nat,
            uid_validity: self.uid_validity,
            batches: nested(self.batches@),
            batch: self.batch as nat,
            messages: message_views(self.messages@),
            writing: self.writing,
        }
    }
}

/// Whether the run is at work in its current folder.
pub open spec fn in_folder(p: Phase) -> bool {
    p is FolderEnd || p is Batches || p is AwaitMessages || p is NextMessage || p is AwaitWritten
}

/// Well-formedness of a run model: the positions stay within their sequences
/// where the phase needs them, and while the run works in a folder the resume
/// state of that folder is prepared for the folder's UIDVALIDITY.
pub open spec fn run_model_wf(m: RunModel) -> bool {
    &&& m.current <= m.folders.len()
    &&& m.batch <= m.batches.len()
    &&& (m.phase is AwaitListing || m.phase is FolderEnd || m.phase is Batches
        || m.phase is AwaitMessages || m.phase is NextMessage || m.phase is AwaitWritten)
        ==> m.current < m.folders.len()
    &&& (m.phase is AwaitMessages || m.phase is NextMessage || m.phase is AwaitWritten)
        ==> m.batch < m.batches.len()
    &&& in_folder(m.phase) ==> folder_in(m.state, m.folders[m.current as int]).uid_validity
        == m.uid_validity
}

impl ExportRun {
    /// Well-formedness: the resume state is well formed and the model is.
    pub closed spec fn wf(&self) -> bool {
        &&& self.state.wf()
        &&& run_model_wf(self@)
        &&& texts(self.folders@).len() == self.folders@.len()
        &&& nested(self.batches@).len() == self.batches@.len()
    }

    /// A run over the folders `all` listed by the server, of which the
    /// configuration selects those to export, resuming from `state`, with an
    /// index that holds no row yet.
    pub fn new(all: Vec<String>, cfg: &ExportConfig, state: ExportState) -> (res: ExportRun)
        requires
            state.wf(),
        ensures
            res.wf(),
            res@ == (RunModel {
                folders: selected_folders(texts(all@), texts(cfg.folders@)),
                limit: cfg.limit as nat,
                batch_size: cfg.batch_size as nat,
                state: state@,
                rows: Seq::empty(),
                total: 0,
                phase: Phase::Start,
                current: 0,
                uid_validity: None,
                batches: Seq::empty(),
                batch: 0,
                messages: Seq::empty(),
                writing: 0,
            }),
    {
        let run = ExportRun::resume(all, cfg, state, crate::index::IndexWriter::new());
        assert(run@.rows =~= Seq::empty());
        run
    }

    /// A run as `new` makes it, whose index starts with the rows of `previous`
    /// (the index written by earlier runs) that describe a mail `state` records
    /// as exported, in order; the index written at the end then sums up the
    /// earlier runs too.
    pub fn resume(
        all: Vec<String>,
        cfg: &ExportConfig,
        state: ExportState,
        previous: crate::index::IndexWriter,
    ) -> (res: ExportRun)
        requires
            state.wf(),
        ensures
            res.wf(),
            res@ == (RunModel {
                folders: selected_folders(texts(all@), texts(cfg.folders@)),
                limit: cfg.limit as nat,
                batch_size: cfg.batch_size as nat,
                state: state@,
                rows: crate::index::rows_in_state(crate::index::rows_view(previous.rows()), state@),
                total: 0,
                phase: Phase::Start,
                current: 0,
                uid_validity: None,
                batches: Seq::empty(),
                batch: 0,
                messages: Seq::empty(),
                writing: 0,
            }),
    {
        let folders = select_folders(all, &cfg.folders);
        let mut index = previous;
        index.keep_exported(&state);
        let res = ExportRun {
            folders,
            limit: cfg.limit,
            batch_size: cfg.batch_size,
            state,
            index,
            total: 0,
            phase: Phase::Start,
            current: 0,
            uid_validity: None,
            batches: Vec::new(),
            batch: 0,
            messages: Vec::new(),
            writing: 0,
        };
        assert(nested(res.batches@) =~= Seq::empty());
        assert(message_views(res.messages@) =~= Seq::empty());
        res
    }

    /// The resume state, to be saved.
    pub fn state(&self) -> (res: &ExportState)
        requires
            self.wf(),
        ensures
            res.wf(),
            res@ == self@.state,
    {
        &self.state
    }

    /// Ends the run, giving back the resume state and the index.
    pub fn into_parts(self) -> (res: (ExportState, crate::index::IndexWriter))
        requires
            self.wf(),
        ensures
            res.0.wf(),
            res.0@ == self@.state,
            crate::index::rows_view(res.1.rows()) == self@.rows,
    {
        (self.state, self.index)
    }

    fn current_folder(&self) -> (res: String)
        requires
            self.current < self.folders@.len(),
        ensures
            res@ == self.folders@[self.current as int]@,
    {
        self.folders[self.current].clone()
    }

    fn next_message(&mut self) -> (action: RunAction)
        requires
            old(self).wf(),
            old(self).phase is AwaitMessages || old(self).phase is NextMessage,
        ensures
            final(self).wf(),
            next_message_ok(old(self)@, final(self)@, action),
    {
        // Reading the length bounds it by `usize::MAX`, so `batch + 1` cannot overflow.
        let _batch_count = self.batches.len();
        if self.messages.len() == 0 {
            self.phase = Phase::Batches;
            self.batch = self.batch + 1;
            return RunAction::SaveState;
        }
        let folder = self.current_folder();
        let ghost b = self@;
        let uid = self.messages[0].0;
        let fs = self.state.folder_mut(folder.as_str(), self.uid_validity);
        if fs.next_seq == u32::MAX {
            proof {
                assert(self.state@ =~= b.state);
            }
            return RunAction::Fail { reason: "no sequence number left in this folder".to_owned() };
        }
        let seq = fs.record(uid);
        let (_, raw) = self.messages.remove(0);
        self.writing = uid;
        self.phase = Phase::AwaitWritten;
        proof {
            assert(message_views(self.messages@) =~= b.messages.drop_first());
        }
        RunAction::Write { folder, uid, seq, raw }
    }

    /// One step of the run (see `run_step_ok`): the caller reports `input` and
    /// whether the user asked to cancel, and gets the next action.
    pub fn step(&mut self, input: RunInput, cancelled: bool) -> (action: RunAction)
        requires
            old(self).wf(),
        ensures
            final(self).wf(),
            run_step_ok(old(self)@, input, cancelled, final(self)@, action),
    {
        let ghost b = self@;
        // Reading the lengths bounds them by `usize::MAX`, so the counters
        // `current + 1` and `batch + 1` cannot overflow.
        let _folder_count = self.folders.len();
        let _batch_count = self.batches.len();
        match (self.phase, input) {
            (Phase::Start, RunInput::Proceed) => {
                self.phase = Phase::NextFolder;
                self.current = 0;
                RunAction::Emit(ExportEvent::FoldersListed { count: self.folders.len() })
            },
            (Phase::NextFolder, RunInput::Proceed) => {
                if cancelled || self.current >= self.folders.len() {
                    self.phase = Phase::Done;
                    RunAction::Finish { total: self.total }
                } else {
                    self.phase = Phase::AwaitListing;
                    RunAction::Examine { folder: self.current_folder() }
                }
            },
            (Phase::AwaitListing, RunInput::ExamineFailed(reason)) => {
                let name = self.current_folder();
                self.phase = Phase::NextFolder;
                self.current = self.current + 1;
                RunAction::Emit(ExportEvent::FolderSkipped { name, reason })
            },
            (Phase::AwaitListing, RunInput::Examined(listing)) => {
                let name = self.current_folder();
                let reset = match self.state.folder(name.as_str()) {
                    Some(f) => f.uid_validity != listing.uid_validity,
                    None => listing.uid_validity.is_some(),
                };
                if reset {
                    self.index.drop_folder(name.as_str());
                }
                let plan = self.state.plan_folder(name.as_str(), &listing, self.limit);
                let total = plan.to_fetch.len();
                self.uid_validity = listing.uid_validity;
                self.batches = batches(&plan.to_fetch, self.batch_size);
                self.batch = 0;
                self.messages = Vec::new();
                self.phase = if total == 0 {
                    Phase::FolderEnd
                } else {
                    Phase::Batches
                };
                proof {
                    assert(message_views(self.messages@) =~= Seq::empty());
                    lemma_chunks_bound(plan.to_fetch@, effective_batch(self.batch_size as nat));
                }
                RunAction::Emit(ExportEvent::FolderStarted { name, total, already: plan.already })
            },
            (Phase::FolderEnd, RunInput::Proceed) => {
                let name = self.current_folder();
                self.phase = Phase::NextFolder;
                self.current = self.current + 1;
                RunAction::Emit(ExportEvent::FolderDone { name })
            },
            (Phase::Batches, RunInput::Proceed) => {
                if self.batch >= self.batches.len() {
                    let name = self.current_folder();
                    self.phase = Phase::NextFolder;
                    self.current = self.current + 1;
                    RunAction::Emit(ExportEvent::FolderDone { name })
                } else if cancelled {
                    self.phase = Phase::Done;
                    RunAction::Finish { total: self.total }
                } else {
                    self.phase = Phase::AwaitMessages;
                    let uids = self.batches[self.batch].clone();
                    RunAction::Fetch { folder: self.current_folder(), uids }
                }
            },
            (Phase::AwaitMessages, RunInput::Fetched(msgs)) => {
                self.messages = msgs;
                self.next_message()
            },
            (Phase::NextMessage, RunInput::Proceed) => self.next_message(),
            (Phase::AwaitWritten, RunInput::Written(meta)) => {
                if self.total == usize::MAX {
                    return RunAction::Fail { reason: "too many mails for one run".to_owned() };
                }
                let folder = self.current_folder();
                self.index.add(folder.as_str(), self.writing, &meta);
                self.total = self.total + 1;
                self.phase = Phase::NextMessage;
                proof {
                    assert(crate::index::rows_view(self.index.rows()) =~= b.rows.push(
                        crate::index::row_of(folder@, b.writing, meta),
                    ));
                }
                RunAction::Emit(ExportEvent::Mail { folder, subject: meta.subject })
            },
            _ => RunAction::Fail { reason: "unexpected report for this step of the export".to_owned() },
        }
    }
}

/// Cutting into batches never yields more batches than elements.
pub proof fn lemma_chunks_bound(s: Seq<u32>, n: nat)
    ensures
        chunks(s, n).len() <= s.len(),
    decreases s.len(),
{
    if n > 0 && s.len() > n {
        lemma_chunks_bound(s.skip(n as int), n);
    }
}

// ---------------------------------------------------------------------------
// Laws of the export run
// ---------------------------------------------------------------------------

/// The elements of a sequence of batches, in order.
pub open spec fn flatten(b: Seq<Seq<u32>>) -> Seq<u32>
    decreases b.len(),
{
    if b.len() == 0 {
        Seq::empty()
    } else {
        b[0] + flatten(b.drop_first())
    }
}

/// Batching loses and reorders nothing: the batches, put end to end, give back
/// the UIDs, and each batch holds between 1 and `n` of them.
pub proof fn law_batches_cover(s: Seq<u32>, n: nat)
    requires
        n > 0,
    ensures
        flatten(chunks(s, n)) == s,
        forall|i: int|
            0 <= i < chunks(s, n).len() ==> 1 <= (#[trigger] chunks(s, n)[i]).len() <= n,
    decreases s.len(),
{
    if s.len() == 0 {
        assert(s =~= Seq::<u32>::empty());
    } else if s.len() <= n {
        assert(chunks(s, n) == seq![s]);
        assert(seq![s].drop_first() == Seq::<Seq<u32>>::empty());
        assert(flatten(seq![s]) == seq![s][0] + flatten(seq![s].drop_first()));
        assert(s + Seq::<u32>::empty() == s);
    } else {
        let rest = s.skip(n as int);
        law_batches_cover(rest, n);
        let c = chunks(s, n);
        assert(c == seq![s.take(n as int)] + chunks(rest, n));
        assert(c.drop_first() == chunks(rest, n));
        assert(c[0] == s.take(n as int));
        assert(flatten(c) == c[0] + flatten(c.drop_first()));
        assert(s.take(n as int) + rest == s);
        assert forall|i: int| 0 <= i < c.len() implies 1 <= (#[trigger] c[i]).len() <= n by {
            if i > 0 {
                assert(c[i] == chunks(rest, n)[i - 1]);
            }
        }
    }
}

/// Every UID left pending is one of the listing's and is not exported.
pub proof fn law_pending_fresh(uids: Seq<u32>, exported: Set<u32>)
    ensures
        forall|i: int|
            0 <= i < pending(uids, exported).len() ==> uids.contains(
                #[trigger] pending(uids, exported)[i],
            ) && !exported.contains(pending(uids, exported)[i]),
        forall|i: int|
            0 <= i < uids.len() && !exported.contains(#[trigger] uids[i]) ==> pending(
                uids,
                exported,
            ).contains(uids[i]),
    decreases uids.len(),
{
    if uids.len() > 0 {
        let init = uids.drop_last();
        law_pending_fresh(init, exported);
        let p = pending(uids, exported);
        let pi = pending(init, exported);
        assert forall|i: int| 0 <= i < p.len() implies uids.contains(#[trigger] p[i])
            && !exported.contains(p[i]) by {
            if i < pi.len() {
                assert(p[i] == pi[i]);
                let k = choose|k: int| 0 <= k < init.len() && init[k] == pi[i];
                assert(uids[k] == pi[i]);
            } else {
                assert(uids[uids.len() - 1] == p[i]);
            }
        }
        assert forall|i: int| 0 <= i < uids.len() && !exported.contains(#[trigger] uids[i])
            implies p.contains(uids[i]) by {
            if i < uids.len() - 1 {
                assert(init[i] == uids[i]);
                let k = choose|k: int| 0 <= k < pi.len() && pi[k] == init[i];
                assert(p[k] == pi[k]);
            } else {
                assert(p[p.len() - 1] == uids[i]);
            }
        }
    }
}

/// With nothing exported, every UID is pending.
pub proof fn law_pending_all_when_nothing_exported(uids: Seq<u32>)
    ensures
        pending(uids, Set::empty()) == uids,
    decreases uids.len(),
{
    if uids.len() > 0 {
        law_pending_all_when_nothing_exported(uids.drop_last());
        assert(uids.drop_last().push(uids.last()) == uids);
    }
}

/// Resuming never downloads twice: when a run plans an examined folder, the
/// batches it will fetch hold, in order, exactly the listing's UIDs not yet
/// exported under the folder's UIDVALIDITY (the first `limit` of them when a
/// limit is set), each batch holding between 1 and the batch size of them; and
/// when the UIDVALIDITY changed, every UID of the listing is pending again.
pub proof fn law_run_fetches_pending(
    b: RunModel,
    listing: FolderListing,
    cancelled: bool,
    a: RunModel,
    action: RunAction,
)
    requires
        b.phase == Phase::AwaitListing,
        run_step_ok(b, RunInput::Examined(listing), cancelled, a, action),
    ensures
        ({
            let f = b.folders[b.current as int];
            let pend = flatten(a.batches);
            &&& pend == limited(pending(listing.uids@, a.state[f].exported), b.limit)
            &&& forall|i: int|
                0 <= i < pend.len() ==> listing.uids@.contains(#[trigger] pend[i])
                    && !a.state[f].exported.contains(pend[i])
            &&& b.limit > 0 ==> pend.len() <= b.limit
            &&& forall|i: int|
                0 <= i < a.batches.len() ==> 1 <= (#[trigger] a.batches[i]).len()
                    <= effective_batch(b.batch_size)
            &&& crate::state::folder_in(b.state, f).uid_validity != listing.uid_validity
                ==> pend == limited(listing.uids@, b.limit)
        }),
{
    let f = b.folders[b.current as int];
    let st = prepared(b.state, f, listing.uid_validity);
    let all = pending(listing.uids@, st[f].exported);
    let pend = limited(all, b.limit);
    law_batches_cover(pend, effective_batch(b.batch_size));
    law_pending_fresh(listing.uids@, st[f].exported);
    assert forall|i: int| 0 <= i < pend.len() implies listing.uids@.contains(#[trigger] pend[i])
        && !st[f].exported.contains(pend[i]) by {
        assert(pend[i] == all[i]);
    }
    if crate::state::folder_in(b.state, f).uid_validity != listing.uid_validity {
        law_pending_all_when_nothing_exported(listing.uids@);
    }
}

/// Cancelling stops cleanly: asked to cancel before a folder or before a
/// batch, the run asks to finish (save the resume state, write the index),
/// with the state and the index rows as they were and the count of mails
/// exported so far.
pub proof fn law_cancel_finishes(b: RunModel, a: RunModel, action: RunAction)
    requires
        b.phase == Phase::NextFolder || (b.phase == Phase::Batches && b.batch < b.batches.len()),
        run_step_ok(b, RunInput::Proceed, true, a, action),
    ensures
        finishes(action, b.total),
        a.phase == Phase::Done,
        a.state == b.state,
        a.rows == b.rows,
{
}

/// A well-formed run stays well formed, and its count of exported mails goes
/// up by one exactly when it reports a mail written.
pub proof fn law_run_stays_wf(
    b: RunModel,
    input: RunInput,
    cancelled: bool,
    a: RunModel,
    action: RunAction,
)
    requires
        run_model_wf(b),
        run_step_ok(b, input, cancelled, a, action),
    ensures
        run_model_wf(a),
        a.total == b.total + if action matches RunAction::Emit(ExportEvent::Mail { .. }) {
            1int
        } else {
            0int
        },
{
}

/// A message handed out for writing is recorded first: its UID is marked
/// exported in the folder and its number is the folder's next one.
pub proof fn law_write_records_first(
    b: RunModel,
    input: RunInput,
    cancelled: bool,
    a: RunModel,
    action: RunAction,
)
    requires
        run_step_ok(b, input, cancelled, a, action),
        action is Write,
    ensures
        ({
            let f = b.folders[b.current as int];
            let fs = prepared_folder(folder_in(b.state, f), b.uid_validity);
            &&& action matches RunAction::Write { folder, uid, seq, raw }
            &&& folder@ == f
            &&& a.state[f].exported.contains(uid)
            &&& seq == fs.next_seq + 1
            &&& a.state[f].next_seq == seq
            &&& a.phase == Phase::AwaitWritten
            &&& a.writing == uid
        }),
{
}

/// What was exported stays exported: a step of the run never drops a UID from
/// the exported UIDs of a folder, except by resetting that folder for a new
/// UIDVALIDITY.
pub proof fn law_exported_only_grows(
    b: RunModel,
    input: RunInput,
    cancelled: bool,
    a: RunModel,
    action: RunAction,
    g: Seq<char>,
)
    requires
        run_step_ok(b, input, cancelled, a, action),
        folder_in(a.state, g).uid_validity == folder_in(b.state, g).uid_validity,
    ensures
        folder_in(b.state, g).exported.subset_of(folder_in(a.state, g).exported),
{
}

/// The index sums up the resume state: the (folder, UID) pairs of its rows are
/// the pairs the state records as exported; while a message is being written,
/// its pair is recorded and its row is still to come.
pub open spec fn index_matches(m: RunModel) -> bool {
    if m.phase is AwaitWritten {
        index_keys(m.rows).insert((m.folders[m.current as int], m.writing)) == exported_keys(m.state)
    } else {
        index_keys(m.rows) == exported_keys(m.state)
    }
}

/// A resumed run starts with index rows for exported mails only, and with a
/// row for each exported mail when the earlier index had one.
pub proof fn law_resume_index(
    previous: Seq<(Seq<char>, u32, Seq<char>, Seq<char>, Seq<char>, Seq<char>, usize, Seq<char>)>,
    state: Map<Seq<char>, FolderView>,
)
    ensures
        index_keys(rows_in_state(previous, state)).subset_of(exported_keys(state)),
        exported_keys(state).subset_of(index_keys(previous)) ==> index_keys(
            rows_in_state(previous, state),
        ) == exported_keys(state),
{
    lemma_index_keys_in_state(previous, state);
    if exported_keys(state).subset_of(index_keys(previous)) {
        assert(index_keys(previous).intersect(exported_keys(state)) =~= exported_keys(state));
    }
}

/// The index keeps summing up the resume state across every step of a run: in
/// particular, when the run finishes, `index.csv` holds a row for every mail
/// the resume state records as exported, from this run or an earlier one, and
/// none for another mail. A folder whose UIDVALIDITY changed loses its rows
/// with its exported UIDs.
pub proof fn law_index_matches_state(
    b: RunModel,
    input: RunInput,
    cancelled: bool,
    a: RunModel,
    action: RunAction,
)
    requires
        run_model_wf(b),
        index_matches(b),
        run_step_ok(b, input, cancelled, a, action),
    ensures
        index_matches(a),
{
    let f = b.folders[b.current as int];
    match (b.phase, input) {
        (Phase::AwaitListing, RunInput::Examined(listing)) => {
            let st = prepared(b.state, f, listing.uid_validity);
            if folder_in(b.state, f).uid_validity != listing.uid_validity {
                lemma_index_keys_outside(b.rows, f);
                assert(exported_keys(st) =~= exported_keys(b.state).filter(
                    |k: (Seq<char>, u32)| k.0 != f,
                ));
            } else {
                assert(exported_keys(st) =~= exported_keys(b.state));
            }
        },
        (Phase::AwaitMessages, RunInput::Fetched(msgs)) => {
            lemma_next_message_keys(RunModel { messages: message_views(msgs@), ..b }, a, action);
        },
        (Phase::NextMessage, RunInput::Proceed) => {
            lemma_next_message_keys(b, a, action);
        },
        (Phase::AwaitWritten, RunInput::Written(meta)) => {
            if b.total < usize::MAX {
                lemma_index_keys_push(b.rows, crate::index::row_of(f, b.writing, meta));
            }
        },
        _ => {},
    }
}

proof fn lemma_next_message_keys(b: RunModel, a: RunModel, action: RunAction)
    requires
        run_model_wf(b),
        b.phase is AwaitMessages || b.phase is NextMessage,
        index_keys(b.rows) == exported_keys(b.state),
        next_message_ok(b, a, action),
    ensures
        index_matches(a),
{
    let f = b.folders[b.current as int];
    if b.messages.len() > 0 {
        let fs = prepared_folder(folder_in(b.state, f), b.uid_validity);
        if fs.next_seq != u32::MAX {
            let uid = b.messages[0].0;
            assert(fs == folder_in(b.state, f));
            assert(exported_keys(a.state) =~= exported_keys(b.state).insert((f, uid)));
        }
    }
}

/// A folder with nothing new is not fetched again: when the resume state
/// already holds, under the folder's current UIDVALIDITY, every UID of its
/// listing, the run reports nothing to download and fetches no batch of it
/// (so a second run over an unchanged mailbox downloads nothing).
pub proof fn law_nothing_new_nothing_fetched(
    b: RunModel,
    listing: FolderListing,
    cancelled: bool,
    a: RunModel,
    action: RunAction,
)
    requires
        b.phase == Phase::AwaitListing,
        run_step_ok(b, RunInput::Examined(listing), cancelled, a, action),
        folder_in(b.state, b.folders[b.current as int]).uid_validity == listing.uid_validity,
        forall|i: int|
            0 <= i < listing.uids@.len() ==> folder_in(b.state, b.folders[b.current as int]).exported.contains(
                #[trigger] listing.uids@[i],
            ),
    ensures
        a.phase == Phase::FolderEnd,
        a.batches.len() == 0,
        action matches RunAction::Emit(ExportEvent::FolderStarted { total, .. }) && total == 0,
{
    let f = b.folders[b.current as int];
    let ex = folder_in(b.state, f).exported;
    let st = prepared(b.state, f, listing.uid_validity);
    assert(st[f].exported == ex);
    let p = pending(listing.uids@, ex);
    law_pending_fresh(listing.uids@, ex);
    if p.len() > 0 {
        assert(listing.uids@.contains(p[0]));
        let i = choose|i: int| 0 <= i < listing.uids@.len() && listing.uids@[i] == p[0];
        assert(ex.contains(listing.uids@[i]));
    }
    assert(limited(p, b.limit).len() == 0);
}

/// `ms` are the models of a run from step to step: step `k` takes `ms[k]`, on
/// report `inputs[k]` with cancelling asked when `cancels[k]`, to `ms[k + 1]`
/// and asks for `actions[k]`.
pub open spec fn run_trace(
    ms: Seq<RunModel>,
    inputs: Seq<RunInput>,
    cancels: Seq<bool>,
    actions: Seq<RunAction>,
) -> bool {
    &&& ms.len() == inputs.len() + 1
    &&& cancels.len() == inputs.len()
    &&& actions.len() == inputs.len()
    &&& forall|k: int|
        #![trigger inputs[k]]
        0 <= k < inputs.len() ==> run_step_ok(ms[k], inputs[k], cancels[k], ms[k + 1], actions[k])
}

/// The server has nothing new for the resume state `start`: every folder the
/// run examines is listed under the UIDVALIDITY `start` records for it, with
/// UIDs that `start` all records as exported.
pub open spec fn nothing_new(ms: Seq<RunModel>, inputs: Seq<RunInput>, start: Map<Seq<char>, FolderView>) -> bool {
    forall|k: int|
        #![trigger inputs[k]]
        0 <= k < inputs.len() && ms[k].phase == Phase::AwaitListing ==> match inputs[k] {
            RunInput::Examined(l) => {
                let g = ms[k].folders[ms[k].current as int];
                &&& l.uid_validity == folder_in(start, g).uid_validity
                &&& forall|i: int|
                    0 <= i < l.uids@.len() ==> folder_in(start, g).exported.contains(
                        #[trigger] l.uids@[i],
                    )
            },
            _ => true,
        }
}

/// What holds along a run over a server with nothing new: nothing exported, no
/// batch under way, and the resume state as it was for every folder.
pub open spec fn idle_run(m: RunModel, start: Map<Seq<char>, FolderView>) -> bool {
    &&& run_model_wf(m)
    &&& m.total == 0
    &&& !(m.phase is Batches || m.phase is AwaitMessages || m.phase is NextMessage
        || m.phase is AwaitWritten)
    &&& forall|h: Seq<char>| #[trigger] folder_in(m.state, h) == folder_in(start, h)
}

proof fn lemma_idle_step(
    b: RunModel,
    input: RunInput,
    cancelled: bool,
    a: RunModel,
    action: RunAction,
    start: Map<Seq<char>, FolderView>,
)
    requires
        idle_run(b, start),
        run_step_ok(b, input, cancelled, a, action),
        b.phase == Phase::AwaitListing ==> match input {
            RunInput::Examined(l) => {
                let g = b.folders[b.current as int];
                &&& l.uid_validity == folder_in(start, g).uid_validity
                &&& forall|i: int|
                    0 <= i < l.uids@.len() ==> folder_in(start, g).exported.contains(
                        #[trigger] l.uids@[i],
                    )
            },
            _ => true,
        },
    ensures
        idle_run(a, start),
        !(action is Fetch),
        !(action is Write),
        action matches RunAction::Finish { total } ==> total == 0,
{
    law_run_stays_wf(b, input, cancelled, a, action);
    match (b.phase, input) {
        (Phase::AwaitListing, RunInput::Examined(listing)) => {
            let f = b.folders[b.current as int];
            let st = prepared(b.state, f, listing.uid_validity);
            assert(folder_in(b.state, f) == folder_in(start, f));
            assert forall|h: Seq<char>| #[trigger] folder_in(st, h) == folder_in(start, h) by {
                assert(folder_in(b.state, h) == folder_in(start, h));
            }
            law_nothing_new_nothing_fetched(b, listing, cancelled, a, action);
        },
        _ => {},
    }
}

proof fn lemma_idle_trace(
    ms: Seq<RunModel>,
    inputs: Seq<RunInput>,
    cancels: Seq<bool>,
    actions: Seq<RunAction>,
    k: int,
)
    requires
        run_trace(ms, inputs, cancels, actions),
        idle_run(ms[0], ms[0].state),
        nothing_new(ms, inputs, ms[0].state),
        0 <= k <= inputs.len(),
    ensures
        idle_run(ms[k], ms[0].state),
    decreases k,
{
    if k > 0 {
        lemma_idle_trace(ms, inputs, cancels, actions, k - 1);
        let j = k - 1;
        assert(run_step_ok(ms[j], inputs[j], cancels[j], ms[j + 1], actions[j]));
        lemma_idle_step(ms[j], inputs[j], cancels[j], ms[j + 1], actions[j], ms[0].state);
    }
}

/// Resuming over an unchanged server downloads nothing: a run started from a
/// resume state under which every folder it examines is listed with the same
/// UIDVALIDITY and UIDs all exported (as after an earlier complete run) never
/// asks to fetch or write a message, and finishes with a total of 0.
pub proof fn law_second_run_downloads_nothing(
    ms: Seq<RunModel>,
    inputs: Seq<RunInput>,
    cancels: Seq<bool>,
    actions: Seq<RunAction>,
)
    requires
        run_trace(ms, inputs, cancels, actions),
        ms[0].phase == Phase::Start,
        run_model_wf(ms[0]),
        ms[0].total == 0,
        nothing_new(ms, inputs, ms[0].state),
    ensures
        forall|k: int|
            0 <= k < actions.len() ==> !(#[trigger] actions[k] is Fetch) && !(actions[k] is Write)
                && (actions[k] matches RunAction::Finish { total } ==> total == 0),
        forall|k: int| 0 <= k < ms.len() ==> (#[trigger] ms[k]).total == 0,
{
    assert forall|k: int| 0 <= k < actions.len() implies !(#[trigger] actions[k] is Fetch) && !(
    actions[k] is Write) && (actions[k] matches RunAction::Finish { total } ==> total == 0) by {
        lemma_idle_trace(ms, inputs, cancels, actions, k);
        assert(run_step_ok(ms[k], inputs[k], cancels[k], ms[k + 1], actions[k]));
        lemma_idle_step(ms[k], inputs[k], cancels[k], ms[k + 1], actions[k], ms[0].state);
    }
    assert forall|k: int| 0 <= k < ms.len() implies (#[trigger] ms[k]).total == 0 by {
        lemma_idle_trace(ms, inputs, cancels, actions, k);
    }
}

/// Every UID in a batch is one of the UIDs cut into batches.
proof fn lemma_chunks_elems(s: Seq<u32>, n: nat)
    ensures
        forall|j: int, i: int|
            0 <= j < chunks(s, n).len() && 0 <= i < chunks(s, n)[j].len() ==> s.contains(
                #[trigger] chunks(s, n)[j][i],
            ),
    decreases s.len(),
{
    if n > 0 && s.len() > n {
        let rest = s.skip(n as int);
        lemma_chunks_elems(rest, n);
        let c = chunks(s, n);
        assert forall|j: int, i: int| 0 <= j < c.len() && 0 <= i < c[j].len() implies s.contains(
            #[trigger] c[j][i],
        ) by {
            if j == 0 {
                assert(c[0] == s.take(n as int));
                assert(s[i] == c[0][i]);
            } else {
                assert(c[j] == chunks(rest, n)[j - 1]);
                let m = choose|m: int| 0 <= m < rest.len() && rest[m] == c[j][i];
                assert(s[m + n] == rest[m]);
            }
        }
    } else if n > 0 && s.len() > 0 {
        let c = chunks(s, n);
        assert(c == seq![s]);
        assert forall|j: int, i: int| 0 <= j < c.len() && 0 <= i < c[j].len() implies s.contains(
            #[trigger] c[j][i],
        ) by {
            assert(s[i] == c[0][i]);
        }
    }
}

/// The UIDVALIDITY of folder `f` stays `uv` whenever the run examines `f`.
pub open spec fn same_uid_validity(ms: Seq<RunModel>, inputs: Seq<RunInput>, f: Seq<char>, uv: Option<u32>) -> bool {
    forall|k: int|
        #![trigger inputs[k]]
        0 <= k < inputs.len() && ms[k].phase == Phase::AwaitListing && ms[k].folders[ms[k].current as int]
            == f ==> match inputs[k] {
            RunInput::Examined(l) => l.uid_validity == uv,
            _ => true,
        }
}

/// What holds along a run for a UID `uid` exported in folder `f` under `uv`:
/// it stays exported under `uv`, and no batch planned for `f` holds it.
pub open spec fn keeps_exported(m: RunModel, f: Seq<char>, uid: u32, uv: Option<u32>) -> bool {
    &&& run_model_wf(m)
    &&& folder_in(m.state, f).exported.contains(uid)
    &&& folder_in(m.state, f).uid_validity == uv
    &&& in_folder(m.phase) && m.folders[m.current as int] == f ==> forall|j: int, i: int|
        0 <= j < m.batches.len() && 0 <= i < m.batches[j].len() ==> #[trigger] m.batches[j][i] != uid
}

proof fn lemma_keeps_exported_step(
    b: RunModel,
    input: RunInput,
    cancelled: bool,
    a: RunModel,
    action: RunAction,
    f: Seq<char>,
    uid: u32,
    uv: Option<u32>,
)
    requires
        keeps_exported(b, f, uid, uv),
        run_step_ok(b, input, cancelled, a, action),
        b.phase == Phase::AwaitListing && b.folders[b.current as int] == f ==> match input {
            RunInput::Examined(l) => l.uid_validity == uv,
            _ => true,
        },
    ensures
        keeps_exported(a, f, uid, uv),
        action matches RunAction::Fetch { folder, uids } ==> (folder@ == f ==> !uids@.contains(uid)),
{
    law_run_stays_wf(b, input, cancelled, a, action);
    let g = b.folders[b.current as int];
    match (b.phase, input) {
        (Phase::AwaitListing, RunInput::Examined(listing)) => {
            let st = prepared(b.state, g, listing.uid_validity);
            if g == f {
                let ex = folder_in(b.state, f).exported;
                let pend = limited(pending(listing.uids@, ex), b.limit);
                law_pending_fresh(listing.uids@, ex);
                lemma_chunks_elems(pend, effective_batch(b.batch_size));
                assert forall|j: int, i: int|
                    0 <= j < a.batches.len() && 0 <= i < a.batches[j].len() implies #[trigger] a.batches[j][i]
                    != uid by {
                    let m = choose|m: int| 0 <= m < pend.len() && pend[m] == a.batches[j][i];
                    assert(pend[m] == pending(listing.uids@, ex)[m]);
                }
            } else {
                assert(folder_in(st, f) == folder_in(b.state, f));
            }
        },
        (Phase::Batches, RunInput::Proceed) => {
            if b.batch < b.batches.len() && !cancelled && g == f {
                assert forall|i: int| 0 <= i < b.batches[b.batch as int].len() implies b.batches[b.batch as int][i]
                    != uid by {
                    assert(b.batches[b.batch as int][i] != uid);
                }
            }
        },
        _ => {},
    }
}

proof fn lemma_keeps_exported_trace(
    ms: Seq<RunModel>,
    inputs: Seq<RunInput>,
    cancels: Seq<bool>,
    actions: Seq<RunAction>,
    f: Seq<char>,
    uid: u32,
    uv: Option<u32>,
    k: int,
)
    requires
        run_trace(ms, inputs, cancels, actions),
        keeps_exported(ms[0], f, uid, uv),
        same_uid_validity(ms, inputs, f, uv),
        0 <= k <= inputs.len(),
    ensures
        keeps_exported(ms[k], f, uid, uv),
    decreases k,
{
    if k > 0 {
        lemma_keeps_exported_trace(ms, inputs, cancels, actions, f, uid, uv, k - 1);
        let j = k - 1;
        assert(run_step_ok(ms[j], inputs[j], cancels[j], ms[j + 1], actions[j]));
        lemma_keeps_exported_step(ms[j], inputs[j], cancels[j], ms[j + 1], actions[j], f, uid, uv);
    }
}

/// What was exported is never downloaded again: along a whole run started from
/// a resume state that records `uid` as exported in folder `f`, as long as the
/// server keeps the UIDVALIDITY of `f`, no fetch of `f` asks for `uid`.
pub proof fn law_exported_never_fetched(
    ms: Seq<RunModel>,
    inputs: Seq<RunInput>,
    cancels: Seq<bool>,
    actions: Seq<RunAction>,
    f: Seq<char>,
    uid: u32,
)
    requires
        run_trace(ms, inputs, cancels, actions),
        ms[0].phase == Phase::Start,
        run_model_wf(ms[0]),
        folder_in(ms[0].state, f).exported.contains(uid),
        same_uid_validity(ms, inputs, f, folder_in(ms[0].state, f).uid_validity),
    ensures
        forall|k: int|
            0 <= k < actions.len() ==> (#[trigger] actions[k] matches RunAction::Fetch { folder, uids }
                ==> (folder@ == f ==> !uids@.contains(uid))),
{
    let uv = folder_in(ms[0].state, f).uid_validity;
    assert forall|k: int| 0 <= k < actions.len() implies (#[trigger] actions[k] matches RunAction::Fetch {
        folder,
        uids,
    } ==> (folder@ == f ==> !uids@.contains(uid))) by {
        lemma_keeps_exported_trace(ms, inputs, cancels, actions, f, uid, uv, k);
        assert(run_step_ok(ms[k], inputs[k], cancels[k], ms[k + 1], actions[k]));
        lemma_keeps_exported_step(ms[k], inputs[k], cancels[k], ms[k + 1], actions[k], f, uid, uv);
    }
}

/// Choosing folders by name keeps exactly the listed folders whose name is one
/// of the names asked for, compared whole (`==`, not as a prefix), in the
/// server's order: with a selection, the result is `all` filtered by
/// membership in `wanted`; every folder kept is asked for, and every listed
/// folder asked for is kept.
pub proof fn law_selection_by_exact_name(all: Seq<Seq<char>>, wanted: Seq<Seq<char>>)
    requires
        wanted.len() > 0,
    ensures
        selected_folders(all, wanted) == all.filter(|f: Seq<char>| wanted.contains(f)),
        forall|i: int|
            0 <= i < selected_folders(all, wanted).len() ==> wanted.contains(
                #[trigger] selected_folders(all, wanted)[i],
            ),
        forall|i: int|
            0 <= i < all.len() && wanted.contains(#[trigger] all[i]) ==> selected_folders(
                all,
                wanted,
            ).contains(all[i]),
    decreases all.len(),
{
    let pred = |f: Seq<char>| wanted.contains(f);
    lemma_kept_is_filter(all, wanted);
    broadcast use vstd::seq_lib::group_filter_ensures;
}

/// With no folder asked for, every listed folder is exported, in order.
pub proof fn law_no_selection_keeps_all(all: Seq<Seq<char>>)
    ensures
        selected_folders(all, Seq::empty()) == all,
{
}

proof fn lemma_kept_is_filter(all: Seq<Seq<char>>, wanted: Seq<Seq<char>>)
    ensures
        kept_folders(all, wanted) == all.filter(|f: Seq<char>| wanted.contains(f)),
    decreases all.len(),
{
    reveal(Seq::filter);
    if all.len() > 0 {
        lemma_kept_is_filter(all.drop_last(), wanted);
    }
}

/// The server's folders that can be exported are exactly those listed without
/// `\Noselect`, in the order of the listing, whatever the other names are: a
/// folder listed without the attribute is always kept (a child of a
/// `\Noselect` parent too), and a folder listed with it never.
pub proof fn law_selectable_exactly_unflagged(names: Seq<(String, bool)>)
    ensures
        selectable(names) == names.filter(|e: (String, bool)| !e.1).map_values(
            |e: (String, bool)| e.0@,
        ),
        forall|i: int|
            0 <= i < names.len() && !(#[trigger] names[i]).1 ==> selectable(names).contains(
                names[i].0@,
            ),
        forall|i: int|
            #![trigger selectable(names)[i]]
            0 <= i < selectable(names).len() ==> exists|j: int|
                0 <= j < names.len() && !(#[trigger] names[j]).1 && names[j].0@ == selectable(
                    names,
                )[i],
{
    let pred = |e: (String, bool)| !e.1;
    lemma_selectable_is_filter(names);
    broadcast use vstd::seq_lib::group_filter_ensures;
    let fl = names.filter(pred);
    let sel = selectable(names);
    assert forall|i: int| 0 <= i < names.len() && !(#[trigger] names[i]).1 implies sel.contains(
        names[i].0@,
    ) by {
        assert(fl.contains(names[i]));
        let k = choose|k: int| 0 <= k < fl.len() && fl[k] == names[i];
        assert(sel[k] == fl[k].0@);
    }
    assert forall|i: int| #![trigger sel[i]] 0 <= i < sel.len() implies exists|j: int|
        0 <= j < names.len() && !(#[trigger] names[j]).1 && names[j].0@ == sel[i] by {
        assert(pred(fl[i]));
        assert(names.filter(pred).contains(fl[i])) by {
            assert(fl[i] == fl[i]);
        }
        lemma_filter_from(names, pred, i);
    }
}

proof fn lemma_filter_from(names: Seq<(String, bool)>, pred: spec_fn((String, bool)) -> bool, i: int)
    requires
        0 <= i < names.filter(pred).len(),
    ensures
        exists|j: int| 0 <= j < names.len() && #[trigger] names[j] == names.filter(pred)[i],
    decreases names.len(),
{
    reveal(Seq::filter);
    let init = names.drop_last();
    let sub = init.filter(pred);
    if i < sub.len() {
        lemma_filter_from(init, pred, i);
        let j = choose|j: int| 0 <= j < init.len() && #[trigger] init[j] == sub[i];
        assert(names[j] == init[j]);
    } else {
        assert(names[names.len() - 1] == names.filter(pred)[i]);
    }
}

proof fn lemma_selectable_is_filter(names: Seq<(String, bool)>)
    ensures
        selectable(names) == names.filter(|e: (String, bool)| !e.1).map_values(
            |e: (String, bool)| e.0@,
        ),
    decreases names.len(),
{
    reveal(Seq::filter);
    if names.len() > 0 {
        lemma_selectable_is_filter(names.drop_last());
        let pred = |e: (String, bool)| !e.1;
        let sub = names.drop_last().filter(pred);
        assert(names.filter(pred) == if pred(names.last()) {
            sub.push(names.last())
        } else {
            sub
        });
        if !names.last().1 {
            assert(sub.push(names.last()).map_values(|e: (String, bool)| e.0@) =~= sub.map_values(
                |e: (String, bool)| e.0@,
            ).push(names.last().0@));
        }
    }
}

/// Folders are taken one after the other: a step leaves the position of the
/// current folder as it is or moves it on by exactly one, and only by ending
/// that folder (reporting it done or skipped); the first step starts at the
/// first folder; a folder asked to be examined is the current one.
pub proof fn law_folders_one_by_one(
    b: RunModel,
    input: RunInput,
    cancelled: bool,
    a: RunModel,
    action: RunAction,
)
    requires
        run_model_wf(b),
        run_step_ok(b, input, cancelled, a, action),
    ensures
        a.folders == b.folders,
        b.phase == Phase::Start && a.phase != Phase::Start ==> a.current == 0,
        b.phase != Phase::Start ==> a.current == b.current || a.current == b.current + 1,
        b.phase != Phase::Start && a.current == b.current + 1 ==> {
            ||| action matches RunAction::Emit(ExportEvent::FolderDone { name }) && name@
                == b.folders[b.current as int]
            ||| action matches RunAction::Emit(ExportEvent::FolderSkipped { name, .. }) && name@
                == b.folders[b.current as int]
        },
        action matches RunAction::Examine { folder } ==> b.current < b.folders.len() && folder@
            == b.folders[b.current as int],
{
}

/// Some action before step `k` asks to examine the folder `name`.
pub open spec fn examined_before(actions: Seq<RunAction>, k: int, name: Seq<char>) -> bool {
    exists|j: int| 0 <= j < k && examines(#[trigger] actions[j], name)
}

/// `action` asks to examine the folder `name`.
pub open spec fn examines(action: RunAction, name: Seq<char>) -> bool {
    action matches RunAction::Examine { folder } && folder@ == name
}

/// Where a run stands as to the folders it has examined by step `k`.
pub open spec fn examined_so_far(m: RunModel, actions: Seq<RunAction>, k: int, folders: Seq<Seq<char>>) -> bool {
    &&& run_model_wf(m)
    &&& m.folders == folders
    &&& m.phase != Phase::Start ==> forall|i: int|
        0 <= i < m.current && i < folders.len() ==> examined_before(actions, k, #[trigger] folders[i])
    &&& (m.phase is AwaitListing || in_folder(m.phase)) ==> m.current < folders.len()
        && examined_before(actions, k, folders[m.current as int])
    &&& m.phase is Done ==> m.current >= folders.len()
}

proof fn lemma_examined_step(
    ms: Seq<RunModel>,
    inputs: Seq<RunInput>,
    cancels: Seq<bool>,
    actions: Seq<RunAction>,
    k: int,
)
    requires
        run_trace(ms, inputs, cancels, actions),
        0 <= k < inputs.len(),
        !cancels[k],
        examined_so_far(ms[k], actions, k, ms[0].folders),
    ensures
        examined_so_far(ms[k + 1], actions, k + 1, ms[0].folders),
{
    let b = ms[k];
    let a = ms[k + 1];
    let fs = ms[0].folders;
    assert(run_step_ok(b, inputs[k], cancels[k], a, actions[k]));
    law_run_stays_wf(b, inputs[k], cancels[k], a, actions[k]);
    law_folders_one_by_one(b, inputs[k], cancels[k], a, actions[k]);
    assert forall|name: Seq<char>| examined_before(actions, k, name) implies examined_before(
        actions,
        k + 1,
        name,
    ) by {
        let j = choose|j: int| 0 <= j < k && examines(#[trigger] actions[j], name);
        assert(examines(actions[j], name));
    }
    if actions[k] matches RunAction::Examine { folder } {
        assert(examined_before(actions, k + 1, fs[b.current as int])) by {
            assert(examines(actions[k], fs[b.current as int]));
        }
    }
    if a.phase != Phase::Start {
        assert forall|i: int| 0 <= i < a.current && i < fs.len() implies examined_before(
            actions,
            k + 1,
            #[trigger] fs[i],
        ) by {
            if b.phase != Phase::Start && i < b.current {
                assert(examined_before(actions, k, fs[i]));
            }
        }
    }
}

proof fn lemma_examined_trace(
    ms: Seq<RunModel>,
    inputs: Seq<RunInput>,
    cancels: Seq<bool>,
    actions: Seq<RunAction>,
    k: int,
)
    requires
        run_trace(ms, inputs, cancels, actions),
        ms[0].phase == Phase::Start,
        run_model_wf(ms[0]),
        forall|j: int| 0 <= j < cancels.len() ==> !#[trigger] cancels[j],
        0 <= k <= inputs.len(),
    ensures
        examined_so_far(ms[k], actions, k, ms[0].folders),
    decreases k,
{
    if k > 0 {
        lemma_examined_trace(ms, inputs, cancels, actions, k - 1);
        assert(!cancels[k - 1]);
        lemma_examined_step(ms, inputs, cancels, actions, k - 1);
    }
}

/// A run that is not cancelled examines every folder of its selection: once
/// it is over, each selected folder has been asked to be examined (none is
/// passed over, whether the folder before it had something new or not).
pub proof fn law_every_folder_examined(
    ms: Seq<RunModel>,
    inputs: Seq<RunInput>,
    cancels: Seq<bool>,
    actions: Seq<RunAction>,
)
    requires
        run_trace(ms, inputs, cancels, actions),
        ms[0].phase == Phase::Start,
        run_model_wf(ms[0]),
        forall|j: int| 0 <= j < cancels.len() ==> !#[trigger] cancels[j],
        ms.last().phase == Phase::Done,
    ensures
        forall|i: int|
            0 <= i < ms[0].folders.len() ==> examined_before(
                actions,
                actions.len() as int,
                #[trigger] ms[0].folders[i],
            ),
{
    lemma_examined_trace(ms, inputs, cancels, actions, inputs.len() as int);
    assert(ms.last() == ms[inputs.len() as int]);
}

} // verus!
