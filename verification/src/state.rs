//! Resume state of an export: for each IMAP folder, the UIDVALIDITY seen last,
//! the UIDs already exported and the next sequence number for file names.

use vstd::prelude::*;
use std::collections::BTreeSet;
use crate::text::same_text;

verus! {

broadcast use vstd::laws_cmp::group_laws_cmp, vstd::std_specs::btree::group_btree_axioms;

/// Resume state of one folder.
#[derive(Debug)]
pub struct FolderState {
    /// UIDVALIDITY of the folder when its UIDs were recorded.
    pub uid_validity: Option<u32>,
    /// UIDs already exported.
    pub exported_uids: BTreeSet<u32>,
    /// Sequence number of the last exported mail (file names count from 1).
    pub next_seq: u32,
}

/// Mathematical model of a `FolderState`.
pub struct FolderView {
    pub uid_validity: Option<u32>,
    pub exported: Set<u32>,
    pub next_seq: u32,
}

impl View for FolderState {
    type V = FolderView;

    open spec fn view(&self) -> FolderView {
        FolderView {
            uid_validity: self.uid_validity,
            exported: self.exported_uids@,
            next_seq: self.next_seq,
        }
    }
}

/// State of a folder seen for the first time: no UIDVALIDITY, nothing exported.
pub open spec fn fresh_folder() -> FolderView {
    FolderView { uid_validity: None, exported: Set::empty(), next_seq: 0 }
}

/// The state a folder has once prepared for `uid_validity`: unchanged when the
/// UIDVALIDITY is the one recorded, else emptied and stamped with the new one.
pub open spec fn prepared_folder(prev: FolderView, uid_validity: Option<u32>) -> FolderView {
    if prev.uid_validity == uid_validity {
        prev
    } else {
        FolderView { uid_validity, exported: Set::empty(), next_seq: 0 }
    }
}

/// The state of `folder` in `m` (a fresh one when absent).
pub open spec fn folder_in(m: Map<Seq<char>, FolderView>, folder: Seq<char>) -> FolderView {
    if m.contains_key(folder) {
        m[folder]
    } else {
        fresh_folder()
    }
}

/// The whole state once `folder` is prepared for `uid_validity`.
pub open spec fn prepared(
    m: Map<Seq<char>, FolderView>,
    folder: Seq<char>,
    uid_validity: Option<u32>,
) -> Map<Seq<char>, FolderView> {
    m.insert(folder, prepared_folder(folder_in(m, folder), uid_validity))
}

/// The (folder, UID) pairs that the resume state records as exported.
pub open spec fn exported_keys(m: Map<Seq<char>, FolderView>) -> Set<(Seq<char>, u32)> {
    Set::new(|k: (Seq<char>, u32)| folder_in(m, k.0).exported.contains(k.1))
}

/// The state of a folder once `uid` is recorded as exported.
pub open spec fn recorded(f: FolderView, uid: u32) -> FolderView {
    FolderView {
        uid_validity: f.uid_validity,
        exported: f.exported.insert(uid),
        next_seq: (f.next_seq + 1) as u32,
    }
}

impl FolderState {
    /// A folder with nothing exported.
    pub fn new() -> (res: FolderState)
        ensures
            res@ == fresh_folder(),
    {
        FolderState { uid_validity: None, exported_uids: BTreeSet::new(), next_seq: 0 }
    }

    /// Whether `uid` was already exported.
    pub fn is_exported(&self, uid: u32) -> (res: bool)
        ensures
            res == self@.exported.contains(uid),
    {
        self.exported_uids.contains(&uid)
    }

    /// Reserves the next sequence number (counted from 1) and marks `uid` exported.
    pub fn record(&mut self, uid: u32) -> (seq: u32)
        requires
            old(self).next_seq < u32::MAX,
        ensures
            final(self)@ == recorded(old(self)@, uid),
            seq == final(self).next_seq,
            seq == old(self).next_seq + 1,
    {
        self.next_seq = self.next_seq + 1;
        self.exported_uids.insert(uid);
        self.next_seq
    }
}

/// Resume state of a whole account: one `FolderState` per folder name.
#[derive(Debug)]
pub struct ExportState {
    folders: Vec<(String, FolderState)>,
}

/// The map from folder names to folder states that a list of entries holds
/// (a later entry for a name overrides an earlier one).
pub open spec fn entries_map(entries: Seq<(String, FolderState)>) -> Map<Seq<char>, FolderView>
    decreases entries.len(),
{
    if entries.len() == 0 {
        Map::empty()
    } else {
        entries_map(entries.drop_last()).insert(entries.last().0@, entries.last().1@)
    }
}

/// No folder name occurs twice among `entries`.
pub open spec fn unique_names(entries: Seq<(String, FolderState)>) -> bool {
    forall|i: int, j: int|
        0 <= i < j < entries.len() ==> #[trigger] entries[i].0@ != #[trigger] entries[j].0@
}

proof fn lemma_entries_map(entries: Seq<(String, FolderState)>)
    requires
        unique_names(entries),
    ensures
        forall|k: Seq<char>|
            #[trigger] entries_map(entries).contains_key(k) <==> exists|i: int|
                0 <= i < entries.len() && entries[i].0@ == k,
        forall|i: int|
            0 <= i < entries.len() ==> #[trigger] entries_map(entries)[entries[i].0@]
                == entries[i].1@,
    decreases entries.len(),
{
    if entries.len() > 0 {
        let init = entries.drop_last();
        assert(unique_names(init));
        lemma_entries_map(init);
        assert(entries_map(entries) == entries_map(init).insert(entries.last().0@, entries.last().1@));
        assert forall|k: Seq<char>|
            #[trigger] entries_map(entries).contains_key(k) implies exists|i: int|
                0 <= i < entries.len() && entries[i].0@ == k by {
            assert(entries_map(entries) == entries_map(init).insert(entries.last().0@, entries.last().1@));
            if k != entries.last().0@ {
                assert(entries_map(init).contains_key(k));
                let i = choose|i: int| 0 <= i < init.len() && init[i].0@ == k;
                assert(entries[i].0@ == k);
            } else {
                assert(entries[entries.len() - 1].0@ == k);
            }
        }
        assert forall|k: Seq<char>|
            (exists|i: int| 0 <= i < entries.len() && entries[i].0@ == k) implies
                #[trigger] entries_map(entries).contains_key(k) by {
            let i = choose|i: int| 0 <= i < entries.len() && entries[i].0@ == k;
            if i < entries.len() - 1 {
                assert(init[i].0@ == k);
                assert(entries_map(init).contains_key(k));
            }
        }
        assert forall|i: int| 0 <= i < entries.len() implies #[trigger] entries_map(entries)[entries[i].0@]
            == entries[i].1@ by {
            if i < entries.len() - 1 {
                assert(init[i] == entries[i]);
                assert(entries[i].0@ != entries[entries.len() - 1].0@);
                assert(entries_map(init)[init[i].0@] == init[i].1@);
            }
        }
    }
}

proof fn lemma_entries_len(entries: Seq<(String, FolderState)>)
    requires
        unique_names(entries),
    ensures
        entries_map(entries).dom().finite(),
        entries_map(entries).len() == entries.len(),
    decreases entries.len(),
{
    if entries.len() > 0 {
        let init = entries.drop_last();
        assert(unique_names(init));
        lemma_entries_len(init);
        lemma_entries_map(init);
        if entries_map(init).contains_key(entries.last().0@) {
            let i = choose|i: int| 0 <= i < init.len() && init[i].0@ == entries.last().0@;
            assert(entries[i].0@ == entries[entries.len() - 1].0@);
        }
    }
}

/// Replacing the entry at position `i` by one with the same name changes the map
/// at that name only.
proof fn lemma_entries_update(
    entries: Seq<(String, FolderState)>,
    i: int,
    p: (String, FolderState),
)
    requires
        unique_names(entries),
        0 <= i < entries.len(),
        p.0@ == entries[i].0@,
    ensures
        unique_names(entries.update(i, p)),
        entries_map(entries.update(i, p)) == entries_map(entries).insert(p.0@, p.1@),
{
    let updated = entries.update(i, p);
    assert forall|a: int, b: int|
        0 <= a < b < updated.len() implies #[trigger] updated[a].0@ != #[trigger] updated[b].0@ by {
        assert(updated[a].0@ == entries[a].0@ && updated[b].0@ == entries[b].0@);
    }
    lemma_entries_map(entries);
    lemma_entries_map(updated);
    let lhs = entries_map(updated);
    let rhs = entries_map(entries).insert(p.0@, p.1@);
    assert forall|k: Seq<char>| #[trigger] lhs.contains_key(k) <==> rhs.contains_key(k) by {
        if lhs.contains_key(k) {
            let j = choose|j: int| 0 <= j < updated.len() && updated[j].0@ == k;
            assert(entries[j].0@ == k);
            assert(entries_map(entries).contains_key(k));
        }
        if rhs.contains_key(k) && k != p.0@ {
            assert(entries_map(entries).contains_key(k));
            let j = choose|j: int| 0 <= j < entries.len() && entries[j].0@ == k;
            assert(updated[j].0@ == k);
        }
        if k == p.0@ {
            assert(updated[i].0@ == k);
        }
    }
    assert forall|k: Seq<char>| #[trigger] lhs.contains_key(k) implies lhs[k] == rhs[k] by {
        let j = choose|j: int| 0 <= j < updated.len() && updated[j].0@ == k;
        assert(lhs[updated[j].0@] == updated[j].1@);
        if j != i {
            assert(updated[j] == entries[j]);
            assert(entries[j].0@ != entries[i].0@);
            assert(entries_map(entries)[entries[j].0@] == entries[j].1@);
        }
    }
    assert(lhs =~= rhs);
}

/// For every state that may end up at position `i`, the map changes at that name only.
proof fn lemma_entries_update_all(entries: Seq<(String, FolderState)>, i: int)
    requires
        unique_names(entries),
        0 <= i < entries.len(),
    ensures
        forall|v: FolderState|
            #![trigger entries.update(i, (entries[i].0, v))]
            unique_names(entries.update(i, (entries[i].0, v))) && entries_map(
                entries.update(i, (entries[i].0, v)),
            ) == entries_map(entries).insert(entries[i].0@, v@),
{
    assert forall|v: FolderState| #![trigger entries.update(i, (entries[i].0, v))]
        unique_names(entries.update(i, (entries[i].0, v))) && entries_map(
            entries.update(i, (entries[i].0, v)),
        ) == entries_map(entries).insert(entries[i].0@, v@) by {
        lemma_entries_update(entries, i, (entries[i].0, v));
    }
}

impl View for ExportState {
    type V = Map<Seq<char>, FolderView>;

    closed spec fn view(&self) -> Map<Seq<char>, FolderView> {
        entries_map(self.folders@)
    }
}

impl ExportState {
    /// Well-formedness: each folder name has one entry.
    pub closed spec fn wf(&self) -> bool {
        unique_names(self.folders@)
    }

    /// An empty state.
    pub fn new() -> (res: ExportState)
        ensures
            res.wf(),
            res@ == Map::<Seq<char>, FolderView>::empty(),
    {
        ExportState { folders: Vec::new() }
    }

    /// Number of folders with a state.
    pub fn len(&self) -> (n: usize)
        requires
            self.wf(),
        ensures
            n == self@.len(),
    {
        proof {
            self.lemma_len();
        }
        self.folders.len()
    }

    proof fn lemma_len(&self)
        requires
            self.wf(),
        ensures
            self@.dom().finite(),
            self@.len() == self.folders@.len(),
        decreases self.folders@.len(),
    {
        lemma_entries_len(self.folders@);
    }

    /// Position of the entry of `folder`, if any.
    fn find(&self, folder: &str) -> (res: Option<usize>)
        requires
            self.wf(),
        ensures
            match res {
                Some(i) => i < self.folders@.len() && self.folders@[i as int].0@ == folder@,
                None => !self@.contains_key(folder@),
            },
    {
        proof {
            lemma_entries_map(self.folders@);
        }
        let n = self.folders.len();
        for i in 0..n
            invariant
                n == self.folders@.len(),
                forall|j: int| 0 <= j < i ==> self.folders@[j].0@ != folder@,
        {
            if same_text(self.folders[i].0.as_str(), folder) {
                return Some(i);
            }
        }
        None
    }

    /// The state of `folder`, if it has one.
    pub fn folder(&self, folder: &str) -> (res: Option<&FolderState>)
        requires
            self.wf(),
        ensures
            match res {
                Some(f) => self@.contains_key(folder@) && f@ == self@[folder@],
                None => !self@.contains_key(folder@),
            },
    {
        proof {
            lemma_entries_map(self.folders@);
        }
        match self.find(folder) {
            Some(i) => Some(&self.folders[i].1),
            None => None,
        }
    }

    /// The state made of `entries`, a later entry for a folder name replacing an
    /// earlier one (as when a JSON object repeats a key).
    pub fn from_entries(entries: Vec<(String, FolderState)>) -> (res: ExportState)
        ensures
            res.wf(),
            res@ == entries_map(entries@),
    {
        let mut res = ExportState::new();
        let ghost all = entries@;
        for e in it: entries
            invariant
                it.seq() == all,
                res.wf(),
                res@ == entries_map(all.take(it.index() as int)),
        {
            let ghost k = it.index() as int;
            proof {
                assert(all.take(k + 1).drop_last() == all.take(k));
                assert(all.take(k + 1).last() == e);
                lemma_entries_map(res.folders@);
            }
            match res.find(e.0.as_str()) {
                Some(j) => {
                    proof {
                        lemma_entries_update(res.folders@, j as int, e);
                    }
                    res.folders.set(j, e);
                },
                None => {
                    let ghost before = res.folders@;
                    res.folders.push(e);
                    proof {
                        assert forall|a: int, b: int|
                            0 <= a < b < res.folders@.len() implies #[trigger] res.folders@[a].0@
                            != #[trigger] res.folders@[b].0@ by {
                            if b == res.folders@.len() - 1 {
                                if before[a].0@ == e.0@ {
                                    assert(entries_map(before).contains_key(before[a].0@));
                                }
                            } else {
                                assert(before[a] == res.folders@[a] && before[b] == res.folders@[b]);
                            }
                        }
                        assert(res.folders@.drop_last() == before);
                    }
                },
            }
        }
        proof {
            assert(all.take(all.len() as int) == all);
        }
        res
    }

    /// The entries of the state, one per folder name.
    pub fn entries(&self) -> (res: &Vec<(String, FolderState)>)
        requires
            self.wf(),
        ensures
            unique_names(res@),
            entries_map(res@) == self@,
    {
        &self.folders
    }

    /// Prepares the state of `folder` for this UIDVALIDITY and gives access to it.
    /// A folder seen for the first time gets an empty state; if the UIDVALIDITY
    /// changed, the UIDs recorded before are no longer valid and the folder starts
    /// over from zero.
    pub fn folder_mut(&mut self, folder: &str, uid_validity: Option<u32>) -> (res:
        &mut FolderState)
        requires
            old(self).wf(),
        ensures
            final(self).wf(),
            (*res)@ == prepared_folder(folder_in(old(self)@, folder@), uid_validity),
            final(self)@ == old(self)@.insert(folder@, (*final(res))@),
    {
        proof {
            lemma_entries_map(self.folders@);
        }
        let idx = match self.find(folder) {
            Some(i) => i,
            None => {
                let ghost before = self.folders@;
                self.folders.push((folder.to_owned(), FolderState::new()));
                proof {
                    assert forall|i: int, j: int|
                        0 <= i < j < self.folders@.len() implies #[trigger] self.folders@[i].0@
                        != #[trigger] self.folders@[j].0@ by {
                        if j == self.folders@.len() - 1 {
                            assert(before[i].0@ != folder@);
                        } else {
                            assert(before[i] == self.folders@[i] && before[j] == self.folders@[j]);
                        }
                    }
                    assert(self.folders@.drop_last() == before);
                }
                self.folders.len() - 1
            },
        };
        let ghost mid = self.folders@;
        proof {
            lemma_entries_map(mid);
            assert(mid[idx as int].1@ == folder_in(old(self)@, folder@));
        }
        let entry = &mut self.folders[idx].1;
        if entry.uid_validity != uid_validity {
            entry.uid_validity = uid_validity;
            entry.exported_uids.clear();
            entry.next_seq = 0;
        }
        proof {
            lemma_entries_update_all(mid, idx as int);
        }
        entry
    }
}

// ---------------------------------------------------------------------------
// Laws of the resume state
// ---------------------------------------------------------------------------

/// Resuming skips what was exported: once `uid` is recorded in `folder` prepared
/// for `uid_validity`, preparing that folder again for the same UIDVALIDITY (as a
/// later batch or a later run does) reports `uid` as exported and keeps the
/// sequence count, so no file name is reused.
pub proof fn law_recorded_uid_stays_exported(
    m: Map<Seq<char>, FolderView>,
    folder: Seq<char>,
    uid_validity: Option<u32>,
    uid: u32,
)
    ensures
        ({
            let m1 = prepared(m, folder, uid_validity);
            let after = recorded(m1[folder], uid);
            let m2 = m1.insert(folder, after);
            let again = prepared(m2, folder, uid_validity)[folder];
            &&& again.exported.contains(uid)
            &&& again.next_seq == after.next_seq
            &&& again == after
        }),
{
}

/// A change of UIDVALIDITY invalidates the folder: whatever was recorded, the
/// folder prepared for a different UIDVALIDITY has nothing exported and counts
/// again from zero.
pub proof fn law_uidvalidity_change_resets(
    m: Map<Seq<char>, FolderView>,
    folder: Seq<char>,
    uid_validity: Option<u32>,
)
    requires
        folder_in(m, folder).uid_validity != uid_validity,
    ensures
        prepared(m, folder, uid_validity)[folder] == (FolderView {
            uid_validity,
            exported: Set::empty(),
            next_seq: 0,
        }),
{
}

/// Preparing a folder twice for the same UIDVALIDITY is the same as preparing it once.
pub proof fn law_prepare_idempotent(
    m: Map<Seq<char>, FolderView>,
    folder: Seq<char>,
    uid_validity: Option<u32>,
)
    ensures
        prepared(prepared(m, folder, uid_validity), folder, uid_validity) == prepared(
            m,
            folder,
            uid_validity,
        ),
{
    assert(prepared(prepared(m, folder, uid_validity), folder, uid_validity) =~= prepared(
        m,
        folder,
        uid_validity,
    ));
}

/// Preparing or recording in one folder leaves every other folder as it was.
pub proof fn law_other_folders_untouched(
    m: Map<Seq<char>, FolderView>,
    folder: Seq<char>,
    other: Seq<char>,
    uid_validity: Option<u32>,
    f: FolderView,
)
    requires
        other != folder,
    ensures
        folder_in(prepared(m, folder, uid_validity), other) == folder_in(m, other),
        folder_in(m.insert(folder, f), other) == folder_in(m, other),
{
}

/// Recording gives consecutive sequence numbers: after `n` records in a prepared
/// folder starting from `f`, the count is `f.next_seq + n` and every recorded UID
/// is marked exported.
pub proof fn law_record_numbers_consecutive(f: FolderView, uids: Seq<u32>)
    requires
        f.next_seq + uids.len() <= u32::MAX,
    ensures
        records(f, uids).next_seq == f.next_seq + uids.len(),
        records(f, uids).exported == f.exported + uids.to_set(),
        records(f, uids).uid_validity == f.uid_validity,
    decreases uids.len(),
{
    if uids.len() > 0 {
        law_record_numbers_consecutive(f, uids.drop_last());
        assert(uids.drop_last().to_set().insert(uids.last()) =~= uids.to_set()) by {
            assert forall|x: u32| #[trigger] uids.to_set().contains(x) implies uids.drop_last().to_set().insert(uids.last()).contains(x) by {
                let i = choose|i: int| 0 <= i < uids.len() && uids[i] == x;
                if i < uids.len() - 1 {
                    assert(uids.drop_last()[i] == x);
                }
            }
            assert forall|x: u32| #[trigger] uids.drop_last().to_set().insert(uids.last()).contains(x) implies uids.to_set().contains(x) by {
                if x != uids.last() {
                    let i = choose|i: int| 0 <= i < uids.len() - 1 && uids.drop_last()[i] == x;
                    assert(uids[i] == x);
                } else {
                    assert(uids[uids.len() - 1] == x);
                }
            }
        }
        assert(f.exported + uids.drop_last().to_set() + set![uids.last()] =~= f.exported + uids.to_set());
    } else {
        assert(uids.to_set() =~= Set::<u32>::empty());
        assert(f.exported + Set::<u32>::empty() =~= f.exported);
    }
}

/// The resume state does not depend on the order of its entries: two lists of
/// entries with one entry per folder name and the same entries give the same
/// state (so saving it as a JSON object, whose keys come back in any order,
/// and loading it again gives back the state that was saved).
pub proof fn law_entries_order_free(a: Seq<(String, FolderState)>, b: Seq<(String, FolderState)>)
    requires
        unique_names(a),
        unique_names(b),
        forall|x: (String, FolderState)| a.contains(x) <==> b.contains(x),
    ensures
        entries_map(a) == entries_map(b),
{
    lemma_entries_map(a);
    lemma_entries_map(b);
    let ma = entries_map(a);
    let mb = entries_map(b);
    assert forall|k: Seq<char>| #[trigger] ma.contains_key(k) <==> mb.contains_key(k) by {
        if ma.contains_key(k) {
            let i = choose|i: int| 0 <= i < a.len() && a[i].0@ == k;
            assert(a.contains(a[i]));
            let j = choose|j: int| 0 <= j < b.len() && b[j] == a[i];
            assert(b[j].0@ == k);
        }
        if mb.contains_key(k) {
            let j = choose|j: int| 0 <= j < b.len() && b[j].0@ == k;
            assert(b.contains(b[j]));
            let i = choose|i: int| 0 <= i < a.len() && a[i] == b[j];
            assert(a[i].0@ == k);
        }
    }
    assert forall|k: Seq<char>| #[trigger] ma.contains_key(k) implies ma[k] == mb[k] by {
        let i = choose|i: int| 0 <= i < a.len() && a[i].0@ == k;
        assert(a.contains(a[i]));
        let j = choose|j: int| 0 <= j < b.len() && b[j] == a[i];
        assert(ma[a[i].0@] == a[i].1@);
        assert(mb[b[j].0@] == b[j].1@);
    }
    assert(ma =~= mb);
}

/// The folder state after recording `uids` one after the other.
pub open spec fn records(f: FolderView, uids: Seq<u32>) -> FolderView
    decreases uids.len(),
{
    if uids.len() == 0 {
        f
    } else {
        recorded(records(f, uids.drop_last()), uids.last())
    }
}

} // verus!
