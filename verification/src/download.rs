//! Download manager: tracks one entry per artifact key, supports resuming
//! from a partial file, cooperative cancellation between chunks, and status
//! polling.

use vstd::prelude::*;
use crate::numfmt::{spec_decimal, u64_to_decimal};
use crate::textutil::str_eq;
use crate::textutil::str_starts_with;

verus! {

/// Status of one tracked download.
#[derive(Clone, Copy, PartialEq, Eq, Structural, Debug)]
pub enum DownloadStatus {
    Running,
    Done,
    Error,
    Canceled,
}

/// Progress of one tracked download.
#[derive(Debug)]
pub struct DownloadState {
    pub filename: String,
    pub total: Option<u64>,
    pub written: u64,
    pub status: DownloadStatus,
    pub error: Option<String>,
}

/// One tracked download: its progress and its cooperative cancel flag.
#[derive(Debug)]
pub struct DownloadEntry {
    pub state: DownloadState,
    pub cancel: bool,
}

/// Errors of the download manager.
#[derive(Clone, Copy, PartialEq, Eq, Structural, Debug)]
pub enum DownloadError {
    /// The artifact key is not tracked.
    NotFound,
    /// A local (non-network) source file is absent.
    SourceNotFound,
}

/// What `begin` decided.
#[derive(Clone, Copy, PartialEq, Eq, Structural, Debug)]
pub enum BeginOutcome {
    /// A transfer task should be started for this entry.
    Started,
    /// The final artifact already exists; a synthetic done entry was recorded.
    AlreadyInstalled,
}

/// First index whose key reads `key`, searching from `i`.
pub open spec fn find_key(s: Seq<(String, DownloadEntry)>, key: Seq<char>, i: int) -> Option<int>
    decreases s.len() - i,
{
    if i < 0 || i >= s.len() {
        Option::None
    } else if s[i].0@ == key {
        Option::Some(i)
    } else {
        find_key(s, key, i + 1)
    }
}

/// Whether the source is a local (non-network) one.
pub fn is_local_source(url: &str) -> (r: bool)
    ensures
        r == "file://"@.is_prefix_of(url@),
{
    str_starts_with(url, "file://")
}

/// The map from artifact keys to download entries.
pub struct DownloadManager {
    pub entries: Vec<(String, DownloadEntry)>,
}

impl DownloadManager {
    /// Keys are unique.
    pub open spec fn wf(&self) -> bool {
        forall|i: int, j: int|
            0 <= i < j < self.entries@.len() ==> self.entries@[i].0@ != self.entries@[j].0@
    }

    pub open spec fn view_entries(&self) -> Seq<(String, DownloadEntry)> {
        self.entries@
    }

    /// Whether a key is tracked.
    pub open spec fn has_key(&self, key: Seq<char>) -> bool {
        find_key(self.entries@, key, 0) is Some
    }

    /// The entry of a tracked key.
    pub open spec fn entry_at(&self, key: Seq<char>) -> DownloadEntry {
        self.entries@[find_key(self.entries@, key, 0).unwrap()].1
    }

    pub fn new() -> (r: DownloadManager)
        ensures
            r.wf(),
            r.view_entries() == Seq::<(String, DownloadEntry)>::empty(),
    {
        DownloadManager { entries: Vec::new() }
    }

    fn find_index(&self, key: &str) -> (r: Option<usize>)
        ensures
            match r {
                Option::Some(i) => i < self.entries@.len() && find_key(self.entries@, key@, 0)
                    == Option::Some(i as int),
                Option::None => find_key(self.entries@, key@, 0) is None,
            },
    {
        let n = self.entries.len();
        let mut i: usize = 0;
        while i < n
            invariant
                i <= n,
                n == self.entries@.len(),
                find_key(self.entries@, key@, 0) == find_key(self.entries@, key@, i as int),
            decreases n - i,
        {
            if str_eq(self.entries[i].0.as_str(), key) {
                return Some(i);
            }
            i += 1;
        }
        None
    }

    /// Inserts or replaces the entry of `key`.
    fn put(&mut self, key: String, entry: DownloadEntry)
        requires
            old(self).wf(),
        ensures
            final(self).wf(),
            final(self).has_key(key@),
            final(self).entry_at(key@) == entry,
            forall|k: Seq<char>|
                k != key@ ==> (#[trigger] final(self).has_key(k) == old(self).has_key(k) && (old(self).has_key(k) ==> final(self).entry_at(k) == old(self).entry_at(k))),
    {
        let idx = self.find_index(key.as_str());
        let ghost before = self.entries@;
        proof {
            lemma_find_key_props(before, key@, 0);
        }
        match idx {
            Some(i) => {
                self.entries.remove(i);
                self.entries.insert(i, (key, entry));
                proof {
                    assert(self.entries@ =~= before.update(i as int, (key, entry)));
                    lemma_update_preserves(before, i as int, (key, entry));
                    assert forall|k: Seq<char>|
                        k != key@ && old(self).has_key(k) implies final(self).entry_at(k) == old(self).entry_at(k) by {
                        lemma_find_key_props(before, k, 0);
                    }
                }
            },
            None => {
                self.entries.push((key, entry));
                proof {
                    lemma_push_preserves(before, (key, entry));
                    assert forall|a: int, b: int|
                        0 <= a < b < self.entries@.len() implies self.entries@[a].0@
                        != self.entries@[b].0@ by {
                        if b == before.len() as int {
                            assert(before[a].0@ != key@);
                        }
                    }
                    assert forall|k: Seq<char>|
                        k != key@ && old(self).has_key(k) implies final(self).entry_at(k) == old(self).entry_at(k) by {
                        lemma_find_key_props(before, k, 0);
                    }
                }
            },
        }
    }

    /// Records the start of a download: where the final artifact already
    /// exists a synthetic done entry is recorded and no transfer starts; an
    /// absent local source is an error; otherwise a running entry is
    /// recorded and a transfer task should follow.
    pub fn begin(
        &mut self,
        key: String,
        filename: String,
        url: &str,
        size_bytes: Option<u64>,
        final_exists: bool,
    ) -> (r: Result<BeginOutcome, DownloadError>)
        requires
            old(self).wf(),
        ensures
            final(self).wf(),
            final_exists ==> r == Ok::<BeginOutcome, DownloadError>(BeginOutcome::AlreadyInstalled)
                && final(self).has_key(key@) && final(self).entry_at(key@).state.status
                == DownloadStatus::Done && final(self).entry_at(key@).state.written == (
            match size_bytes {
                Option::Some(n) => n,
                Option::None => 0u64,
            }) && final(self).entry_at(key@).state.total == size_bytes,
            !final_exists && "file://"@.is_prefix_of(url@) ==> r == Err::<
                BeginOutcome,
                DownloadError,
            >(DownloadError::SourceNotFound) && *final(self) == *old(self),
            !final_exists && !"file://"@.is_prefix_of(url@) ==> r == Ok::<
                BeginOutcome,
                DownloadError,
            >(BeginOutcome::Started) && final(self).has_key(key@) && final(self).entry_at(
                key@,
            ).state.status == DownloadStatus::Running && final(self).entry_at(key@).state.written
                == 0 && final(self).entry_at(key@).state.total == size_bytes && !final(self).entry_at(key@).cancel,
            forall|k: Seq<char>|
                k != key@ ==> (#[trigger] final(self).has_key(k) == old(self).has_key(k) && (old(self).has_key(k) ==> final(self).entry_at(k) == old(self).entry_at(k))),
    {
        if is_local_source(url) || final_exists {
            if final_exists {
                let written = match size_bytes {
                    Some(n) => n,
                    None => 0,
                };
                let entry = DownloadEntry {
                    state: DownloadState {
                        filename,
                        total: size_bytes,
                        written,
                        status: DownloadStatus::Done,
                        error: None,
                    },
                    cancel: false,
                };
                self.put(key, entry);
                Ok(BeginOutcome::AlreadyInstalled)
            } else {
                Err(DownloadError::SourceNotFound)
            }
        } else {
            let entry = DownloadEntry {
                state: DownloadState {
                    filename,
                    total: size_bytes,
                    written: 0,
                    status: DownloadStatus::Running,
                    error: None,
                },
                cancel: false,
            };
            self.put(key, entry);
            Ok(BeginOutcome::Started)
        }
    }

    /// The current state of a tracked download; an unknown key is
    /// `NotFound`.
    pub fn status(&self, key: &str) -> (r: Result<DownloadState, DownloadError>)
        ensures
            r is Ok <==> self.has_key(key@),
            r is Err ==> r == Err::<DownloadState, DownloadError>(DownloadError::NotFound),
            r is Ok ==> ({
                let st = self.entry_at(key@).state;
                let got = r.unwrap();
                got.filename@ == st.filename@ && got.total == st.total && got.written == st.written
                    && got.status == st.status && match (got.error, st.error) {
                    (Option::Some(a), Option::Some(b)) => a@ == b@,
                    (Option::None, Option::None) => true,
                    _ => false,
                }
            }),
    {
        match self.find_index(key) {
            Some(i) => {
                let st = &self.entries[i].1.state;
                let error = match &st.error {
                    Some(e) => Some(e.clone()),
                    None => None,
                };
                Ok(
                    DownloadState {
                        filename: st.filename.clone(),
                        total: st.total,
                        written: st.written,
                        status: st.status,
                        error,
                    },
                )
            },
            None => Err(DownloadError::NotFound),
        }
    }

    /// Sets the cooperative cancel flag of a tracked download; an unknown
    /// key is `NotFound`. The transfer task observes the flag between
    /// chunks.
    pub fn cancel(&mut self, key: &str) -> (r: Result<(), DownloadError>)
        requires
            old(self).wf(),
        ensures
            final(self).wf(),
            r is Ok <==> old(self).has_key(key@),
            r is Err ==> r == Err::<(), DownloadError>(DownloadError::NotFound) && *final(self)
                == *old(self),
            r is Ok ==> final(self).has_key(key@) && final(self).entry_at(key@).cancel && final(self).entry_at(key@).state == old(self).entry_at(key@).state,
            forall|k: Seq<char>|
                k != key@ ==> (#[trigger] final(self).has_key(k) == old(self).has_key(k) && (old(self).has_key(k) ==> final(self).entry_at(k) == old(self).entry_at(k))),
    {
        match self.find_index(key) {
            Some(i) => {
                let (k, entry) = self.entries.remove(i);
                let ghost before = old(self).entries@;
                let updated = DownloadEntry { state: entry.state, cancel: true };
                self.entries.insert(i, (k, updated));
                proof {
                    lemma_find_key_props(before, key@, 0);
                    assert(self.entries@ =~= before.update(
                        i as int,
                        (before[i as int].0, updated),
                    ));
                    lemma_update_preserves(before, i as int, (before[i as int].0, updated));
                    assert forall|k2: Seq<char>|
                        k2 != key@ && old(self).has_key(k2) implies final(self).entry_at(k2) == old(self).entry_at(k2) by {
                        lemma_find_key_props(before, k2, 0);
                    }
                }
                Ok(())
            },
            None => Err(DownloadError::NotFound),
        }
    }

    /// Reads the cancel flag of a tracked download.
    pub fn is_canceled(&self, key: &str) -> (r: bool)
        ensures
            r == (self.has_key(key@) && self.entry_at(key@).cancel),
    {
        match self.find_index(key) {
            Some(i) => self.entries[i].1.cancel,
            None => false,
        }
    }

    /// Advances a tracked download's progress by one appended chunk. The
    /// written count never decreases: it grows by the chunk's length
    /// (saturating at the type's limit), and nothing else of the entry
    /// changes. An unknown key changes nothing.
    pub fn record_chunk(&mut self, key: &str, len: u64)
        requires
            old(self).wf(),
        ensures
            final(self).wf(),
            forall|k: Seq<char>| #[trigger] final(self).has_key(k) == old(self).has_key(k),
            old(self).has_key(key@) ==> ({
                let st0 = old(self).entry_at(key@).state;
                let st1 = final(self).entry_at(key@).state;
                &&& st1.written == if st0.written + len <= u64::MAX {
                    (st0.written + len) as u64
                } else {
                    u64::MAX
                }
                &&& st1.written >= st0.written
                &&& st1.filename == st0.filename
                &&& st1.total == st0.total
                &&& st1.status == st0.status
                &&& st1.error == st0.error
                &&& final(self).entry_at(key@).cancel == old(self).entry_at(key@).cancel
            }),
            !old(self).has_key(key@) ==> *final(self) == *old(self),
            forall|k: Seq<char>|
                k != key@ && old(self).has_key(k) ==> #[trigger] final(self).entry_at(k) == old(
                    self,
                ).entry_at(k),
    {
        match self.find_index(key) {
            Some(i) => {
                let (k, entry) = self.entries.remove(i);
                let ghost before = old(self).entries@;
                let advanced = match entry.state.written.checked_add(len) {
                    Some(w) => w,
                    None => u64::MAX,
                };
                let updated = DownloadEntry {
                    state: DownloadState {
                        filename: entry.state.filename,
                        total: entry.state.total,
                        written: advanced,
                        status: entry.state.status,
                        error: entry.state.error,
                    },
                    cancel: entry.cancel,
                };
                self.entries.insert(i, (k, updated));
                proof {
                    lemma_find_key_props(before, key@, 0);
                    assert(self.entries@ =~= before.update(
                        i as int,
                        (before[i as int].0, updated),
                    ));
                    lemma_update_preserves(before, i as int, (before[i as int].0, updated));
                    assert forall|k2: Seq<char>|
                        k2 != key@ && old(self).has_key(k2) implies final(self).entry_at(k2) == old(self).entry_at(k2) by {
                        lemma_find_key_props(before, k2, 0);
                    }
                }
            },
            None => {},
        }
    }

    /// Replaces the state of a tracked download, leaving the cancel flag.
    pub fn set_state(&mut self, key: &str, state: DownloadState)
        requires
            old(self).wf(),
        ensures
            final(self).wf(),
            final(self).has_key(key@) == old(self).has_key(key@),
            old(self).has_key(key@) ==> final(self).entry_at(key@).state == state && final(self).entry_at(key@).cancel == old(self).entry_at(key@).cancel,
            !old(self).has_key(key@) ==> *final(self) == *old(self),
            forall|k: Seq<char>|
                k != key@ ==> (#[trigger] final(self).has_key(k) == old(self).has_key(k) && (old(self).has_key(k) ==> final(self).entry_at(k) == old(self).entry_at(k))),
    {
        match self.find_index(key) {
            Some(i) => {
                let (k, entry) = self.entries.remove(i);
                let ghost before = old(self).entries@;
                let updated = DownloadEntry { state, cancel: entry.cancel };
                self.entries.insert(i, (k, updated));
                proof {
                    lemma_find_key_props(before, key@, 0);
                    assert(self.entries@ =~= before.update(
                        i as int,
                        (before[i as int].0, updated),
                    ));
                    lemma_update_preserves(before, i as int, (before[i as int].0, updated));
                    assert forall|k2: Seq<char>|
                        k2 != key@ && old(self).has_key(k2) implies final(self).entry_at(k2) == old(self).entry_at(k2) by {
                        lemma_find_key_props(before, k2, 0);
                    }
                }
            },
            None => {},
        }
    }
}

/// A successful lookup points at an entry with the key; a failed one means
/// no entry has it.
proof fn lemma_find_key_props(s: Seq<(String, DownloadEntry)>, key: Seq<char>, from: int)
    requires
        0 <= from <= s.len(),
    ensures
        match find_key(s, key, from) {
            Option::Some(i) => from <= i < s.len() && s[i].0@ == key,
            Option::None => forall|j: int| from <= j < s.len() ==> (#[trigger] s[j]).0@ != key,
        },
    decreases s.len() - from,
{
    if from < s.len() {
        lemma_find_key_props(s, key, from + 1);
    }
}

proof fn lemma_find_key_update(
    s: Seq<(String, DownloadEntry)>,
    i: int,
    v: (String, DownloadEntry),
    key: Seq<char>,
    from: int,
)
    requires
        0 <= i < s.len(),
        s[i].0@ == v.0@,
        0 <= from <= s.len(),
    ensures
        find_key(s.update(i, v), key, from) == find_key(s, key, from),
    decreases s.len() - from,
{
    if from < s.len() {
        lemma_find_key_update(s, i, v, key, from + 1);
    }
}

/// Replacing an entry under the same key keeps lookups of all keys pointing
/// where they pointed.
proof fn lemma_update_preserves(s: Seq<(String, DownloadEntry)>, i: int, v: (String, DownloadEntry))
    requires
        0 <= i < s.len(),
        s[i].0@ == v.0@,
    ensures
        forall|key: Seq<char>| #[trigger]
            find_key(s.update(i, v), key, 0) == find_key(s, key, 0),
{
    assert forall|key: Seq<char>| #[trigger]
        find_key(s.update(i, v), key, 0) == find_key(s, key, 0) by {
        lemma_find_key_update(s, i, v, key, 0);
    }
}

proof fn lemma_find_key_push_aux(
    s: Seq<(String, DownloadEntry)>,
    v: (String, DownloadEntry),
    key: Seq<char>,
    from: int,
)
    requires
        0 <= from <= s.len(),
    ensures
        find_key(s, key, from) is Some ==> find_key(s.push(v), key, from) == find_key(
            s,
            key,
            from,
        ),
        find_key(s, key, from) is None && key != v.0@ ==> find_key(s.push(v), key, from) is None,
        find_key(s, key, from) is None && key == v.0@ ==> find_key(s.push(v), key, from)
            == Option::Some(s.len() as int),
    decreases s.len() - from,
{
    if from < s.len() {
        lemma_find_key_push_aux(s, v, key, from + 1);
    } else {
        assert(s.push(v)[from] == v);
        if key != v.0@ {
            assert(find_key(s.push(v), key, from) == find_key(s.push(v), key, from + 1));
            assert(find_key(s.push(v), key, from + 1) is None);
        }
    }
}

/// Appending a fresh entry leaves other keys' lookups unchanged and makes
/// the new key found at the end.
proof fn lemma_push_preserves(s: Seq<(String, DownloadEntry)>, v: (String, DownloadEntry))
    ensures
        forall|key: Seq<char>|
            #![trigger find_key(s.push(v), key, 0)]
            {
                &&& (find_key(s, key, 0) is Some ==> find_key(s.push(v), key, 0) == find_key(
                    s,
                    key,
                    0,
                ))
                &&& (find_key(s, key, 0) is None && key != v.0@ ==> find_key(
                    s.push(v),
                    key,
                    0,
                ) is None)
                &&& (find_key(s, key, 0) is None && key == v.0@ ==> find_key(s.push(v), key, 0)
                    == Option::Some(s.len() as int))
            },
{
    assert forall|key: Seq<char>|
        #![trigger find_key(s.push(v), key, 0)]
        {
            &&& (find_key(s, key, 0) is Some ==> find_key(s.push(v), key, 0) == find_key(s, key, 0))
            &&& (find_key(s, key, 0) is None && key != v.0@ ==> find_key(
                s.push(v),
                key,
                0,
            ) is None)
            &&& (find_key(s, key, 0) is None && key == v.0@ ==> find_key(s.push(v), key, 0)
                == Option::Some(s.len() as int))
        } by {
        lemma_find_key_push_aux(s, v, key, 0);
    }
}


/// The value of the byte-range header for a resumed download: it requests
/// exactly the bytes from the partial file's length on. A download with no
/// partial bytes sends no range header.
pub fn range_header_value(partial_len: u64) -> (r: Option<String>)
    ensures
        partial_len == 0 ==> r is None,
        partial_len > 0 ==> r is Some && r.unwrap()@ == "bytes="@ + spec_decimal(
            partial_len as nat,
        ) + "-"@,
{
    if partial_len == 0 {
        None
    } else {
        let digits = u64_to_decimal(partial_len);
        let r = String::from_str("bytes=").concat(digits.as_str()).concat("-");
        Some(r)
    }
}

/// The total size of a resumed download: the server-reported remaining
/// length plus the bytes already on disk, so progress is measured against
/// the original full size.
pub fn resume_total(content_length: Option<u64>, resume: u64) -> (r: Option<u64>)
    requires
        content_length is Some ==> content_length.unwrap() + resume <= u64::MAX,
    ensures
        match content_length {
            Option::Some(c) => r == Option::Some((c + resume) as u64),
            Option::None => r is None,
        },
{
    match content_length {
        Some(c) => Some(c + resume),
        None => None,
    }
}

/// LAW. A partial file holding the first `l` bytes of the artifact, extended
/// by the bytes from `l` on, is byte-identical to the full artifact: a
/// resumed download that requests only the remaining bytes produces the same
/// file as a full one.
pub proof fn lemma_resume_reconstructs(full: Seq<u8>, l: int)
    requires
        0 <= l <= full.len(),
    ensures
        full.take(l) + full.skip(l) == full,
{
    assert(full.take(l) + full.skip(l) =~= full);
}

/// One observation of the transfer task, made between file writes: either a
/// chunk arrived (with the cancel flag as read before it, the transport
/// result, and the write result), or the stream ended normally.
pub enum TransferEvent {
    Chunk { canceled: bool, transport_ok: bool, write_ok: bool, len: u64 },
    EndOfStream,
}

/// What the transfer task does to the filesystem at one step.
#[derive(Clone, Copy, PartialEq, Eq, Structural, Debug)]
pub enum FsAction {
    /// Append the chunk's bytes to the partial file.
    AppendBytes(u64),
    /// Delete the partial file (cancellation).
    DeletePartial,
    /// Rename the partial file to its final name (completion).
    PromoteToFinal,
    /// Leave the partial file in place (errors, or a finished task).
    Keep,
}

/// The status after one transfer step. A task that is no longer running
/// stays where it is: `Done`, `Error` and `Canceled` are terminal.
pub open spec fn step_status(st: DownloadStatus, ev: TransferEvent) -> DownloadStatus {
    if st != DownloadStatus::Running {
        st
    } else {
        match ev {
            TransferEvent::Chunk { canceled, transport_ok, write_ok, .. } => if canceled {
                DownloadStatus::Canceled
            } else if !transport_ok || !write_ok {
                DownloadStatus::Error
            } else {
                DownloadStatus::Running
            },
            TransferEvent::EndOfStream => DownloadStatus::Done,
        }
    }
}

/// The filesystem action of one transfer step: cancellation deletes the
/// partial file; errors leave it in place for a later resume; a successful
/// chunk is appended; the end of the stream promotes the partial file.
pub open spec fn step_action(st: DownloadStatus, ev: TransferEvent) -> FsAction {
    if st != DownloadStatus::Running {
        FsAction::Keep
    } else {
        match ev {
            TransferEvent::Chunk { canceled, transport_ok, write_ok, len } => if canceled {
                FsAction::DeletePartial
            } else if !transport_ok || !write_ok {
                FsAction::Keep
            } else {
                FsAction::AppendBytes(len)
            },
            TransferEvent::EndOfStream => FsAction::PromoteToFinal,
        }
    }
}

/// The status after a whole run of transfer steps.
pub open spec fn run_status(st: DownloadStatus, evs: Seq<TransferEvent>) -> DownloadStatus
    decreases evs.len(),
{
    if evs.len() == 0 {
        st
    } else {
        run_status(step_status(st, evs[0]), evs.skip(1))
    }
}

/// The filesystem actions of a whole run of transfer steps, in order.
pub open spec fn run_actions(st: DownloadStatus, evs: Seq<TransferEvent>) -> Seq<FsAction>
    decreases evs.len(),
{
    if evs.len() == 0 {
        Seq::empty()
    } else {
        seq![step_action(st, evs[0])] + run_actions(step_status(st, evs[0]), evs.skip(1))
    }
}

/// One step of the transfer task, as executable code for the task loop.
pub fn transfer_step(st: DownloadStatus, ev: &TransferEvent) -> (r: (DownloadStatus, FsAction))
    ensures
        r.0 == step_status(st, *ev),
        r.1 == step_action(st, *ev),
{
    if st != DownloadStatus::Running {
        return (st, FsAction::Keep);
    }
    match ev {
        TransferEvent::Chunk { canceled, transport_ok, write_ok, len } => {
            if *canceled {
                (DownloadStatus::Canceled, FsAction::DeletePartial)
            } else if !*transport_ok || !*write_ok {
                (DownloadStatus::Error, FsAction::Keep)
            } else {
                (DownloadStatus::Running, FsAction::AppendBytes(*len))
            }
        },
        TransferEvent::EndOfStream => (DownloadStatus::Done, FsAction::PromoteToFinal),
    }
}

/// Terminal statuses stay, and a finished task touches the filesystem no
/// more.
proof fn lemma_run_terminal(st: DownloadStatus, evs: Seq<TransferEvent>)
    requires
        st != DownloadStatus::Running,
    ensures
        run_status(st, evs) == st,
        forall|i: int|
            0 <= i < run_actions(st, evs).len() ==> run_actions(st, evs)[i] == FsAction::Keep,
    decreases evs.len(),
{
    if evs.len() > 0 {
        lemma_run_terminal(st, evs.skip(1));
        assert forall|i: int|
            0 <= i < run_actions(st, evs).len() implies run_actions(st, evs)[i]
            == FsAction::Keep by {
            if i > 0 {
                assert(run_actions(st, evs)[i] == run_actions(st, evs.skip(1))[i - 1]);
            }
        }
    }
}

/// LAW. A canceled transfer deletes its partial file and never promotes
/// anything to the final path: a run that ends `Canceled` contains a
/// `DeletePartial` action and no `PromoteToFinal` action.
pub proof fn lemma_cancel_no_artifact(evs: Seq<TransferEvent>)
    requires
        run_status(DownloadStatus::Running, evs) == DownloadStatus::Canceled,
    ensures
        run_actions(DownloadStatus::Running, evs).contains(FsAction::DeletePartial),
        !run_actions(DownloadStatus::Running, evs).contains(FsAction::PromoteToFinal),
    decreases evs.len(),
{
    let acts = run_actions(DownloadStatus::Running, evs);
    let st1 = step_status(DownloadStatus::Running, evs[0]);
    if st1 == DownloadStatus::Canceled {
        assert(acts[0] == FsAction::DeletePartial);
        lemma_run_terminal(st1, evs.skip(1));
        assert forall|i: int| 0 <= i < acts.len() implies acts[i] != FsAction::PromoteToFinal by {
            if i > 0 {
                assert(acts[i] == run_actions(st1, evs.skip(1))[i - 1]);
            }
        }
    } else if st1 == DownloadStatus::Running {
        lemma_cancel_no_artifact(evs.skip(1));
        let tail_acts = run_actions(st1, evs.skip(1));
        let j = choose|j: int| 0 <= j < tail_acts.len() && tail_acts[j] == FsAction::DeletePartial;
        assert(acts[j + 1] == FsAction::DeletePartial);
        assert(acts.contains(FsAction::DeletePartial));
        assert forall|i: int| 0 <= i < acts.len() implies acts[i] != FsAction::PromoteToFinal by {
            if i > 0 {
                assert(acts[i] == tail_acts[i - 1]);
                assert(!tail_acts.contains(FsAction::PromoteToFinal));
            } else {
                assert(acts[0] == step_action(DownloadStatus::Running, evs[0]));
            }
        }
    } else {
        lemma_run_terminal(st1, evs.skip(1));
        assert(false);
    }
}

/// A completed transfer promotes the partial file exactly once, as its last
/// action.
pub proof fn lemma_done_promotes(evs: Seq<TransferEvent>)
    requires
        run_status(DownloadStatus::Running, evs) == DownloadStatus::Done,
    ensures
        run_actions(DownloadStatus::Running, evs).contains(FsAction::PromoteToFinal),
    decreases evs.len(),
{
    let acts = run_actions(DownloadStatus::Running, evs);
    let st1 = step_status(DownloadStatus::Running, evs[0]);
    if st1 == DownloadStatus::Done {
        assert(acts[0] == FsAction::PromoteToFinal);
        assert(acts.contains(FsAction::PromoteToFinal));
    } else if st1 == DownloadStatus::Running {
        lemma_done_promotes(evs.skip(1));
        let tail_acts = run_actions(st1, evs.skip(1));
        let j = choose|j: int|
            0 <= j < tail_acts.len() && tail_acts[j] == FsAction::PromoteToFinal;
        assert(acts[j + 1] == FsAction::PromoteToFinal);
        assert(acts.contains(FsAction::PromoteToFinal));
    } else {
        lemma_run_terminal(st1, evs.skip(1));
        assert(false);
    }
}

} // verus!
