use vstd::prelude::*;
use crate::assembly::{apply_parts, assemble_file, failures, parts_fit, results_view, zeros};
use crate::chunks::{part_data, part_fits, part_in_chunk};
use crate::downloader::{downloaded_file_ok, existing_file_ok, keeps_existing, DownloadProgress, FileProgress};
use crate::hashing::sha1_digest;
use crate::model::{ChunkPart, FileEntry};

verus! {

/// The bookkeeping of a run as numbers.
pub struct ProgressView {
    pub downloaded_files_number: int,
    pub failed_files_number: int,
    pub downloading_files: Map<Seq<char>, FileProgress>,
    pub total_files_number: int,
    pub downloaded_bytes: int,
    pub total_bytes: int,
    pub finished: bool,
    pub downloading: bool,
}

impl View for DownloadProgress {
    type V = ProgressView;

    open spec fn view(&self) -> ProgressView {
        ProgressView {
            downloaded_files_number: self.downloaded_files_number as int,
            failed_files_number: self.failed_files_number as int,
            downloading_files: self.downloading_files@,
            total_files_number: self.total_files_number as int,
            downloaded_bytes: self.downloaded_bytes as int,
            total_bytes: self.total_bytes as int,
            finished: self.finished,
            downloading: self.downloading,
        }
    }
}

/// One step of bookkeeping, as the workers record it.
pub enum ProgressEvent {
    /// A file already on disk was accepted, with its bytes.
    PresentFile(nat),
    /// A part arrived: the file, its bytes, the chunks fetched so far for
    /// the file and the number of its parts.
    Part(Seq<char>, nat, u64, usize),
    /// Parts or files that failed.
    Failures(nat),
    /// The file is no longer in progress.
    EndFile(Seq<char>),
    /// A file was downloaded and written.
    Downloaded,
    /// The queue was found empty: the run ends if every file is accounted
    /// for.
    Finish,
}

/// Every file counts as downloaded or failed.
pub open spec fn accounted(v: ProgressView) -> bool {
    v.downloaded_files_number + v.failed_files_number == v.total_files_number
}

/// The bookkeeping after one step.
pub open spec fn apply_event(v: ProgressView, e: ProgressEvent) -> ProgressView {
    match e {
        ProgressEvent::PresentFile(b) => ProgressView {
            downloaded_files_number: v.downloaded_files_number + 1,
            downloaded_bytes: v.downloaded_bytes + b,
            ..v
        },
        ProgressEvent::Part(name, b, fetched, parts) => ProgressView {
            downloaded_bytes: v.downloaded_bytes + b,
            downloading_files: v.downloading_files.insert(name, (fetched, parts)),
            ..v
        },
        ProgressEvent::Failures(k) => ProgressView { failed_files_number: v.failed_files_number + k, ..v },
        ProgressEvent::EndFile(name) => ProgressView { downloading_files: v.downloading_files.remove(name), ..v },
        ProgressEvent::Downloaded => ProgressView { downloaded_files_number: v.downloaded_files_number + 1, ..v },
        ProgressEvent::Finish => if accounted(v) {
            ProgressView { finished: true, downloading: false, ..v }
        } else {
            v
        },
    }
}

/// The bookkeeping after a run of steps, in order.
pub open spec fn apply_events(v: ProgressView, es: Seq<ProgressEvent>) -> ProgressView
    decreases es.len(),
{
    if es.len() == 0 {
        v
    } else {
        apply_event(apply_events(v, es.drop_last()), es.last())
    }
}

/// A step would take a counter past `usize::MAX`.
pub open spec fn overflows(v: ProgressView, e: ProgressEvent) -> bool {
    match e {
        ProgressEvent::PresentFile(b) => v.downloaded_files_number + 1 > usize::MAX || v.downloaded_bytes + b > usize::MAX,
        ProgressEvent::Part(_, b, _, _) => v.downloaded_bytes + b > usize::MAX,
        ProgressEvent::Failures(k) => v.failed_files_number + k > usize::MAX,
        ProgressEvent::Downloaded => v.downloaded_files_number + 1 > usize::MAX,
        _ => false,
    }
}

/// The bytes that a run of steps credits: those of accepted files already
/// on disk and those of arrived parts.
pub open spec fn credited_bytes(es: Seq<ProgressEvent>) -> int
    decreases es.len(),
{
    if es.len() == 0 {
        0
    } else {
        credited_bytes(es.drop_last()) + match es.last() {
            ProgressEvent::PresentFile(b) => b as int,
            ProgressEvent::Part(_, b, _, _) => b as int,
            _ => 0,
        }
    }
}

/// Running two runs of steps one after the other is running their
/// concatenation.
pub proof fn lemma_apply_events_concat(v: ProgressView, a: Seq<ProgressEvent>, b: Seq<ProgressEvent>)
    ensures
        apply_events(v, a + b) == apply_events(apply_events(v, a), b),
    decreases b.len(),
{
    if b.len() == 0 {
        assert(a + b =~= a);
    } else {
        assert((a + b).drop_last() =~= a + b.drop_last());
        assert((a + b).last() == b.last());
        lemma_apply_events_concat(v, a, b.drop_last());
    }
}

/// Over any run of steps the byte count rises by exactly the bytes of the
/// accepted files already on disk and of the parts that arrived; the file
/// counters never go down and the totals never change.
pub proof fn lemma_run_bytes(v: ProgressView, es: Seq<ProgressEvent>)
    ensures
        apply_events(v, es).downloaded_bytes == v.downloaded_bytes + credited_bytes(es),
        credited_bytes(es) >= 0,
        apply_events(v, es).downloaded_files_number >= v.downloaded_files_number,
        apply_events(v, es).failed_files_number >= v.failed_files_number,
        apply_events(v, es).total_files_number == v.total_files_number,
        apply_events(v, es).total_bytes == v.total_bytes,
    decreases es.len(),
{
    if es.len() > 0 {
        lemma_run_bytes(v, es.drop_last());
    }
}

/// A run ends finished only through a `Finish` step taken when every file
/// was accounted for.
pub proof fn lemma_run_finish(v: ProgressView, es: Seq<ProgressEvent>)
    requires
        !v.finished,
        apply_events(v, es).finished,
    ensures
        exists|i: int| 0 <= i < es.len() && es[i] == ProgressEvent::Finish && #[trigger] accounted(apply_events(v, es.take(i))),
    decreases es.len(),
{
    let n = es.len() - 1;
    assert(es.take(n) =~= es.drop_last());
    let before = apply_events(v, es.drop_last());
    if before.finished {
        lemma_run_finish(v, es.drop_last());
        let i = choose|i: int| 0 <= i < es.drop_last().len() && es.drop_last()[i] == ProgressEvent::Finish
            && #[trigger] accounted(apply_events(v, es.drop_last().take(i)));
        assert(es.drop_last().take(i) =~= es.take(i));
        assert(es[i] == es.drop_last()[i]);
    } else {
        assert(es[n] == es.last());
        assert(es.last() == ProgressEvent::Finish);
        assert(accounted(apply_events(v, es.take(n))));
    }
}

/// One bookkeeping step that a worker hands to the shared progress.
pub enum ProgressUpdate {
    PresentFile(usize),
    Part { filename: String, bytes: usize, fetched: u64, parts: usize },
    Failures(usize),
    EndFile(String),
    Downloaded,
    Finish,
}

impl View for ProgressUpdate {
    type V = ProgressEvent;

    open spec fn view(&self) -> ProgressEvent {
        match self {
            ProgressUpdate::PresentFile(b) => ProgressEvent::PresentFile(*b as nat),
            ProgressUpdate::Part { filename, bytes, fetched, parts } => ProgressEvent::Part(filename@, *bytes as nat, *fetched, *parts),
            ProgressUpdate::Failures(k) => ProgressEvent::Failures(*k as nat),
            ProgressUpdate::EndFile(name) => ProgressEvent::EndFile(name@),
            ProgressUpdate::Downloaded => ProgressEvent::Downloaded,
            ProgressUpdate::Finish => ProgressEvent::Finish,
        }
    }
}

/// The events of a list of updates.
pub open spec fn updates_view(us: Seq<ProgressUpdate>) -> Seq<ProgressEvent> {
    us.map_values(|u: ProgressUpdate| u@)
}

/// A counter would have gone past `usize::MAX`.
#[derive(Clone, Copy, Debug, PartialEq, Eq, Structural)]
pub struct CounterOverflow;

impl DownloadProgress {
    /// Records one step; refuses, changing nothing, a step that would take a
    /// counter past `usize::MAX`.
    pub fn apply(&mut self, u: &ProgressUpdate) -> (r: Result<(), CounterOverflow>)
        requires
            old(self).wf(),
        ensures
            final(self).wf(),
            r is Err <==> overflows(old(self)@, u@),
            r is Ok ==> final(self)@ == apply_event(old(self)@, u@),
            r is Err ==> *final(self) == *old(self),
    {
        match u {
            ProgressUpdate::PresentFile(b) => {
                if self.downloaded_files_number == usize::MAX || self.downloaded_bytes > usize::MAX - *b {
                    return Err(CounterOverflow);
                }
                self.count_present_file(*b);
            },
            ProgressUpdate::Part { filename, bytes, fetched, parts } => {
                if self.downloaded_bytes > usize::MAX - *bytes {
                    return Err(CounterOverflow);
                }
                self.count_part(filename.clone(), *bytes, *fetched, *parts);
            },
            ProgressUpdate::Failures(k) => {
                if self.failed_files_number > usize::MAX - *k {
                    return Err(CounterOverflow);
                }
                self.count_failures(*k);
            },
            ProgressUpdate::EndFile(name) => {
                self.end_file(name);
            },
            ProgressUpdate::Downloaded => {
                if self.downloaded_files_number == usize::MAX {
                    return Err(CounterOverflow);
                }
                self.count_downloaded_file();
            },
            ProgressUpdate::Finish => {
                self.try_finish();
            },
        }
        assert(self@ =~= apply_event(old(self)@, u@));
        Ok(())
    }

    /// Records the steps in order, stopping at the first one that would take
    /// a counter past `usize::MAX`; the steps before it stay recorded.
    pub fn apply_all(&mut self, us: &Vec<ProgressUpdate>) -> (r: Result<(), CounterOverflow>)
        requires
            old(self).wf(),
        ensures
            final(self).wf(),
            r is Ok ==> final(self)@ == apply_events(old(self)@, updates_view(us@)),
            r is Err ==> exists|k: int| 0 <= k < us@.len()
                && final(self)@ == apply_events(old(self)@, updates_view(us@).take(k))
                && #[trigger] overflows(final(self)@, updates_view(us@)[k]),
    {
        let ghost start = self@;
        let ghost ev = updates_view(us@);
        let mut i: usize = 0;
        while i < us.len()
            invariant
                self.wf(),
                i <= us@.len(),
                ev == updates_view(us@),
                start == old(self)@,
                self@ == apply_events(start, ev.take(i as int)),
            decreases us.len() - i,
        {
            assert(ev[i as int] == us@[i as int]@);
            match self.apply(&us[i]) {
                Err(e) => {
                    assert(overflows(self@, ev[i as int]));
                    assert(0 <= i < us@.len() && self@ == apply_events(old(self)@, updates_view(us@).take(i as int))
                        && overflows(self@, updates_view(us@)[i as int]));
                    return Err(e);
                },
                Ok(()) => {
                    assert(ev.take(i + 1).drop_last() =~= ev.take(i as int));
                },
            }
            i = i + 1;
        }
        assert(ev.take(us@.len() as int) =~= ev);
        Ok(())
    }
}

/// Where a worker is in its work on one file.
pub enum WorkerState {
    /// Waiting for the next file.
    Idle,
    /// The parts of this file are being fetched.
    Fetching(FileEntry),
    /// This file was assembled and is being written.
    Writing(FileEntry),
    /// The worker must stop.
    Stopped,
}

/// What the outside world tells the worker.
pub enum WorkerEvent {
    /// The queue of files is empty.
    QueueEmpty,
    /// A file was taken from the queue, with the bytes found on disk at its
    /// place, if any.
    NextFile(FileEntry, Option<Vec<u8>>),
    /// The fetches of the parts ended, in the order of the parts: the bytes
    /// of each part and where they land in the file, or nothing.
    PartsDone(Vec<Option<(Vec<u8>, usize)>>),
    /// The assembled file was written.
    Written,
}

/// What the worker asks the outside world to do.
pub enum WorkerAction {
    /// Record the updates; stop when the run is finished, else look again.
    TryFinish,
    /// The file on disk is intact: record the updates and take the next file.
    KeepExisting,
    /// Fetch the parts of the file, deleting the corrupted copy first.
    Download { delete_corrupted: bool },
    /// Write these bytes as the file; `failed_parts` parts did not arrive.
    Write { data: Vec<u8>, failed_parts: usize },
    /// The assembled file does not have its digest: report it.
    Discard { failed_parts: usize },
    /// The file is recorded as downloaded: take the next one.
    Next,
    /// A part lands past the end of its file: the worker gives up.
    PartOutOfRange,
}

/// The worker can take the event in its state.
pub open spec fn accepts(state: WorkerState, event: WorkerEvent) -> bool {
    match state {
        WorkerState::Idle => event is QueueEmpty || event is NextFile,
        WorkerState::Fetching(_) => event is PartsDone,
        WorkerState::Writing(_) => event is Written,
        WorkerState::Stopped => false,
    }
}

/// The updates that end the download of a file: the failed parts, the end
/// of its progress entry and, when its digest is wrong, one more failure.
pub open spec fn closing_events(name: Seq<char>, failed_parts: nat, ok: bool) -> Seq<ProgressEvent> {
    if ok {
        seq![ProgressEvent::Failures(failed_parts), ProgressEvent::EndFile(name)]
    } else {
        seq![ProgressEvent::Failures(failed_parts), ProgressEvent::EndFile(name), ProgressEvent::Failures(1)]
    }
}

/// The decision of a worker: from its state and what happened, its next
/// state, what to do and the bookkeeping to record.
pub fn worker_step(state: WorkerState, event: WorkerEvent, ignore_corrupted: bool)
    -> (r: (WorkerState, WorkerAction, Vec<ProgressUpdate>))
    requires
        accepts(state, event),
    ensures
        state is Idle && event is QueueEmpty ==> r.0 is Idle && r.1 is TryFinish
            && updates_view(r.2@) == seq![ProgressEvent::Finish],
        event matches WorkerEvent::NextFile(f, None) ==> r.0 == WorkerState::Fetching(f)
            && r.1 == (WorkerAction::Download { delete_corrupted: false }) && r.2@.len() == 0,
        event matches WorkerEvent::NextFile(f, Some(d)) ==> {
            if keeps_existing(f.file_size, f.sha_hash@, d@, ignore_corrupted) {
                &&& r.0 is Idle
                &&& r.1 is KeepExisting
                &&& updates_view(r.2@) == seq![ProgressEvent::PresentFile(d@.len())]
            } else {
                &&& r.0 == WorkerState::Fetching(f)
                &&& r.1 == (WorkerAction::Download { delete_corrupted: true })
                &&& r.2@.len() == 0
            }
        },
        state matches WorkerState::Fetching(f) ==> (event matches WorkerEvent::PartsDone(rs) ==> {
            let rv = results_view(rs@);
            let n = f.file_size as nat;
            if !parts_fit(rv, n as int) {
                r.0 is Stopped && r.1 is PartOutOfRange && r.2@.len() == 0
            } else {
                let buf = apply_parts(zeros(n), rv);
                let ok = ignore_corrupted || sha1_digest(buf) == f.sha_hash@;
                &&& updates_view(r.2@) == closing_events(f.filename@, failures(rv), ok)
                &&& ok ==> r.0 == WorkerState::Writing(f) && (r.1 matches WorkerAction::Write { data, failed_parts }
                    && data@ == buf && failed_parts == failures(rv))
                &&& !ok ==> r.0 is Idle && (r.1 matches WorkerAction::Discard { failed_parts }
                    && failed_parts == failures(rv))
            }
        }),
        state is Writing && event is Written ==> r.0 is Idle && r.1 is Next
            && updates_view(r.2@) == seq![ProgressEvent::Downloaded],
{
    match state {
        WorkerState::Idle => match event {
            WorkerEvent::QueueEmpty => {
                let mut us: Vec<ProgressUpdate> = Vec::new();
                us.push(ProgressUpdate::Finish);
                assert(updates_view(us@) =~= seq![ProgressEvent::Finish]);
                (WorkerState::Idle, WorkerAction::TryFinish, us)
            },
            WorkerEvent::NextFile(file, on_disk) => match on_disk {
                None => (WorkerState::Fetching(file), WorkerAction::Download { delete_corrupted: false }, Vec::new()),
                Some(data) => {
                    if existing_file_ok(&file, &data, ignore_corrupted) {
                        let mut us: Vec<ProgressUpdate> = Vec::new();
                        us.push(ProgressUpdate::PresentFile(data.len()));
                        assert(updates_view(us@) =~= seq![ProgressEvent::PresentFile(data@.len())]);
                        (WorkerState::Idle, WorkerAction::KeepExisting, us)
                    } else {
                        (WorkerState::Fetching(file), WorkerAction::Download { delete_corrupted: true }, Vec::new())
                    }
                },
            },
            _ => (WorkerState::Stopped, WorkerAction::PartOutOfRange, Vec::new()),
        },
        WorkerState::Fetching(file) => match event {
            WorkerEvent::PartsDone(results) => {
                let n = file.file_size as usize;
                if !results_fit(&results, n) {
                    return (WorkerState::Stopped, WorkerAction::PartOutOfRange, Vec::new());
                }
                let (data, failed) = assemble_file(n, &results);
                assert(n as nat == file.file_size as nat);
                let ok = downloaded_file_ok(&file, &data, ignore_corrupted);
                let mut us: Vec<ProgressUpdate> = Vec::new();
                us.push(ProgressUpdate::Failures(failed));
                us.push(ProgressUpdate::EndFile(file.filename.clone()));
                if ok {
                    assert(updates_view(us@) =~= closing_events(file.filename@, failures(results_view(results@)), true));
                    (WorkerState::Writing(file), WorkerAction::Write { data, failed_parts: failed }, us)
                } else {
                    us.push(ProgressUpdate::Failures(1));
                    assert(updates_view(us@) =~= closing_events(file.filename@, failures(results_view(results@)), false));
                    (WorkerState::Idle, WorkerAction::Discard { failed_parts: failed }, us)
                }
            },
            _ => (WorkerState::Stopped, WorkerAction::PartOutOfRange, Vec::new()),
        },
        WorkerState::Writing(_) => {
            let mut us: Vec<ProgressUpdate> = Vec::new();
            us.push(ProgressUpdate::Downloaded);
            assert(updates_view(us@) =~= seq![ProgressEvent::Downloaded]);
            (WorkerState::Idle, WorkerAction::Next, us)
        },
        WorkerState::Stopped => (WorkerState::Stopped, WorkerAction::PartOutOfRange, Vec::new()),
    }
}

/// Whether every part that arrived lies inside a file of `n` bytes.
pub fn results_fit(results: &Vec<Option<(Vec<u8>, usize)>>, n: usize) -> (r: bool)
    ensures
        r == parts_fit(results_view(results@), n as int),
{
    let ghost rv = results_view(results@);
    let mut i: usize = 0;
    while i < results.len()
        invariant
            i <= results@.len(),
            rv == results_view(results@),
            forall|k: int| 0 <= k < i ==> (#[trigger] rv[k] matches Some(p) ==> p.1 + p.0.len() <= n),
        decreases results.len() - i,
    {
        assert(rv[i as int] == results_view(results@)[i as int]);
        match &results[i] {
            Some(p) => {
                if p.1 > n || p.0.len() > n - p.1 {
                    return false;
                }
            },
            None => {},
        }
        i = i + 1;
    }
    true
}

/// What a fetch task does with a chunk that arrived: cuts its part out of
/// it and records the part's bytes with the chunks fetched so far for the
/// file; refuses a part that does not lie inside the chunk.
pub fn part_step(filename: &String, part: &ChunkPart, chunk_data: &Vec<u8>, fetched: u64, parts: usize)
    -> (r: Result<(Vec<u8>, ProgressUpdate), PartOutsideChunk>)
    ensures
        r is Err <==> !part_in_chunk(*part, chunk_data@.len() as int),
        r matches Ok(p) ==> p.0@ == chunk_data@.subrange(part.offset as int, part.offset + part.size)
            && p.1@ == ProgressEvent::Part(filename@, part.size as nat, fetched, parts),
{
    if !part_fits(chunk_data, part) {
        return Err(PartOutsideChunk);
    }
    let data = part_data(chunk_data, part);
    let bytes = data.len();
    Ok((data, ProgressUpdate::Part { filename: filename.clone(), bytes, fetched, parts }))
}

/// A part does not lie inside the chunk that holds it.
#[derive(Clone, Copy, Debug, PartialEq, Eq, Structural)]
pub struct PartOutsideChunk;

} // verus!
