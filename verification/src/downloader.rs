use vstd::prelude::*;
use std::collections::VecDeque;
use crate::application::{total_file_size, total_size};
use crate::chunks::{chunk_url, chunk_url_text, find_chunk};
use crate::hashing::{check_hash, sha1_digest};
use crate::model::{ChunkInfo, ChunkPart, FileEntry, files_view};
use crate::text_map::TextMap;

verus! {

/// How far the download of one file is: chunks fetched so far, and the
/// number of parts of the file.
pub type FileProgress = (u64, usize);

/// The shared bookkeeping of a download run.
pub struct DownloadProgress {
    pub downloaded_files_number: usize,
    pub failed_files_number: usize,
    pub downloading_files: TextMap<FileProgress>,
    pub total_files_number: usize,
    pub downloaded_bytes: usize,
    pub total_bytes: usize,
    pub finished: bool,
    pub downloading: bool,
}

/// From `a` to `b` no counter went down and the totals stayed.
pub open spec fn counts_grow(a: DownloadProgress, b: DownloadProgress) -> bool {
    &&& a.downloaded_files_number <= b.downloaded_files_number
    &&& a.failed_files_number <= b.failed_files_number
    &&& a.downloaded_bytes <= b.downloaded_bytes
    &&& a.total_files_number == b.total_files_number
    &&& a.total_bytes == b.total_bytes
}

impl Default for DownloadProgress {
    /// Nothing counted, nothing to do, not started.
    fn default() -> (p: DownloadProgress)
        ensures
            p.wf(),
            p.downloaded_files_number == 0,
            p.failed_files_number == 0,
            p.downloading_files@ == Map::<Seq<char>, FileProgress>::empty(),
            p.total_files_number == 0,
            p.downloaded_bytes == 0,
            p.total_bytes == 0,
            !p.finished,
            !p.downloading,
    {
        DownloadProgress {
            downloaded_files_number: 0,
            failed_files_number: 0,
            downloading_files: TextMap::new(),
            total_files_number: 0,
            downloaded_bytes: 0,
            total_bytes: 0,
            finished: false,
            downloading: false,
        }
    }
}

impl DownloadProgress {
    /// The files in progress form a map.
    pub open spec fn wf(&self) -> bool {
        self.downloading_files.wf()
    }

    /// The bookkeeping for a run over `files`: their number and total size,
    /// nothing done yet.
    pub fn for_files(files: &Vec<FileEntry>) -> (p: DownloadProgress)
        requires
            total_size(files_view(files@)) <= usize::MAX,
        ensures
            p.wf(),
            p.downloaded_files_number == 0,
            p.failed_files_number == 0,
            p.downloading_files@ == Map::<Seq<char>, FileProgress>::empty(),
            p.total_files_number == files@.len(),
            p.downloaded_bytes == 0,
            p.total_bytes == total_size(files_view(files@)),
            !p.finished,
            !p.downloading,
    {
        let mut p = DownloadProgress::default();
        p.total_files_number = files.len();
        p.total_bytes = total_file_size(files);
        p
    }

    /// Marks the run as started.
    pub fn begin(&mut self)
        ensures
            *final(self) == (DownloadProgress { downloading: true, ..*old(self) }),
    {
        self.downloading = true;
    }

    /// Counts a file that was already on disk and intact, with its bytes.
    pub fn count_present_file(&mut self, bytes: usize)
        requires
            old(self).downloaded_files_number < usize::MAX,
            old(self).downloaded_bytes + bytes <= usize::MAX,
        ensures
            *final(self) == (DownloadProgress {
                downloaded_files_number: (old(self).downloaded_files_number + 1) as usize,
                downloaded_bytes: (old(self).downloaded_bytes + bytes) as usize,
                ..*old(self)
            }),
            counts_grow(*old(self), *final(self)),
    {
        self.downloaded_files_number = self.downloaded_files_number + 1;
        self.downloaded_bytes = self.downloaded_bytes + bytes;
    }

    /// Counts the bytes of a part that arrived and records how many chunks
    /// of `filename` have been fetched out of its `parts`.
    pub fn count_part(&mut self, filename: String, bytes: usize, chunks_done: u64, parts: usize)
        requires
            old(self).wf(),
            old(self).downloaded_bytes + bytes <= usize::MAX,
        ensures
            final(self).wf(),
            final(self).downloaded_bytes == old(self).downloaded_bytes + bytes,
            final(self).downloading_files@ == old(self).downloading_files@.insert(filename@, (chunks_done, parts)),
            final(self).downloaded_files_number == old(self).downloaded_files_number,
            final(self).failed_files_number == old(self).failed_files_number,
            final(self).total_files_number == old(self).total_files_number,
            final(self).total_bytes == old(self).total_bytes,
            final(self).finished == old(self).finished,
            final(self).downloading == old(self).downloading,
            counts_grow(*old(self), *final(self)),
    {
        self.downloaded_bytes = self.downloaded_bytes + bytes;
        self.downloading_files.insert(filename, (chunks_done, parts));
    }

    /// Counts `n` failures.
    pub fn count_failures(&mut self, n: usize)
        requires
            old(self).failed_files_number + n <= usize::MAX,
        ensures
            *final(self) == (DownloadProgress {
                failed_files_number: (old(self).failed_files_number + n) as usize,
                ..*old(self)
            }),
            counts_grow(*old(self), *final(self)),
    {
        self.failed_files_number = self.failed_files_number + n;
    }

    /// `filename` is no longer in progress.
    pub fn end_file(&mut self, filename: &String)
        requires
            old(self).wf(),
        ensures
            final(self).wf(),
            final(self).downloading_files@ == old(self).downloading_files@.remove(filename@),
            final(self).downloaded_bytes == old(self).downloaded_bytes,
            final(self).downloaded_files_number == old(self).downloaded_files_number,
            final(self).failed_files_number == old(self).failed_files_number,
            final(self).total_files_number == old(self).total_files_number,
            final(self).total_bytes == old(self).total_bytes,
            final(self).finished == old(self).finished,
            final(self).downloading == old(self).downloading,
            counts_grow(*old(self), *final(self)),
    {
        self.downloading_files.remove(filename);
    }

    /// Counts a file that was downloaded, checked and written.
    pub fn count_downloaded_file(&mut self)
        requires
            old(self).downloaded_files_number < usize::MAX,
        ensures
            *final(self) == (DownloadProgress {
                downloaded_files_number: (old(self).downloaded_files_number + 1) as usize,
                ..*old(self)
            }),
            counts_grow(*old(self), *final(self)),
    {
        self.downloaded_files_number = self.downloaded_files_number + 1;
    }

    /// With the queue empty: when every file is accounted for, as downloaded
    /// or failed, marks the run finished and no longer downloading and
    /// returns `true`; otherwise changes nothing.
    pub fn try_finish(&mut self) -> (done: bool)
        ensures
            done == (old(self).downloaded_files_number + old(self).failed_files_number
                == old(self).total_files_number),
            done ==> *final(self) == (DownloadProgress { finished: true, downloading: false, ..*old(self) }),
            !done ==> *final(self) == *old(self),
            counts_grow(*old(self), *final(self)),
    {
        if self.downloaded_files_number <= self.total_files_number
            && self.failed_files_number == self.total_files_number - self.downloaded_files_number {
            self.finished = true;
            self.downloading = false;
            true
        } else {
            false
        }
    }
}

/// A download run: the worker settings, the queue of files, the chunks
/// they are made of and the bookkeeping.
pub struct DownloadManager {
    pub max_threads: usize,
    pub max_chunk_concurrency: usize,
    pub file_list: VecDeque<FileEntry>,
    pub chunks_list: Vec<ChunkInfo>,
    pub progress: DownloadProgress,
    pub downloading: bool,
    pub ignore_corrupted_files: bool,
}

impl DownloadManager {
    /// A run over `file_list`, queued in order, with the bookkeeping set to
    /// their number and total size.
    pub fn new(
        max_threads: usize,
        max_chunk_concurrency: usize,
        file_list: Vec<FileEntry>,
        chunks_list: Vec<ChunkInfo>,
        ignore_corrupted_files: bool,
    ) -> (m: DownloadManager)
        requires
            total_size(files_view(file_list@)) <= usize::MAX,
        ensures
            m.max_threads == max_threads,
            m.max_chunk_concurrency == max_chunk_concurrency,
            m.file_list@ == file_list@,
            m.chunks_list == chunks_list,
            m.progress.wf(),
            m.progress.downloaded_files_number == 0,
            m.progress.failed_files_number == 0,
            m.progress.downloading_files@ == Map::<Seq<char>, FileProgress>::empty(),
            m.progress.total_files_number == file_list@.len(),
            m.progress.downloaded_bytes == 0,
            m.progress.total_bytes == total_size(files_view(file_list@)),
            !m.progress.finished,
            !m.progress.downloading,
            !m.downloading,
            m.ignore_corrupted_files == ignore_corrupted_files,
    {
        let progress = DownloadProgress::for_files(&file_list);
        let ghost files = file_list@;
        let mut queue: VecDeque<FileEntry> = VecDeque::new();
        for f in it: file_list.into_iter()
            invariant
                it.seq() == files,
                queue@ == files.take(it.index() as int),
        {
            queue.push_back(f);
            assert(files.take(it.index() + 1) =~= files.take(it.index() as int).push(f));
        }
        assert(files.take(files.len() as int) =~= files);
        DownloadManager {
            ignore_corrupted_files,
            max_threads,
            max_chunk_concurrency,
            file_list: queue,
            chunks_list,
            progress,
            downloading: false,
        }
    }
}

/// A file already on disk is kept when corrupted files are ignored, or when
/// it has the listed size and digest.
pub open spec fn keeps_existing(file_size: u32, digest: Seq<u8>, data: Seq<u8>, ignore_corrupted: bool) -> bool {
    ignore_corrupted || (data.len() == file_size && sha1_digest(data) == digest)
}

/// Whether the bytes found on disk for `file` can stay; otherwise the file
/// is deleted and downloaded again.
pub fn existing_file_ok(file: &FileEntry, data: &Vec<u8>, ignore_corrupted: bool) -> (ok: bool)
    ensures
        ok == keeps_existing(file.file_size, file.sha_hash@, data@, ignore_corrupted),
{
    if !ignore_corrupted && data.len() != file.file_size as usize {
        return false;
    }
    ignore_corrupted || check_hash(data, &file.sha_hash)
}

/// Whether a freshly assembled file is written out: always when corrupted
/// files are ignored, else when its digest is the listed one.
pub fn downloaded_file_ok(file: &FileEntry, data: &Vec<u8>, ignore_corrupted: bool) -> (ok: bool)
    ensures
        ok == (ignore_corrupted || sha1_digest(data@) == file.sha_hash@),
{
    ignore_corrupted || check_hash(data, &file.sha_hash)
}

/// The address of the chunk that holds `part`: the first chunk with its
/// identifier, in the chunk store `base_url`; `None` when no chunk has it.
pub fn part_url(chunks: &Vec<ChunkInfo>, part: &ChunkPart, base_url: &String) -> (r: Option<String>)
    ensures
        match r {
            Some(url) => exists|i: int|
                0 <= i < chunks@.len() && chunks@[i].guid == part.guid
                    && (forall|k: int| 0 <= k < i ==> chunks@[k].guid != part.guid)
                    && url@ == chunk_url_text(base_url@, chunks@[i]),
            None => forall|k: int| 0 <= k < chunks@.len() ==> chunks@[k].guid != part.guid,
        },
{
    match find_chunk(chunks, part.guid) {
        Some(i) => Some(chunk_url(base_url, &chunks[i])),
        None => None,
    }
}

} // verus!

