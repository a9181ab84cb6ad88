use vstd::prelude::*;
use crate::model::{ChunkInfo, FileEntry, FileEntryView, ManifestModel, files_view, strings_view};
use crate::tags::{chunk_word, collect_tags, offered_tag, strictly_sorted};
use crate::text::text_contains;
use crate::text_map::{TextMap, lemma_pairs_map_dom, lemma_pairs_map_value};

verus! {

/// Address of the chunk store used unless the user types another one.
pub const DEFAULT_BASE_URL: &'static str = "https://epicgames-download1.akamaized.net/Builds/Fortnite/CloudDir/ChunksV4";

/// The sum of the sizes of the files.
pub open spec fn total_size(files: Seq<FileEntryView>) -> int
    decreases files.len(),
{
    if files.len() == 0 {
        0
    } else {
        total_size(files.drop_last()) + files.last().file_size
    }
}

/// A file is downloaded when it has no install tag (it is mandatory) or when
/// one of its tags is selected.
pub open spec fn file_selected(f: FileEntryView, choices: Map<Seq<char>, bool>) -> bool {
    f.install_tags.len() == 0 || exists|j: int|
        0 <= j < f.install_tags.len() && choices.dom().contains(#[trigger] f.install_tags[j])
            && choices[f.install_tags[j]]
}

/// The files to download, in manifest order.
pub open spec fn selected_files(files: Seq<FileEntryView>, choices: Map<Seq<char>, bool>) -> Seq<FileEntryView> {
    files.filter(|f: FileEntryView| file_selected(f, choices))
}

/// Keeping only some files never makes the total larger.
pub proof fn lemma_filter_total_size(files: Seq<FileEntryView>, p: spec_fn(FileEntryView) -> bool)
    ensures
        0 <= total_size(files.filter(p)) <= total_size(files),
    decreases files.len(),
{
    reveal_with_fuel(Seq::filter, 1);
    if files.len() > 0 {
        lemma_filter_total_size(files.drop_last(), p);
        let rest = files.drop_last().filter(p);
        if p(files.last()) {
            assert(rest.push(files.last()).drop_last() =~= rest);
        }
    }
}

/// The keys that map to `true`.
fn selected_keys(choices: &TextMap<bool>) -> (keys: Vec<String>)
    requires
        choices.wf(),
    ensures
        forall|t: Seq<char>| #[trigger] strings_view(keys@).contains(t)
            <==> (choices@.dom().contains(t) && choices@[t]),
{
    let ghost s = choices.entries@;
    let mut keys: Vec<String> = Vec::new();
    let mut i: usize = 0;
    while i < choices.entries.len()
        invariant
            s == choices.entries@,
            choices.wf(),
            i <= s.len(),
            forall|t: Seq<char>| #[trigger] strings_view(keys@).contains(t)
                <==> exists|k: int| 0 <= k < i && s[k].0@ == t && s[k].1,
        decreases s.len() - i,
    {
        if choices.entries[i].1 {
            let ghost before = strings_view(keys@);
            keys.push(choices.entries[i].0.clone());
            proof {
                let after = strings_view(keys@);
                assert(after =~= before.push(s[i as int].0@));
                assert forall|t: Seq<char>| after.contains(t)
                    <==> exists|k: int| 0 <= k < i + 1 && s[k].0@ == t && s[k].1
                by {
                    if after.contains(t) {
                        let m = choose|m: int| 0 <= m < after.len() && after[m] == t;
                        if m == before.len() {
                            assert(s[i as int].0@ == t);
                        } else {
                            assert(before[m] == t);
                            assert(before.contains(t));
                        }
                    }
                    if exists|k: int| 0 <= k < i + 1 && s[k].0@ == t && s[k].1 {
                        let k = choose|k: int| 0 <= k < i + 1 && s[k].0@ == t && s[k].1;
                        if k == i {
                            assert(after[before.len() as int] == t);
                        } else {
                            assert(before.contains(t));
                            let m = choose|m: int| 0 <= m < before.len() && before[m] == t;
                            assert(after[m] == t);
                        }
                    }
                }
            }
        }
        i = i + 1;
    }
    proof {
        assert forall|t: Seq<char>| #[trigger] strings_view(keys@).contains(t)
            <==> (choices@.dom().contains(t) && choices@[t])
        by {
            lemma_pairs_map_dom(s, t);
            if strings_view(keys@).contains(t) {
                let k = choose|k: int| 0 <= k < i && s[k].0@ == t && s[k].1;
                lemma_pairs_map_value(s, k);
                assert(choices@.dom().contains(t));
                assert(choices@[t]);
            }
            if choices@.dom().contains(t) && choices@[t] {
                let k = choose|k: int| 0 <= k < s.len() && s[k].0@ == t;
                lemma_pairs_map_value(s, k);
                assert(s[k].1);
                assert(0 <= k < i && s[k].0@ == t && s[k].1);
            }
        }
    }
    keys
}

/// Whether `text` is one of `list`.
fn list_contains(list: &Vec<String>, text: &String) -> (r: bool)
    ensures
        r == strings_view(list@).contains(text@),
{
    let mut i: usize = 0;
    while i < list.len()
        invariant
            i <= list@.len(),
            forall|k: int| 0 <= k < i ==> list@[k]@ != text@,
        decreases list.len() - i,
    {
        if list[i] == *text {
            assert(strings_view(list@)[i as int] == text@);
            return true;
        }
        i = i + 1;
    }
    assert forall|k: int| 0 <= k < strings_view(list@).len() implies strings_view(list@)[k] != text@ by {
        assert(list@[k]@ != text@);
    }
    false
}

/// The files that the choices select, in order.
pub fn filter_files(files: &Vec<FileEntry>, choices: &TextMap<bool>) -> (r: Vec<FileEntry>)
    requires
        choices.wf(),
    ensures
        files_view(r@) == selected_files(files_view(files@), choices@),
{
    let ghost fv = files_view(files@);
    let ghost m = choices@;
    let ghost pred = |f: FileEntryView| file_selected(f, m);
    let tags = selected_keys(choices);
    assert(forall|t: Seq<char>| #[trigger] strings_view(tags@).contains(t) <==> (choices@.dom().contains(t) && choices@[t]));
    assert(m == choices@);
    let mut r: Vec<FileEntry> = Vec::new();
    let mut i: usize = 0;
    while i < files.len()
        invariant
            i <= files@.len(),
            fv == files_view(files@),
            m == choices@,
            pred == (|f: FileEntryView| file_selected(f, m)),
            forall|t: Seq<char>| #[trigger] strings_view(tags@).contains(t) <==> (m.dom().contains(t) && m[t]),
            files_view(r@) == fv.take(i as int).filter(pred),
        decreases files@.len() - i,
    {
        let file = &files[i];
        assert(fv[i as int] == file@);
        let mut keep = file.install_tags.len() == 0;
        let mut j: usize = 0;
        while j < file.install_tags.len() && !keep
            invariant
                file == files@[i as int],
                j <= file.install_tags@.len(),
                forall|t: Seq<char>| #[trigger] strings_view(tags@).contains(t) <==> (m.dom().contains(t) && m[t]),
                keep == (file.install_tags@.len() == 0 || exists|k: int|
                    0 <= k < j && m.dom().contains(#[trigger] file@.install_tags[k]) && m[file@.install_tags[k]]),
            decreases file.install_tags@.len() - j,
        {
            assert(file@.install_tags[j as int] == file.install_tags@[j as int]@);
            if list_contains(&tags, &file.install_tags[j]) {
                assert(m.dom().contains(file@.install_tags[j as int]) && m[file@.install_tags[j as int]]);
                keep = true;
            } else {
                assert(!(m.dom().contains(file@.install_tags[j as int]) && m[file@.install_tags[j as int]]));
            }
            j = j + 1;
        }
        assert(keep == file_selected(file@, m));
        let ghost before = files_view(r@);
        proof {
            reveal_with_fuel(Seq::filter, 1);
            assert(fv.take(i + 1).drop_last() =~= fv.take(i as int));
            assert(fv.take(i + 1).last() == file@);
        }
        if keep {
            r.push(file.duplicate());
            assert(files_view(r@) =~= before.push(file@));
        }
        i = i + 1;
    }
    assert(fv.take(files@.len() as int) =~= fv);
    r
}

/// The sum of the sizes of the files.
pub fn total_file_size(files: &Vec<FileEntry>) -> (total: usize)
    requires
        total_size(files_view(files@)) <= usize::MAX,
    ensures
        total == total_size(files_view(files@)),
{
    let ghost fv = files_view(files@);
    let mut total: usize = 0;
    let mut i: usize = 0;
    while i < files.len()
        invariant
            i <= files@.len(),
            fv == files_view(files@),
            total_size(fv) <= usize::MAX,
            total == total_size(fv.take(i as int)),
        decreases files@.len() - i,
    {
        proof {
            assert(fv.take(i + 1).drop_last() =~= fv.take(i as int));
            lemma_prefix_total_size(fv, i + 1);
        }
        total = total + files[i].file_size as usize;
        i = i + 1;
    }
    assert(fv.take(files@.len() as int) =~= fv);
    total
}

/// A prefix never weighs more than the whole list.
pub proof fn lemma_prefix_total_size(files: Seq<FileEntryView>, n: int)
    requires
        0 <= n <= files.len(),
    ensures
        total_size(files.take(n)) <= total_size(files),
    decreases files.len() - n,
{
    if n < files.len() {
        lemma_prefix_total_size(files, n + 1);
        assert(files.take(n + 1).drop_last() =~= files.take(n));
    } else {
        assert(files.take(n) =~= files);
    }
}

/// The total size of the files when it fits in a `usize`.
pub fn checked_total_size(files: &Vec<FileEntry>) -> (r: Option<usize>)
    ensures
        match r {
            Some(t) => t == total_size(files_view(files@)),
            None => total_size(files_view(files@)) > usize::MAX,
        },
{
    let ghost fv = files_view(files@);
    let mut total: usize = 0;
    let mut i: usize = 0;
    while i < files.len()
        invariant
            i <= files@.len(),
            fv == files_view(files@),
            total == total_size(fv.take(i as int)),
        decreases files@.len() - i,
    {
        assert(fv.take(i + 1).drop_last() =~= fv.take(i as int));
        let size = files[i].file_size as usize;
        if total > usize::MAX - size {
            proof {
                lemma_prefix_total_size(fv, i + 1);
            }
            return None;
        }
        total = total + size;
        i = i + 1;
    }
    assert(fv.take(files@.len() as int) =~= fv);
    Some(total)
}

/// The selected files weigh more than `usize::MAX` bytes together.
#[derive(Clone, Copy, Debug, PartialEq, Eq, Structural)]
pub struct SizeOverflow;

/// Integer division by 1024 three times: a byte count in whole gibibytes.
pub fn gibibytes(bytes: usize) -> (g: usize)
    ensures
        g == bytes as int / 1024 / 1024 / 1024,
{
    bytes / 1024 / 1024 / 1024
}

/// What the download screen remembers between frames: the loaded manifest,
/// the offered tags and which of them are selected, the worker settings
/// and the size of the current selection.
pub struct Application {
    pub tags: Option<Vec<String>>,
    pub download_tags: TextMap<bool>,
    pub manifest: Option<ManifestModel>,
    pub max_threads: usize,
    pub max_chunk_concurrency: usize,
    pub base_url: String,
    pub files_number: usize,
    pub game_size: usize,
    pub ignore_corrupted_files: bool,
}

impl Application {
    /// The tag choices are a map.
    pub open spec fn wf(&self) -> bool {
        self.download_tags.wf()
    }

    /// The files that the current choices select; none without a manifest.
    pub open spec fn filtered(&self) -> Seq<FileEntryView> {
        match self.manifest {
            Some(m) => selected_files(files_view(m.files@), self.download_tags@),
            None => Seq::empty(),
        }
    }

    /// The worker settings, the chunk store address and the flags are those
    /// of `other`.
    pub open spec fn same_settings(&self, other: Application) -> bool {
        &&& self.max_threads == other.max_threads
        &&& self.max_chunk_concurrency == other.max_chunk_concurrency
        &&& self.base_url == other.base_url
        &&& self.ignore_corrupted_files == other.ignore_corrupted_files
    }

    /// The same state with another count and size of the selection.
    pub open spec fn with_sizes(self, files_number: usize, game_size: usize) -> Application {
        Application { files_number, game_size, ..self }
    }

    /// The files that the current choices select, in manifest order.
    pub fn get_filtered_files(&self) -> (r: Vec<FileEntry>)
        requires
            self.wf(),
        ensures
            files_view(r@) == self.filtered(),
    {
        match &self.manifest {
            Some(manifest) => filter_files(&manifest.files, &self.download_tags),
            None => {
                let r: Vec<FileEntry> = Vec::new();
                assert(files_view(r@) =~= Seq::<FileEntryView>::empty());
                r
            },
        }
    }

    /// Counts and weighs the selected files and remembers both; with no
    /// file selected, returns `Ok(None)` and leaves the state as it was.
    /// When the selected files weigh more than `usize::MAX` bytes together,
    /// returns `Err(SizeOverflow)` and leaves the state as it was.
    pub fn calculate_game_files_size(&mut self) -> (r: Result<Option<(usize, usize)>, SizeOverflow>)
        requires
            old(self).wf(),
        ensures
            final(self).wf(),
            old(self).filtered().len() == 0 ==> r == Ok::<Option<(usize, usize)>, SizeOverflow>(None)
                && *final(self) == *old(self),
            old(self).filtered().len() > 0 && total_size(old(self).filtered()) > usize::MAX ==> r
                == Err::<Option<(usize, usize)>, SizeOverflow>(SizeOverflow) && *final(self) == *old(self),
            old(self).filtered().len() > 0 && total_size(old(self).filtered()) <= usize::MAX ==> {
                &&& r == Ok::<Option<(usize, usize)>, SizeOverflow>(Some((final(self).files_number, final(self).game_size)))
                &&& final(self).files_number == old(self).filtered().len()
                &&& final(self).game_size == total_size(old(self).filtered())
                &&& *final(self) == old(self).with_sizes(final(self).files_number, final(self).game_size)
            },
    {
        let files = self.get_filtered_files();
        if files.len() == 0 {
            return Ok(None);
        }
        match checked_total_size(&files) {
            None => Err(SizeOverflow),
            Some(file_size) => {
                let files_number = files.len();
                self.game_size = file_size;
                self.files_number = files_number;
                Ok(Some((files_number, file_size)))
            },
        }
    }

    /// Whether `tag` is selected; a tag never chosen counts as not selected.
    pub fn is_tag_selected(&self, tag: &String) -> (r: bool)
        requires
            self.wf(),
        ensures
            r == (self.download_tags@.dom().contains(tag@) && self.download_tags@[tag@]),
    {
        match self.download_tags.get(tag) {
            Some(v) => v,
            None => false,
        }
    }

    /// Records the user's choice for `tag`, then recomputes the size of
    /// the selection.
    pub fn select_tag(&mut self, tag: String, selected: bool) -> (r: Result<Option<(usize, usize)>, SizeOverflow>)
        requires
            old(self).wf(),
        ensures
            final(self).wf(),
            final(self).download_tags@ == old(self).download_tags@.insert(tag@, selected),
            final(self).manifest == old(self).manifest,
            final(self).tags == old(self).tags,
            final(self).same_settings(*old(self)),
            r is Err <==> (final(self).filtered().len() > 0 && total_size(final(self).filtered()) > usize::MAX),
            r == Ok::<Option<(usize, usize)>, SizeOverflow>(None) <==> final(self).filtered().len() == 0,
            !(r matches Ok(Some(_))) ==> final(self).files_number == old(self).files_number
                && final(self).game_size == old(self).game_size,
            r matches Ok(Some(p)) ==> p == (final(self).files_number, final(self).game_size)
                && final(self).files_number == final(self).filtered().len()
                && final(self).game_size == total_size(final(self).filtered()),
    {
        self.download_tags.insert(tag, selected);
        self.calculate_game_files_size()
    }

    /// Takes a freshly parsed manifest: offers its tags, all selected, and
    /// measures the selection; the error tells that the selection weighs
    /// more than `usize::MAX` bytes, in which case its count and size are
    /// left as they were.
    pub fn receive_manifest(&mut self, manifest: ManifestModel) -> (r: Result<(), SizeOverflow>)
        requires
            old(self).wf(),
        ensures
            final(self).wf(),
            final(self).manifest == Some(manifest),
            final(self).tags matches Some(t) && strictly_sorted(strings_view(t@))
                && forall|x: Seq<char>| strings_view(t@).contains(x)
                    <==> offered_tag(files_view(manifest.files@), x),
            final(self).download_tags@ == Map::new(
                |x: Seq<char>| offered_tag(files_view(manifest.files@), x),
                |x: Seq<char>| true,
            ),
            r is Err <==> (final(self).filtered().len() > 0 && total_size(final(self).filtered()) > usize::MAX),
            r is Ok && final(self).filtered().len() > 0 ==> final(self).files_number == final(self).filtered().len()
                && final(self).game_size == total_size(final(self).filtered()),
            !(r is Ok && final(self).filtered().len() > 0) ==> final(self).files_number == old(self).files_number
                && final(self).game_size == old(self).game_size,
            final(self).same_settings(*old(self)),
    {
        let tags = collect_tags(&manifest.files);
        let mut choices: TextMap<bool> = TextMap::new();
        let mut i: usize = 0;
        while i < tags.len()
            invariant
                i <= tags@.len(),
                choices.wf(),
                choices@ == Map::new(
                    |x: Seq<char>| strings_view(tags@.take(i as int)).contains(x),
                    |x: Seq<char>| true,
                ),
            decreases tags@.len() - i,
        {
            let ghost before = choices@;
            choices.insert(tags[i].clone(), true);
            proof {
                let p = strings_view(tags@.take(i as int));
                let q = strings_view(tags@.take(i + 1));
                assert(q =~= p.push(tags@[i as int]@));
                assert forall|x: Seq<char>| q.contains(x) <==> (p.contains(x) || x == tags@[i as int]@) by {
                    if q.contains(x) {
                        let k = choose|k: int| 0 <= k < q.len() && q[k] == x;
                        if k < p.len() {
                            assert(p[k] == x);
                        }
                    }
                    if p.contains(x) {
                        let k = choose|k: int| 0 <= k < p.len() && p[k] == x;
                        assert(q[k] == x);
                    }
                    if x == tags@[i as int]@ {
                        assert(q[p.len() as int] == x);
                    }
                }
                assert(choices@ =~= Map::new(|x: Seq<char>| q.contains(x), |x: Seq<char>| true));
            }
            i = i + 1;
        }
        proof {
            assert(tags@.take(tags@.len() as int) =~= tags@);
            assert(choices@ =~= Map::new(
                |x: Seq<char>| offered_tag(files_view(manifest.files@), x),
                |x: Seq<char>| true,
            ));
        }
        self.manifest = Some(manifest);
        self.tags = Some(tags);
        self.download_tags = choices;
        match self.calculate_game_files_size() {
            Ok(_) => Ok(()),
            Err(e) => Err(e),
        }
    }

    /// Everything the download needs is set: a chunk store address, a
    /// download folder, a manifest, non-zero worker counts and at least one
    /// selected file.
    pub fn ready_to_download(&self, has_download_path: bool) -> (r: bool)
        ensures
            r == (self.base_url@.len() > 0 && has_download_path && self.manifest is Some
                && self.max_chunk_concurrency != 0 && self.max_threads != 0 && self.files_number != 0),
    {
        !self.base_url.as_str().is_empty() && has_download_path && self.manifest.is_some()
            && self.max_chunk_concurrency != 0 && self.max_threads != 0 && self.files_number != 0
    }

    /// How many chunks may be in flight at once over all workers.
    pub fn max_downloads(&self) -> (r: usize)
        requires
            self.max_chunk_concurrency * self.max_threads <= usize::MAX,
        ensures
            r == self.max_chunk_concurrency * self.max_threads,
    {
        self.max_chunk_concurrency * self.max_threads
    }

    /// Bytes of the selection that are not installed yet.
    pub fn remaining_size(&self, installed: usize) -> (r: usize)
        requires
            installed <= self.game_size,
        ensures
            r == self.game_size - installed,
    {
        self.game_size - installed
    }

    /// The selected files and every chunk of the manifest, ready to hand to
    /// a download manager.
    pub fn download_plan(&self) -> (r: (Vec<FileEntry>, Vec<ChunkInfo>))
        requires
            self.wf(),
            self.manifest is Some,
        ensures
            files_view(r.0@) == self.filtered(),
            r.1@ == self.manifest->0.chunks@,
    {
        let files = self.get_filtered_files();
        let chunks = match &self.manifest {
            Some(m) => clone_chunks(&m.chunks),
            None => Vec::new(),
        };
        (files, chunks)
    }
}

/// A copy of every chunk, in order.
pub fn clone_chunks(v: &Vec<ChunkInfo>) -> (r: Vec<ChunkInfo>)
    ensures
        r@ == v@,
{
    let mut r: Vec<ChunkInfo> = Vec::new();
    let mut i: usize = 0;
    while i < v.len()
        invariant
            i <= v.len(),
            r@ == v@.take(i as int),
        decreases v.len() - i,
    {
        r.push(v[i]);
        i = i + 1;
    }
    assert(v@.take(v.len() as int) =~= v@);
    r
}

impl Default for Application {
    /// No manifest yet, three workers with fifteen chunks each, the public
    /// chunk store, corrupted files not ignored.
    fn default() -> (r: Application)
        ensures
            r.wf(),
            r.tags is None,
            r.download_tags@ == Map::<Seq<char>, bool>::empty(),
            r.manifest is None,
            r.max_threads == 3,
            r.max_chunk_concurrency == 15,
            r.base_url@ == DEFAULT_BASE_URL@,
            r.files_number == 0,
            r.game_size == 0,
            !r.ignore_corrupted_files,
    {
        Application {
            tags: None,
            download_tags: TextMap::new(),
            manifest: None,
            max_threads: 3,
            max_chunk_concurrency: 15,
            base_url: DEFAULT_BASE_URL.to_owned(),
            files_number: 0,
            game_size: 0,
            ignore_corrupted_files: false,
        }
    }
}

} // verus!

verus! {

/// `a` is `b` with some elements left out, the others kept in order.
pub open spec fn is_subsequence<A>(a: Seq<A>, b: Seq<A>) -> bool
    decreases b.len(),
{
    if a.len() == 0 {
        true
    } else if b.len() == 0 {
        false
    } else if a.last() == b.last() {
        is_subsequence(a.drop_last(), b.drop_last())
    } else {
        is_subsequence(a, b.drop_last())
    }
}

/// One more element at the end of the longer sequence keeps a subsequence.
pub proof fn lemma_subsequence_push<A>(a: Seq<A>, b: Seq<A>, x: A)
    requires
        is_subsequence(a, b),
    ensures
        is_subsequence(a, b.push(x)),
    decreases b.len(), 1int,
{
    assert(b.push(x).drop_last() =~= b);
    if a.len() > 0 && a.last() == x {
        lemma_subsequence_drop_last(a, b);
    }
}

/// Dropping the last element of a subsequence keeps a subsequence.
pub proof fn lemma_subsequence_drop_last<A>(a: Seq<A>, b: Seq<A>)
    requires
        a.len() > 0,
        is_subsequence(a, b),
    ensures
        is_subsequence(a.drop_last(), b),
    decreases b.len(), 0int,
{
    let bl = b.drop_last();
    assert(bl.push(b.last()) =~= b);
    if a.last() == b.last() {
        lemma_subsequence_push(a.drop_last(), bl, b.last());
    } else {
        lemma_subsequence_drop_last(a, bl);
        lemma_subsequence_push(a.drop_last(), bl, b.last());
    }
}

/// Filtering with a test that lets through fewer elements gives a
/// subsequence of filtering with the wider test.
pub proof fn lemma_filter_subsequence(s: Seq<FileEntryView>, p: spec_fn(FileEntryView) -> bool, q: spec_fn(FileEntryView) -> bool)
    requires
        forall|i: int| 0 <= i < s.len() && p(s[i]) ==> q(#[trigger] s[i]),
    ensures
        is_subsequence(s.filter(p), s.filter(q)),
    decreases s.len(),
{
    reveal_with_fuel(Seq::filter, 1);
    if s.len() > 0 {
        let init = s.drop_last();
        let x = s.last();
        assert forall|i: int| 0 <= i < init.len() && p(init[i]) implies q(#[trigger] init[i]) by {
            assert(init[i] == s[i]);
        }
        lemma_filter_subsequence(init, p, q);
        assert(x == s[s.len() - 1]);
        let a = init.filter(p);
        let b = init.filter(q);
        if p(x) {
            assert(a.push(x).drop_last() =~= a);
            assert(b.push(x).drop_last() =~= b);
        } else if q(x) {
            lemma_subsequence_push(a, b, x);
        }
    }
}

/// Widening the choices (every tag selected before stays selected) only
/// adds files to the selection: the narrower selection is a subsequence
/// of the wider one.
pub proof fn lemma_wider_choices_wider_selection(
    files: Seq<FileEntryView>,
    narrow: Map<Seq<char>, bool>,
    wide: Map<Seq<char>, bool>,
)
    requires
        forall|t: Seq<char>| #[trigger] narrow.dom().contains(t) && narrow[t] ==> wide.dom().contains(t) && wide[t],
    ensures
        is_subsequence(selected_files(files, narrow), selected_files(files, wide)),
{
    let p = |f: FileEntryView| file_selected(f, narrow);
    let q = |f: FileEntryView| file_selected(f, wide);
    assert forall|i: int| 0 <= i < files.len() && p(files[i]) implies q(#[trigger] files[i]) by {
        let f = files[i];
        if f.install_tags.len() > 0 {
            let j = choose|j: int|
                0 <= j < f.install_tags.len() && narrow.dom().contains(#[trigger] f.install_tags[j])
                    && narrow[f.install_tags[j]];
            assert(wide.dom().contains(f.install_tags[j]) && wide[f.install_tags[j]]);
        }
    }
    lemma_filter_subsequence(files, p, q);
}

/// For two states with the same manifest, where every tag selected in `a`
/// is selected in `b`, the files `a` would download are a subsequence of
/// those `b` would download.
pub proof fn lemma_wider_choices_filtered(a: Application, b: Application)
    requires
        a.manifest == b.manifest,
        forall|t: Seq<char>| #[trigger] a.download_tags@.dom().contains(t) && a.download_tags@[t]
            ==> b.download_tags@.dom().contains(t) && b.download_tags@[t],
    ensures
        is_subsequence(a.filtered(), b.filtered()),
{
    match a.manifest {
        Some(m) => lemma_wider_choices_wider_selection(files_view(m.files@), a.download_tags@, b.download_tags@),
        None => {},
    }
}

/// With every offered tag selected, as right after a manifest is loaded,
/// the selection is every file that has no tag or has a tag that does not
/// contain "chunk".
pub proof fn lemma_fresh_selection(files: Seq<FileEntryView>)
    ensures
        selected_files(files, Map::new(|x: Seq<char>| offered_tag(files, x), |x: Seq<char>| true))
            == files.filter(|f: FileEntryView| f.install_tags.len() == 0 || exists|j: int|
                0 <= j < f.install_tags.len() && !text_contains(#[trigger] f.install_tags[j], chunk_word())),
{
    let m = Map::new(|x: Seq<char>| offered_tag(files, x), |x: Seq<char>| true);
    let p = |f: FileEntryView| file_selected(f, m);
    let q = |f: FileEntryView| f.install_tags.len() == 0 || exists|j: int|
        0 <= j < f.install_tags.len() && !text_contains(#[trigger] f.install_tags[j], chunk_word());
    assert forall|i: int| 0 <= i < files.len() implies p(files[i]) == q(#[trigger] files[i]) by {
        let f = files[i];
        if q(f) && f.install_tags.len() > 0 {
            let j = choose|j: int|
                0 <= j < f.install_tags.len() && !text_contains(#[trigger] f.install_tags[j], chunk_word());
            assert(files[i].install_tags[j] == f.install_tags[j]);
            assert(offered_tag(files, f.install_tags[j]));
            assert(m.dom().contains(f.install_tags[j]));
        }
        if p(f) && f.install_tags.len() > 0 {
            let j = choose|j: int|
                0 <= j < f.install_tags.len() && m.dom().contains(#[trigger] f.install_tags[j])
                    && m[f.install_tags[j]];
            assert(offered_tag(files, f.install_tags[j]));
        }
    }
    lemma_filter_same_pred(files, p, q);
}

/// Two tests that agree on every element filter alike.
pub proof fn lemma_filter_same_pred(s: Seq<FileEntryView>, p: spec_fn(FileEntryView) -> bool, q: spec_fn(FileEntryView) -> bool)
    requires
        forall|i: int| 0 <= i < s.len() ==> p(s[i]) == q(#[trigger] s[i]),
    ensures
        s.filter(p) == s.filter(q),
    decreases s.len(),
{
    reveal_with_fuel(Seq::filter, 1);
    if s.len() > 0 {
        assert forall|i: int| 0 <= i < s.drop_last().len() implies p(s.drop_last()[i]) == q(#[trigger] s.drop_last()[i]) by {
            assert(s.drop_last()[i] == s[i]);
        }
        lemma_filter_same_pred(s.drop_last(), p, q);
        assert(s.last() == s[s.len() - 1]);
    }
}

} // verus!

verus! {

/// Sizes add up: the total of two lists one after the other is the sum of
/// their totals, with no cap.
pub proof fn lemma_total_size_concat(a: Seq<FileEntryView>, b: Seq<FileEntryView>)
    ensures
        total_size(a + b) == total_size(a) + total_size(b),
    decreases b.len(),
{
    if b.len() == 0 {
        assert(a + b =~= a);
    } else {
        assert((a + b).drop_last() =~= a + b.drop_last());
        assert((a + b).last() == b.last());
        lemma_total_size_concat(a, b.drop_last());
    }
}

/// The total of no file is zero and the total of one file is its size.
pub proof fn lemma_total_size_single(f: FileEntryView)
    ensures
        total_size(Seq::<FileEntryView>::empty()) == 0,
        total_size(seq![f]) == f.file_size,
{
    let one = seq![f];
    assert(one.drop_last() =~= Seq::<FileEntryView>::empty());
    assert(one.last() == f);
    assert(total_size(one) == total_size(one.drop_last()) + one.last().file_size);
}

/// The total is the sum of the sizes, file by file: adding a file adds its
/// size.
pub proof fn lemma_total_size_push(s: Seq<FileEntryView>, f: FileEntryView)
    ensures
        total_size(s.push(f)) == total_size(s) + f.file_size,
{
    lemma_total_size_concat(s, seq![f]);
    lemma_total_size_single(f);
    assert(s + seq![f] =~= s.push(f));
}

} // verus!
