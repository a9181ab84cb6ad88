use vstd::prelude::*;

verus! {

/// A 128-bit chunk identifier, as four 32-bit words.
#[derive(Clone, Copy, Debug, PartialEq, Eq, Structural)]
pub struct Guid {
    pub a: u32,
    pub b: u32,
    pub c: u32,
    pub d: u32,
}

/// A SHA-1 digest.
#[derive(Clone, Copy, Debug)]
pub struct ShaHash {
    pub data: [u8; 20],
}

impl View for ShaHash {
    type V = Seq<u8>;

    open spec fn view(&self) -> Seq<u8> {
        self.data@
    }
}

impl ShaHash {
    /// Wraps the twenty bytes of a digest.
    pub fn new(data: [u8; 20]) -> (h: ShaHash)
        ensures
            h@ == data@,
    {
        ShaHash { data }
    }

    /// Byte-wise equality of two digests.
    pub fn same_as(&self, other: &ShaHash) -> (r: bool)
        ensures
            r == (self@ == other@),
    {
        let mut i: usize = 0;
        while i < 20
            invariant
                0 <= i <= 20,
                self@.len() == 20,
                other@.len() == 20,
                forall|j: int| 0 <= j < i ==> self@[j] == other@[j],
            decreases 20 - i,
        {
            if self.data[i] != other.data[i] {
                return false;
            }
            i = i + 1;
        }
        assert(self@ =~= other@);
        true
    }
}


/// One piece of a file: `size` bytes taken at `offset` in the chunk `guid`,
/// which land at `file_offset` in the file.
#[derive(Clone, Copy, Debug)]
pub struct ChunkPart {
    pub guid: Guid,
    pub offset: u32,
    pub size: u32,
    pub file_offset: usize,
}

/// A chunk of the build as the manifest lists it.
#[derive(Clone, Copy, Debug)]
pub struct ChunkInfo {
    pub guid: Guid,
    pub hash: u64,
    pub sha_hash: ShaHash,
    pub group_num: u8,
    pub uncompressed_size: u32,
    pub compressed_size: i64,
}

/// A file of the build as the manifest lists it.
#[derive(Debug)]
pub struct FileEntry {
    pub filename: String,
    pub file_size: u32,
    pub sha_hash: ShaHash,
    pub install_tags: Vec<String>,
    pub chunk_parts: Vec<ChunkPart>,
}

pub struct FileEntryView {
    pub filename: Seq<char>,
    pub file_size: u32,
    pub sha_hash: Seq<u8>,
    pub install_tags: Seq<Seq<char>>,
    pub chunk_parts: Seq<ChunkPart>,
}

impl View for FileEntry {
    type V = FileEntryView;

    open spec fn view(&self) -> FileEntryView {
        FileEntryView {
            filename: self.filename@,
            file_size: self.file_size,
            sha_hash: self.sha_hash@,
            install_tags: strings_view(self.install_tags@),
            chunk_parts: self.chunk_parts@,
        }
    }
}

/// The texts of a sequence of strings.
pub open spec fn strings_view(v: Seq<String>) -> Seq<Seq<char>> {
    v.map_values(|s: String| s@)
}

/// The views of a sequence of files.
pub open spec fn files_view(v: Seq<FileEntry>) -> Seq<FileEntryView> {
    v.map_values(|f: FileEntry| f@)
}

/// A copy of every string, in order.
pub fn clone_strings(v: &Vec<String>) -> (r: Vec<String>)
    ensures
        strings_view(r@) == strings_view(v@),
{
    let mut r: Vec<String> = Vec::new();
    let mut i: usize = 0;
    while i < v.len()
        invariant
            i <= v.len(),
            r@.len() == i,
            forall|k: int| 0 <= k < i ==> r@[k]@ == v@[k]@,
        decreases v.len() - i,
    {
        r.push(v[i].clone());
        i = i + 1;
    }
    assert(strings_view(r@) =~= strings_view(v@));
    r
}

/// A copy of every chunk part, in order.
pub fn clone_parts(v: &Vec<ChunkPart>) -> (r: Vec<ChunkPart>)
    ensures
        r@ == v@,
{
    let mut r: Vec<ChunkPart> = Vec::new();
    let mut i: usize = 0;
    while i < v.len()
        invariant
            i <= v.len(),
            r@ == v@.take(i as int),
        decreases v.len() - i,
    {
        r.push(v[i]);
        i = i + 1;
    }
    assert(v@.take(v.len() as int) =~= v@);
    r
}

impl FileEntry {
    /// A copy of the entry.
    pub fn duplicate(&self) -> (r: FileEntry)
        ensures
            r@ == self@,
    {
        FileEntry {
            filename: self.filename.clone(),
            file_size: self.file_size,
            sha_hash: self.sha_hash,
            install_tags: clone_strings(&self.install_tags),
            chunk_parts: clone_parts(&self.chunk_parts),
        }
    }
}

/// The files, chunks and identity of a parsed build manifest.
#[derive(Debug)]
pub struct ManifestModel {
    pub app_name: String,
    pub build_version: String,
    pub files: Vec<FileEntry>,
    pub chunks: Vec<ChunkInfo>,
}

} // verus!
