//! The catalog that a scan reconciles: libraries, series and media, keyed by path.
use vstd::prelude::*;

verus! {

#[derive(Clone, Copy, Debug, PartialEq, Eq, Structural)]
pub enum FileStatus {
    Ready,
    Missing,
    Unsupported,
}

/// A root directory registered for scanning.
pub struct Library {
    pub id: u64,
    pub name: String,
    pub path: String,
    pub status: FileStatus,
}

/// A direct child directory of a library that holds media.
pub struct Series {
    pub id: u64,
    pub library_id: u64,
    /// The directory's name.
    pub title: String,
    pub path: String,
    /// Modification time of the directory, in seconds since the epoch.
    pub updated_at: i64,
    pub status: FileStatus,
}

/// The metadata document that an archive may carry. Absent fields are `None`.
pub struct ComicInfo {
    pub title: Option<String>,
    pub series: Option<String>,
    pub number: Option<String>,
    pub volume: Option<String>,
    pub summary: Option<String>,
    pub notes: Option<String>,
    pub page_count: Option<u64>,
    pub writer: Option<String>,
    pub penciller: Option<String>,
    pub inker: Option<String>,
    pub colorist: Option<String>,
    pub letterer: Option<String>,
    pub editor: Option<String>,
    pub publisher: Option<String>,
    pub genre: Option<String>,
    pub tags: Option<String>,
    pub age_rating: Option<String>,
    pub language: Option<String>,
}

/// What probing an archive yields.
pub struct ProcessedMedia {
    pub checksum: Option<[u8; 32]>,
    pub metadata: Option<ComicInfo>,
    pub pages: u64,
}

fn copy_text(t: &Option<String>) -> (r: Option<String>)
    ensures
        r == *t,
{
    match t {
        Some(s) => Some(s.clone()),
        None => None,
    }
}

impl ComicInfo {
    /// A field-by-field copy.
    pub fn copy(&self) -> (r: ComicInfo)
        ensures
            r == *self,
    {
        ComicInfo {
            title: copy_text(&self.title),
            series: copy_text(&self.series),
            number: copy_text(&self.number),
            volume: copy_text(&self.volume),
            summary: copy_text(&self.summary),
            notes: copy_text(&self.notes),
            page_count: self.page_count,
            writer: copy_text(&self.writer),
            penciller: copy_text(&self.penciller),
            inker: copy_text(&self.inker),
            colorist: copy_text(&self.colorist),
            letterer: copy_text(&self.letterer),
            editor: copy_text(&self.editor),
            publisher: copy_text(&self.publisher),
            genre: copy_text(&self.genre),
            tags: copy_text(&self.tags),
            age_rating: copy_text(&self.age_rating),
            language: copy_text(&self.language),
        }
    }
}

impl ProcessedMedia {
    /// A field-by-field copy.
    pub fn copy(&self) -> (r: ProcessedMedia)
        ensures
            r == *self,
    {
        let metadata = match &self.metadata {
            Some(m) => Some(m.copy()),
            None => None,
        };
        ProcessedMedia { checksum: self.checksum, metadata, pages: self.pages }
    }
}

/// A supported archive inside a series.
pub struct Media {
    pub id: u64,
    pub series_id: u64,
    /// The file's name.
    pub name: String,
    pub path: String,
    pub extension: String,
    pub size: u64,
    /// Modification time of the file, in seconds since the epoch.
    pub updated_at: i64,
    pub pages: u64,
    pub metadata: Option<ComicInfo>,
    pub checksum: Option<[u8; 32]>,
    pub status: FileStatus,
}

/// The persistent state that scans reconcile against the filesystem.
pub struct Catalog {
    pub libraries: Vec<Library>,
    pub series: Vec<Series>,
    pub media: Vec<Media>,
    /// The id that the next inserted record receives.
    pub next_id: u64,
}

/// Some library in `ls` has path `p`.
pub open spec fn has_library_path(ls: Seq<Library>, p: Seq<char>) -> bool {
    exists|k: int| 0 <= k < ls.len() && (#[trigger] ls[k]).path@ == p
}

/// Some series in `ss` has path `p`.
pub open spec fn has_series_path(ss: Seq<Series>, p: Seq<char>) -> bool {
    exists|k: int| 0 <= k < ss.len() && (#[trigger] ss[k]).path@ == p
}

/// Some media in `ms` has path `p`.
pub open spec fn has_media_path(ms: Seq<Media>, p: Seq<char>) -> bool {
    exists|k: int| 0 <= k < ms.len() && (#[trigger] ms[k]).path@ == p
}

/// `k` is the first library in `ls` with path `p`.
pub open spec fn first_library_at(ls: Seq<Library>, p: Seq<char>, k: int) -> bool {
    &&& 0 <= k < ls.len()
    &&& ls[k].path@ == p
    &&& forall|j: int| 0 <= j < k ==> (#[trigger] ls[j]).path@ != p
}

impl Catalog {
    pub fn new() -> (r: Catalog)
        ensures
            r.libraries@.len() == 0,
            r.series@.len() == 0,
            r.media@.len() == 0,
            r.next_id == 1,
            r@.wf(),
    {
        Catalog { libraries: Vec::new(), series: Vec::new(), media: Vec::new(), next_id: 1 }
    }

    /// Registers a library at `path`, unless one is there already; returns its id.
    pub fn add_library(&mut self, name: String, path: String) -> (r: Option<u64>)
        ensures
            has_library_path(old(self).libraries@, path@) || old(self).next_id == u64::MAX ==> r is None
                && *final(self) == *old(self),
            !has_library_path(old(self).libraries@, path@) && old(self).next_id < u64::MAX ==> {
                &&& r == Some(old(self).next_id)
                &&& final(self).libraries@ == old(self).libraries@.push(
                    Library { id: old(self).next_id, name, path, status: FileStatus::Ready },
                )
                &&& final(self).series@ == old(self).series@
                &&& final(self).media@ == old(self).media@
                &&& final(self).next_id == old(self).next_id + 1
            },
            old(self)@.wf() ==> final(self)@.wf(),
    {
        if self.library_by_path(&path).is_some() || self.next_id == u64::MAX {
            return None;
        }
        let id = self.next_id;
        let ghost old_libs = self.libraries@;
        let ghost p = path@;
        self.libraries.push(Library { id, name, path, status: FileStatus::Ready });
        self.next_id = id + 1;
        proof {
            if old(self)@.wf() {
                assert forall|i: int, j: int|
                    0 <= i < j < self.libraries@.len() implies (#[trigger] self.libraries@[i]).path@ != (
                    #[trigger] self.libraries@[j]).path@ && self.libraries@[i].id != self.libraries@[j].id by {
                    assert(old_libs[i] == self.libraries@[i]);
                    if j == old_libs.len() {
                        assert(old_libs[i].path@ != p);
                        assert(old_libs[i].id < id);
                    } else {
                        assert(old_libs[j] == self.libraries@[j]);
                    }
                }
            }
        }
        Some(id)
    }

    /// Position of the library registered at `path`.
    pub fn library_by_path(&self, path: &String) -> (r: Option<usize>)
        ensures
            r matches Some(k) ==> first_library_at(self.libraries@, path@, k as int),
            r is None <==> !has_library_path(self.libraries@, path@),
    {
        let mut k: usize = 0;
        while k < self.libraries.len()
            invariant
                k <= self.libraries@.len(),
                forall|j: int| 0 <= j < k ==> (#[trigger] self.libraries@[j]).path@ != path@,
            decreases self.libraries@.len() - k,
        {
            if self.libraries[k].path == *path {
                return Some(k);
            }
            k = k + 1;
        }
        None
    }

    /// Whether a series is recorded at `path`.
    pub fn series_exists(&self, path: &String) -> (r: bool)
        ensures
            r == has_series_path(self.series@, path@),
    {
        let mut k: usize = 0;
        while k < self.series.len()
            invariant
                k <= self.series@.len(),
                forall|j: int| 0 <= j < k ==> (#[trigger] self.series@[j]).path@ != path@,
            decreases self.series@.len() - k,
        {
            if self.series[k].path == *path {
                return true;
            }
            k = k + 1;
        }
        false
    }

    /// Whether a media record is recorded at `path`.
    pub fn media_exists(&self, path: &String) -> (r: bool)
        ensures
            r == has_media_path(self.media@, path@),
    {
        let mut k: usize = 0;
        while k < self.media.len()
            invariant
                k <= self.media@.len(),
                forall|j: int| 0 <= j < k ==> (#[trigger] self.media@[j]).path@ != path@,
            decreases self.media@.len() - k,
        {
            if self.media[k].path == *path {
                return true;
            }
            k = k + 1;
        }
        false
    }
}

/// The catalog as values.
pub ghost struct CatalogView {
    pub libraries: Seq<Library>,
    pub series: Seq<Series>,
    pub media: Seq<Media>,
    pub next_id: u64,
}

impl CatalogView {
    /// Paths are unique within each table, ids are unique within each table, and every id
    /// lies below `next_id`.
    pub open spec fn wf(self) -> bool {
        &&& forall|i: int| 0 <= i < self.libraries.len() ==> (#[trigger] self.libraries[i]).id < self.next_id
        &&& forall|i: int| 0 <= i < self.series.len() ==> (#[trigger] self.series[i]).id < self.next_id
        &&& forall|i: int| 0 <= i < self.media.len() ==> (#[trigger] self.media[i]).id < self.next_id
        &&& forall|i: int, j: int|
            0 <= i < j < self.libraries.len() ==> (#[trigger] self.libraries[i]).path@ != (#[trigger] self.libraries[j]).path@
                && self.libraries[i].id != self.libraries[j].id
        &&& series_keys_unique(self.series)
        &&& media_keys_unique(self.media)
    }
}

pub open spec fn series_keys_unique(ss: Seq<Series>) -> bool {
    forall|i: int, j: int|
        0 <= i < j < ss.len() ==> (#[trigger] ss[i]).path@ != (#[trigger] ss[j]).path@ && ss[i].id != ss[j].id
}

pub open spec fn media_keys_unique(ms: Seq<Media>) -> bool {
    forall|i: int, j: int|
        0 <= i < j < ms.len() ==> (#[trigger] ms[i]).path@ != (#[trigger] ms[j]).path@ && ms[i].id != ms[j].id
}

impl View for Catalog {
    type V = CatalogView;

    open spec fn view(&self) -> CatalogView {
        CatalogView {
            libraries: self.libraries@,
            series: self.series@,
            media: self.media@,
            next_id: self.next_id,
        }
    }
}

} // verus!
