//! Reconciliation of a library's catalog records with a snapshot of its directory tree.
//!
//! The caller walks the library root, probes the archives that `files_to_probe` names, and hands
//! both to `scan`, which decides everything else: which directories become series, which files
//! become media, which records are missing, and which events are emitted, in which order.
use vstd::prelude::*;
use crate::archive::ArchiveError;
use crate::catalog::{
    has_library_path, has_media_path, has_series_path, media_keys_unique, series_keys_unique, Catalog, CatalogView, FileStatus, Library, Media, ProcessedMedia,
    Series,
};
use crate::path::{
    declarative_cover, dot_name, IgnoredFile, hidden_below, ignored, ignored_path, is_child, is_under,
    path_dot_name, path_hidden_below, path_is_child, path_is_under, utf8_of, cover_path,
};

verus! {

/// One entry under a library root, as a directory walk reports it.
pub struct FsEntry {
    pub path: String,
    /// The final component of the path.
    pub name: String,
    /// The extension of the final component, as the walk reports it.
    pub extension: String,
    pub is_dir: bool,
    pub size: u64,
    /// Modification time, in seconds since the epoch.
    pub modified: i64,
}

/// The result of probing the archive at `path`.
pub struct ProbeOutcome {
    pub path: String,
    pub result: Result<ProcessedMedia, ArchiveError>,
}

#[derive(Clone, Copy, Debug, PartialEq, Eq, Structural)]
pub enum ScanError {
    /// No library is registered at the path.
    NotFound,
    /// The library's directory no longer exists.
    LibraryMissing,
    /// A file of no supported kind.
    UnsupportedFile,
    /// An archive could not be opened or enumerated.
    ArchiveCorrupt,
    /// An archive holds no entry.
    ArchiveEmpty,
    /// No image at a requested page.
    NoImage,
    /// The store can take no more records.
    StoreUnavailable,
    /// The scan was cancelled; what it did is kept.
    Cancelled,
}

/// What a scan reports, in order.
pub enum Event {
    JobStarted { runner_id: String, total_files: usize, library_path: String },
    JobProgress { runner_id: String, current: usize, total: usize, path: String },
    MediaCreated { id: u64, series_id: u64, path: String },
    SeriesCreated { id: u64, library_id: u64, path: String },
    JobCompleted { runner_id: String, cancelled: bool },
    ErrorLogged { error: ScanError, path: String },
}

pub open spec fn fs_path(e: FsEntry) -> Seq<u8> {
    utf8_of(e.path@)
}

/// `f` is a file below `dir` that a walk of `dir` takes up: not under a dot-directory, not
/// ignored.
pub open spec fn media_file_of(dir: Seq<u8>, f: FsEntry) -> bool {
    &&& !f.is_dir
    &&& is_under(dir, fs_path(f))
    &&& !hidden_below(dir, fs_path(f))
    &&& !ignored(fs_path(f), false)
}

/// Somewhere below `dir` lies a file that is not ignored.
pub open spec fn media_within(fs: Seq<FsEntry>, dir: Seq<u8>) -> bool {
    exists|j: int| 0 <= j < fs.len() && media_file_of(dir, #[trigger] fs[j])
}

/// `e` is a top-level directory of the library that holds media.
pub open spec fn series_candidate(lib_path: Seq<u8>, fs: Seq<FsEntry>, e: FsEntry) -> bool {
    &&& e.is_dir
    &&& is_child(lib_path, fs_path(e))
    &&& !dot_name(fs_path(e))
    &&& media_within(fs, fs_path(e))
}

pub open spec fn new_series(lib_id: u64, e: FsEntry, id: u64) -> Series {
    Series {
        id,
        library_id: lib_id,
        title: e.name,
        path: e.path,
        updated_at: e.modified,
        status: FileStatus::Ready,
    }
}

/// Series discovery over the first `n` entries: each candidate directory not yet recorded
/// becomes a series, in the order of the walk.
pub open spec fn discover(
    lib_id: u64,
    lib_path: Seq<u8>,
    fs: Seq<FsEntry>,
    ss: Seq<Series>,
    id: u64,
    n: nat,
) -> (Seq<Series>, u64, Seq<Event>)
    decreases n,
{
    if n == 0 || n > fs.len() {
        (ss, id, Seq::empty())
    } else {
        let prev = discover(lib_id, lib_path, fs, ss, id, (n - 1) as nat);
        let e = fs[n - 1];
        if series_candidate(lib_path, fs, e) && !has_series_path(prev.0, e.path@) {
            if prev.1 < u64::MAX {
                let s = new_series(lib_id, e, prev.1);
                (
                    prev.0.push(s),
                    (prev.1 + 1) as u64,
                    prev.2.push(Event::SeriesCreated { id: s.id, library_id: lib_id, path: e.path }),
                )
            } else {
                (
                    prev.0,
                    prev.1,
                    prev.2.push(Event::ErrorLogged { error: ScanError::StoreUnavailable, path: e.path }),
                )
            }
        } else {
            prev
        }
    }
}

fn entry_bytes(e: &FsEntry) -> (r: &[u8])
    ensures
        r@ == fs_path(*e),
{
    e.path.as_str().as_bytes()
}

fn has_media_below(fs: &Vec<FsEntry>, dir: &[u8]) -> (r: bool)
    ensures
        r == media_within(fs@, dir@),
{
    let mut j: usize = 0;
    while j < fs.len()
        invariant
            j <= fs@.len(),
            forall|i: int| 0 <= i < j ==> !media_file_of(dir@, #[trigger] fs@[i]),
        decreases fs@.len() - j,
    {
        let f = &fs[j];
        let p = entry_bytes(f);
        if !f.is_dir && path_is_under(dir, p) {
            if !path_hidden_below(dir, p) && !ignored_path(p, false) {
                assert(media_file_of(dir@, fs@[j as int]));
                return true;
            }
        }
        j = j + 1;
    }
    false
}

/// Whether some file below the directory `dir` is not ignored.
pub fn dir_has_media(fs: &Vec<FsEntry>, dir: &str) -> (r: bool)
    ensures
        r == media_within(fs@, utf8_of(dir@)),
{
    has_media_below(fs, dir.as_bytes())
}

impl IgnoredFile for FsEntry {
    open spec fn ignored_spec(&self) -> bool {
        ignored(fs_path(*self), self.is_dir)
    }

    fn should_ignore(&self) -> (r: bool) {
        ignored_path(entry_bytes(self), self.is_dir)
    }
}

/// Records a series for each top-level directory of the library that holds media and is not
/// recorded yet.
fn discover_series(
    catalog: &mut Catalog,
    lib_id: u64,
    lib_path: &String,
    fs: &Vec<FsEntry>,
    events: &mut Vec<Event>,
)
    ensures
        ({
            let d = discover(
                lib_id,
                utf8_of(lib_path@),
                fs@,
                old(catalog).series@,
                old(catalog).next_id,
                fs@.len(),
            );
            &&& final(catalog).series@ == d.0
            &&& final(catalog).next_id == d.1
            &&& final(events)@ == old(events)@ + d.2
            &&& final(catalog).libraries@ == old(catalog).libraries@
            &&& final(catalog).media@ == old(catalog).media@
        }),
{
    let lp = lib_path.as_str().as_bytes();
    let ghost ss0 = catalog.series@;
    let ghost id0 = catalog.next_id;
    let ghost ev0 = events@;
    let ghost libs0 = catalog.libraries@;
    let ghost media0 = catalog.media@;
    let mut i: usize = 0;
    while i < fs.len()
        invariant
            i <= fs@.len(),
            lp@ == utf8_of(lib_path@),
            ({
                let d = discover(lib_id, lp@, fs@, ss0, id0, i as nat);
                &&& catalog.series@ == d.0
                &&& catalog.next_id == d.1
                &&& events@ == ev0 + d.2
            }),
            catalog.libraries@ == libs0,
            catalog.media@ == media0,
        decreases fs@.len() - i,
    {
        let e = &fs[i];
        let p = entry_bytes(e);
        let candidate = e.is_dir && path_is_child(lp, p) && !path_dot_name(p) && has_media_below(fs, p);
        if candidate && !catalog.series_exists(&e.path) {
            if catalog.next_id < u64::MAX {
                let id = catalog.next_id;
                let s = Series {
                    id,
                    library_id: lib_id,
                    title: e.name.clone(),
                    path: e.path.clone(),
                    updated_at: e.modified,
                    status: FileStatus::Ready,
                };
                catalog.series.push(s);
                catalog.next_id = id + 1;
                events.push(Event::SeriesCreated { id, library_id: lib_id, path: e.path.clone() });
            } else {
                events.push(Event::ErrorLogged { error: ScanError::StoreUnavailable, path: e.path.clone() });
            }
        }
        proof {
            let prev = discover(lib_id, lp@, fs@, ss0, id0, i as nat);
            assert(prev.2.push(Event::SeriesCreated { id: prev.1, library_id: lib_id, path: e.path })
                =~= prev.2 + seq![Event::SeriesCreated { id: prev.1, library_id: lib_id, path: e.path }]);
        }
        i = i + 1;
    }
}

/// The files of `fs` below `dir`, in walk order, as (series position, entry position) pairs.
pub open spec fn files_under(k: usize, dir: Seq<u8>, fs: Seq<FsEntry>) -> Seq<(usize, usize)>
    decreases fs.len(),
{
    if fs.len() == 0 {
        Seq::empty()
    } else {
        files_under(k, dir, fs.drop_last()) + if !fs.last().is_dir && is_under(dir, fs_path(fs.last())) {
            seq![(k, (fs.len() - 1) as usize)]
        } else {
            Seq::empty()
        }
    }
}

/// Every file below each series of the library, series by series: what the scan walks.
pub open spec fn walk_items(ss: Seq<Series>, lib_id: u64, fs: Seq<FsEntry>) -> Seq<(usize, usize)>
    decreases ss.len(),
{
    if ss.len() == 0 {
        Seq::empty()
    } else {
        walk_items(ss.drop_last(), lib_id, fs) + if ss.last().library_id == lib_id {
            files_under((ss.len() - 1) as usize, utf8_of(ss.last().path@), fs)
        } else {
            Seq::empty()
        }
    }
}

pub open spec fn items_in_range(items: Seq<(usize, usize)>, ns: nat, nf: nat) -> bool {
    forall|n: int| 0 <= n < items.len() ==> (#[trigger] items[n]).0 < ns && items[n].1 < nf
}

/// Lists what the scan walks: each file below each series of the library.
fn collect_walk(series: &Vec<Series>, lib_id: u64, fs: &Vec<FsEntry>) -> (r: Vec<(usize, usize)>)
    ensures
        r@ == walk_items(series@, lib_id, fs@),
        items_in_range(r@, series@.len(), fs@.len()),
{
    let mut r: Vec<(usize, usize)> = Vec::new();
    let mut k: usize = 0;
    while k < series.len()
        invariant
            k <= series@.len(),
            r@ == walk_items(series@.subrange(0, k as int), lib_id, fs@),
            items_in_range(r@, series@.len(), fs@.len()),
        decreases series@.len() - k,
    {
        let ghost before = r@;
        assert(series@.subrange(0, k + 1).drop_last() == series@.subrange(0, k as int));
        if series[k].library_id == lib_id {
            let dir = series[k].path.as_str().as_bytes();
            let mut j: usize = 0;
            while j < fs.len()
                invariant
                    k < series@.len(),
                    j <= fs@.len(),
                    dir@ == utf8_of(series@[k as int].path@),
                    r@ == before + files_under(k, dir@, fs@.subrange(0, j as int)),
                    items_in_range(r@, series@.len(), fs@.len()),
                decreases fs@.len() - j,
            {
                assert(fs@.subrange(0, j + 1).drop_last() == fs@.subrange(0, j as int));
                if !fs[j].is_dir && path_is_under(dir, entry_bytes(&fs[j])) {
                    r.push((k, j));
                    assert(r@ == before + files_under(k, dir@, fs@.subrange(0, j + 1)));
                } else {
                    assert(r@ == before + files_under(k, dir@, fs@.subrange(0, j + 1)));
                }
                j = j + 1;
            }
            assert(fs@.subrange(0, fs@.len() as int) == fs@);
        }
        k = k + 1;
    }
    assert(series@.subrange(0, series@.len() as int) == series@);
    r
}

/// A walked file that the scan takes up: not below a dot-directory of its series, not
/// ignored, not a cover image.
pub open spec fn eligible(s: Series, f: FsEntry) -> bool {
    &&& !hidden_below(utf8_of(s.path@), fs_path(f))
    &&& !ignored(fs_path(f), false)
    &&& !declarative_cover(fs_path(f))
}

/// Position of the last outcome for path `p`, or -1.
pub open spec fn last_probe(ps: Seq<ProbeOutcome>, p: Seq<char>) -> int
    decreases ps.len(),
{
    if ps.len() == 0 {
        -1
    } else if ps.last().path@ == p {
        ps.len() - 1
    } else {
        last_probe(ps.drop_last(), p)
    }
}

pub open spec fn archive_error(e: ArchiveError) -> ScanError {
    match e {
        ArchiveError::Corrupt => ScanError::ArchiveCorrupt,
        ArchiveError::Empty => ScanError::ArchiveEmpty,
        ArchiveError::NoImage => ScanError::NoImage,
        ArchiveError::Unsupported => ScanError::UnsupportedFile,
    }
}

pub open spec fn new_media(series_id: u64, f: FsEntry, pm: ProcessedMedia, id: u64) -> Media {
    Media {
        id,
        series_id,
        name: f.name,
        path: f.path,
        extension: f.extension,
        size: f.size,
        updated_at: f.modified,
        pages: pm.pages,
        metadata: pm.metadata,
        checksum: pm.checksum,
        status: FileStatus::Ready,
    }
}

/// What the walk does with one file `f` of series `s`: a known path is only seen; a new one
/// is inserted from its probe outcome (an archive without pages is inserted and also logged),
/// or its failure logged; a file without an outcome waits for a later scan.
pub open spec fn visit(
    s: Series,
    f: FsEntry,
    ps: Seq<ProbeOutcome>,
    st: (Seq<Media>, u64, Seq<Event>),
) -> (Seq<Media>, u64, Seq<Event>) {
    let i = last_probe(ps, f.path@);
    if !eligible(s, f) || has_media_path(st.0, f.path@) || i < 0 {
        st
    } else {
        match ps[i].result {
            Err(e) => (st.0, st.1, st.2.push(Event::ErrorLogged { error: archive_error(e), path: f.path })),
            Ok(pm) => if st.1 < u64::MAX {
                let created = st.2.push(Event::MediaCreated { id: st.1, series_id: s.id, path: f.path });
                (
                    st.0.push(new_media(s.id, f, pm, st.1)),
                    (st.1 + 1) as u64,
                    if pm.pages == 0 {
                        created.push(Event::ErrorLogged { error: ScanError::NoImage, path: f.path })
                    } else {
                        created
                    },
                )
            } else {
                (st.0, st.1, st.2.push(Event::ErrorLogged { error: ScanError::StoreUnavailable, path: f.path }))
            },
        }
    }
}

/// The walk over the first `n` items, each followed by a progress event that counts it.
pub open spec fn walk(
    ss: Seq<Series>,
    fs: Seq<FsEntry>,
    items: Seq<(usize, usize)>,
    runner_id: String,
    ms: Seq<Media>,
    id: u64,
    ps: Seq<ProbeOutcome>,
    n: nat,
) -> (Seq<Media>, u64, Seq<Event>)
    decreases n,
{
    if n == 0 || n > items.len() {
        (ms, id, Seq::empty())
    } else {
        let prev = walk(ss, fs, items, runner_id, ms, id, ps, (n - 1) as nat);
        let f = fs[items[n - 1].1 as int];
        let st = visit(ss[items[n - 1].0 as int], f, ps, prev);
        (
            st.0,
            st.1,
            st.2.push(
                Event::JobProgress {
                    runner_id,
                    current: n as usize,
                    total: items.len() as usize,
                    path: f.path,
                },
            ),
        )
    }
}

fn find_probe(ps: &Vec<ProbeOutcome>, p: &String) -> (r: Option<usize>)
    ensures
        r is None <==> last_probe(ps@, p@) < 0,
        r matches Some(i) ==> i == last_probe(ps@, p@),
{
    let mut i = ps.len();
    assert(ps@.subrange(0, i as int) == ps@);
    while i > 0
        invariant
            i <= ps@.len(),
            last_probe(ps@, p@) == last_probe(ps@.subrange(0, i as int), p@),
        decreases i,
    {
        if ps[i - 1].path == *p {
            return Some(i - 1);
        }
        assert(ps@.subrange(0, i as int).drop_last() == ps@.subrange(0, i - 1));
        i = i - 1;
    }
    None
}

proof fn lemma_last_probe_bounds(ps: Seq<ProbeOutcome>, p: Seq<char>)
    ensures
        -1 <= last_probe(ps, p) < ps.len(),
    decreases ps.len(),
{
    if ps.len() > 0 && ps.last().path@ != p {
        lemma_last_probe_bounds(ps.drop_last(), p);
    }
}

fn map_archive_error(e: ArchiveError) -> (r: ScanError)
    ensures
        r == archive_error(e),
{
    match e {
        ArchiveError::Corrupt => ScanError::ArchiveCorrupt,
        ArchiveError::Empty => ScanError::ArchiveEmpty,
        ArchiveError::NoImage => ScanError::NoImage,
        ArchiveError::Unsupported => ScanError::UnsupportedFile,
    }
}

/// Walks the listed files: records new media from their probe outcomes and reports progress.
fn walk_files(
    catalog: &mut Catalog,
    items: &Vec<(usize, usize)>,
    fs: &Vec<FsEntry>,
    runner_id: &String,
    probes: &Vec<ProbeOutcome>,
    events: &mut Vec<Event>,
)
    requires
        items_in_range(items@, old(catalog).series@.len(), fs@.len()),
    ensures
        ({
            let w = walk(
                old(catalog).series@,
                fs@,
                items@,
                *runner_id,
                old(catalog).media@,
                old(catalog).next_id,
                probes@,
                items@.len(),
            );
            &&& final(catalog).media@ == w.0
            &&& final(catalog).next_id == w.1
            &&& final(events)@ == old(events)@ + w.2
            &&& final(catalog).libraries@ == old(catalog).libraries@
            &&& final(catalog).series@ == old(catalog).series@
        }),
{
    let ghost ss = catalog.series@;
    let ghost ms0 = catalog.media@;
    let ghost id0 = catalog.next_id;
    let ghost ev0 = events@;
    let ghost ps0 = probes@;
    let ghost libs = catalog.libraries@;
    let total = items.len();
    let mut n: usize = 0;
    while n < items.len()
        invariant
            n <= items@.len(),
            total == items@.len(),
            items_in_range(items@, ss.len(), fs@.len()),
            catalog.series@ == ss,
            catalog.libraries@ == libs,
            ({
                let w = walk(ss, fs@, items@, *runner_id, ms0, id0, ps0, n as nat);
                &&& catalog.media@ == w.0
                &&& catalog.next_id == w.1
                &&& events@ == ev0 + w.2
            }),
            probes@ == ps0,
        decreases items@.len() - n,
    {
        let (k, j) = items[n];
        assert(items@[n as int].0 < ss.len());
        let f = &fs[j];
        let s = &catalog.series[k];
        let sid = s.id;
        let ghost prev = walk(ss, fs@, items@, *runner_id, ms0, id0, ps0, n as nat);
        let elig = eligible_exec(s, f);
        if elig && !catalog.media_exists(&f.path) {
            match find_probe(probes, &f.path) {
                None => {},
                Some(i) => {
                    proof {
                        lemma_last_probe_bounds(probes@, f.path@);
                    }
                    match &probes[i].result {
                        Err(e) => {
                            events.push(Event::ErrorLogged { error: map_archive_error(*e), path: f.path.clone() });
                        },
                        Ok(found) => {
                            let pm = found.copy();
                            let pages = pm.pages;
                            if catalog.next_id < u64::MAX {
                                let id = catalog.next_id;
                                let m = Media {
                                    id,
                                    series_id: sid,
                                    name: f.name.clone(),
                                    path: f.path.clone(),
                                    extension: f.extension.clone(),
                                    size: f.size,
                                    updated_at: f.modified,
                                    pages: pm.pages,
                                    metadata: pm.metadata,
                                    checksum: pm.checksum,
                                    status: FileStatus::Ready,
                                };
                                catalog.media.push(m);
                                catalog.next_id = id + 1;
                                events.push(Event::MediaCreated { id, series_id: sid, path: f.path.clone() });
                                if pages == 0 {
                                    events.push(Event::ErrorLogged { error: ScanError::NoImage, path: f.path.clone() });
                                }
                            } else {
                                events.push(Event::ErrorLogged { error: ScanError::StoreUnavailable, path: f.path.clone() });
                            }
                        },
                    }
                },
            }
        }
        events.push(Event::JobProgress {
            runner_id: runner_id.clone(),
            current: n + 1,
            total,
            path: f.path.clone(),
        });
        proof {
            let st = visit(ss[k as int], fs@[j as int], ps0, prev);
            let pe = Event::JobProgress { runner_id: *runner_id, current: (n + 1) as usize, total: total, path: fs@[j as int].path };
            assert(events@ == ev0 + st.2.push(pe));
        }
        n = n + 1;
    }
}

/// A directory at path `p` is in the snapshot.
pub open spec fn dir_exists(fs: Seq<FsEntry>, p: Seq<char>) -> bool {
    exists|j: int| 0 <= j < fs.len() && (#[trigger] fs[j]).is_dir && fs[j].path@ == p
}

/// A series of the library is ready when its directory exists, missing otherwise; other
/// series are left as they are.
pub open spec fn reconciled_series(lib_id: u64, fs: Seq<FsEntry>, s: Series) -> Series {
    if s.library_id == lib_id {
        Series { status: if dir_exists(fs, s.path@) { FileStatus::Ready } else { FileStatus::Missing }, ..s }
    } else {
        s
    }
}

/// The series with id `series_id` belongs to the library.
pub open spec fn in_library(ss: Seq<Series>, lib_id: u64, series_id: u64) -> bool {
    exists|k: int| 0 <= k < ss.len() && (#[trigger] ss[k]).id == series_id && ss[k].library_id == lib_id
}

/// Item `n` of the walk is a file at path `p` that the scan takes up.
pub open spec fn walked_at(
    ss: Seq<Series>,
    fs: Seq<FsEntry>,
    items: Seq<(usize, usize)>,
    n: int,
    p: Seq<char>,
) -> bool {
    eligible(ss[items[n].0 as int], fs[items[n].1 as int]) && fs[items[n].1 as int].path@ == p
}

/// The walk took up a file at path `p`.
pub open spec fn seen(ss: Seq<Series>, fs: Seq<FsEntry>, items: Seq<(usize, usize)>, p: Seq<char>) -> bool {
    exists|n: int| 0 <= n < items.len() && #[trigger] walked_at(ss, fs, items, n, p)
}

/// A media record of the library is ready when the walk found its file, missing otherwise;
/// other records are left as they are.
pub open spec fn reconciled_media(
    ss: Seq<Series>,
    lib_id: u64,
    fs: Seq<FsEntry>,
    items: Seq<(usize, usize)>,
    m: Media,
) -> Media {
    if in_library(ss, lib_id, m.series_id) {
        Media { status: if seen(ss, fs, items, m.path@) { FileStatus::Ready } else { FileStatus::Missing }, ..m }
    } else {
        m
    }
}

fn has_dir(fs: &Vec<FsEntry>, p: &String) -> (r: bool)
    ensures
        r == dir_exists(fs@, p@),
{
    let mut j: usize = 0;
    while j < fs.len()
        invariant
            j <= fs@.len(),
            forall|i: int| 0 <= i < j ==> !((#[trigger] fs@[i]).is_dir && fs@[i].path@ == p@),
        decreases fs@.len() - j,
    {
        if fs[j].is_dir && fs[j].path == *p {
            return true;
        }
        j = j + 1;
    }
    false
}

fn series_in_library(ss: &Vec<Series>, lib_id: u64, series_id: u64) -> (r: bool)
    ensures
        r == in_library(ss@, lib_id, series_id),
{
    let mut k: usize = 0;
    while k < ss.len()
        invariant
            k <= ss@.len(),
            forall|i: int| 0 <= i < k ==> !((#[trigger] ss@[i]).id == series_id && ss@[i].library_id == lib_id),
        decreases ss@.len() - k,
    {
        if ss[k].id == series_id && ss[k].library_id == lib_id {
            return true;
        }
        k = k + 1;
    }
    false
}

fn eligible_exec(s: &Series, f: &FsEntry) -> (r: bool)
    ensures
        r == eligible(*s, *f),
{
    let p = entry_bytes(f);
    let sp = s.path.as_str().as_bytes();
    proof {
        if sp@.len() >= p@.len() {
            assert(!hidden_below(sp@, p@));
        }
    }
    !ignored_path(p, false) && !cover_path(p) && (sp.len() >= p.len() || !path_hidden_below(sp, p))
}

fn was_seen(ss: &Vec<Series>, fs: &Vec<FsEntry>, items: &Vec<(usize, usize)>, p: &String) -> (r: bool)
    requires
        items_in_range(items@, ss@.len(), fs@.len()),
    ensures
        r == seen(ss@, fs@, items@, p@),
{
    let mut n: usize = 0;
    while n < items.len()
        invariant
            n <= items@.len(),
            items_in_range(items@, ss@.len(), fs@.len()),
            forall|i: int| 0 <= i < n ==> !#[trigger] walked_at(ss@, fs@, items@, i, p@),
        decreases items@.len() - n,
    {
        let (k, j) = items[n];
        assert(items@[n as int].0 < ss@.len());
        if eligible_exec(&ss[k], &fs[j]) && fs[j].path == *p {
            assert(walked_at(ss@, fs@, items@, n as int, p@));
            return true;
        }
        n = n + 1;
    }
    false
}

/// Sets each series of the library ready or missing by whether its directory exists.
fn reconcile_series(catalog: &mut Catalog, lib_id: u64, fs: &Vec<FsEntry>)
    ensures
        final(catalog).series@ == old(catalog).series@.map_values(|s: Series| reconciled_series(lib_id, fs@, s)),
        final(catalog).libraries@ == old(catalog).libraries@,
        final(catalog).media@ == old(catalog).media@,
        final(catalog).next_id == old(catalog).next_id,
{
    let ghost ss = catalog.series@;
    let mut k: usize = 0;
    while k < catalog.series.len()
        invariant
            k <= catalog.series@.len(),
            catalog.series@.len() == ss.len(),
            catalog.libraries@ == old(catalog).libraries@,
            catalog.media@ == old(catalog).media@,
            catalog.next_id == old(catalog).next_id,
            ss == old(catalog).series@,
            forall|i: int| 0 <= i < k ==> catalog.series@[i] == reconciled_series(lib_id, fs@, ss[i]),
            forall|i: int| k <= i < ss.len() ==> catalog.series@[i] == ss[i],
        decreases ss.len() - k,
    {
        if catalog.series[k].library_id == lib_id {
            let st = if has_dir(fs, &catalog.series[k].path) { FileStatus::Ready } else { FileStatus::Missing };
            catalog.series[k].status = st;
        }
        k = k + 1;
    }
    assert(catalog.series@ =~= ss.map_values(|s: Series| reconciled_series(lib_id, fs@, s)));
}

/// Sets each media record of the library ready or missing by whether the walk found its file.
fn reconcile_media(catalog: &mut Catalog, lib_id: u64, fs: &Vec<FsEntry>, items: &Vec<(usize, usize)>)
    requires
        items_in_range(items@, old(catalog).series@.len(), fs@.len()),
    ensures
        final(catalog).media@ == old(catalog).media@.map_values(
            |m: Media| reconciled_media(old(catalog).series@, lib_id, fs@, items@, m),
        ),
        final(catalog).libraries@ == old(catalog).libraries@,
        final(catalog).series@ == old(catalog).series@,
        final(catalog).next_id == old(catalog).next_id,
{
    let ghost ms = catalog.media@;
    let ghost ss = catalog.series@;
    let mut k: usize = 0;
    while k < catalog.media.len()
        invariant
            k <= catalog.media@.len(),
            catalog.media@.len() == ms.len(),
            catalog.libraries@ == old(catalog).libraries@,
            catalog.series@ == ss,
            catalog.next_id == old(catalog).next_id,
            ms == old(catalog).media@,
            ss == old(catalog).series@,
            items_in_range(items@, ss.len(), fs@.len()),
            forall|i: int| 0 <= i < k ==> catalog.media@[i] == reconciled_media(ss, lib_id, fs@, items@, ms[i]),
            forall|i: int| k <= i < ms.len() ==> catalog.media@[i] == ms[i],
        decreases ms.len() - k,
    {
        if series_in_library(&catalog.series, lib_id, catalog.media[k].series_id) {
            let st = if was_seen(&catalog.series, fs, items, &catalog.media[k].path) {
                FileStatus::Ready
            } else {
                FileStatus::Missing
            };
            catalog.media[k].status = st;
        }
        k = k + 1;
    }
    assert(catalog.media@ =~= ms.map_values(|m: Media| reconciled_media(ss, lib_id, fs@, items@, m)));
}

/// Position of the library registered at `p` (the first, should there be several).
pub open spec fn library_index(ls: Seq<Library>, p: Seq<char>) -> int {
    choose|k: int| crate::catalog::first_library_at(ls, p, k)
}

proof fn lemma_first_library_unique(ls: Seq<Library>, p: Seq<char>, k: int)
    requires
        crate::catalog::first_library_at(ls, p, k),
    ensures
        library_index(ls, p) == k,
{
    let c = library_index(ls, p);
    assert(crate::catalog::first_library_at(ls, p, c));
    if c < k {
        assert(ls[c].path@ != p);
    } else if c > k {
        assert(ls[k].path@ != p);
    }
}

pub open spec fn missing_series(lib_id: u64, s: Series) -> Series {
    if s.library_id == lib_id {
        Series { status: FileStatus::Missing, ..s }
    } else {
        s
    }
}

/// Series discovery for library `li`: the series afterwards, the next id, the events.
pub open spec fn discovered(c: CatalogView, li: int, fs: Seq<FsEntry>) -> (Seq<Series>, u64, Seq<Event>) {
    let lib = c.libraries[li];
    discover(lib.id, utf8_of(lib.path@), fs, c.series, c.next_id, fs.len())
}

/// What a scan of library `li` walks.
pub open spec fn scan_items(c: CatalogView, li: int, fs: Seq<FsEntry>) -> Seq<(usize, usize)> {
    walk_items(discovered(c, li, fs).0, c.libraries[li].id, fs)
}

/// The catalog and the events after a scan of library `li` whose directory exists.
pub open spec fn scanned(
    c: CatalogView,
    li: int,
    fs: Seq<FsEntry>,
    probes: Seq<ProbeOutcome>,
    runner_id: String,
    cancelled: bool,
) -> (CatalogView, Seq<Event>) {
    let lib = c.libraries[li];
    let d = discovered(c, li, fs);
    let items = scan_items(c, li, fs);
    let w = walk(d.0, fs, items, runner_id, c.media, d.1, probes, items.len());
    (
        CatalogView {
            libraries: c.libraries.update(li, Library { status: FileStatus::Ready, ..lib }),
            series: d.0.map_values(|s: Series| reconciled_series(lib.id, fs, s)),
            media: w.0.map_values(|m: Media| reconciled_media(d.0, lib.id, fs, items, m)),
            next_id: w.1,
        },
        d.2 + seq![
            Event::JobStarted { runner_id, total_files: items.len() as usize, library_path: lib.path },
        ] + w.2 + seq![Event::JobCompleted { runner_id, cancelled }],
    )
}

/// The catalog after a scan of library `li` whose directory is gone: the library and its
/// series are missing.
pub open spec fn marked_missing(c: CatalogView, li: int) -> CatalogView {
    let lib = c.libraries[li];
    CatalogView {
        libraries: c.libraries.update(li, Library { status: FileStatus::Missing, ..lib }),
        series: c.series.map_values(|s: Series| missing_series(lib.id, s)),
        media: c.media,
        next_id: c.next_id,
    }
}

proof fn lemma_discover_keys(lib_id: u64, lib_path: Seq<u8>, fs: Seq<FsEntry>, ss: Seq<Series>, id: u64, n: nat)
    requires
        series_keys_unique(ss),
        forall|i: int| 0 <= i < ss.len() ==> (#[trigger] ss[i]).id < id,
    ensures
        ({
            let d = discover(lib_id, lib_path, fs, ss, id, n);
            &&& series_keys_unique(d.0)
            &&& forall|i: int| 0 <= i < d.0.len() ==> (#[trigger] d.0[i]).id < d.1
            &&& id <= d.1
        }),
    decreases n,
{
    if n > 0 && n <= fs.len() {
        lemma_discover_keys(lib_id, lib_path, fs, ss, id, (n - 1) as nat);
        let prev = discover(lib_id, lib_path, fs, ss, id, (n - 1) as nat);
        let d = discover(lib_id, lib_path, fs, ss, id, n);
        let e = fs[n - 1];
        if series_candidate(lib_path, fs, e) && !has_series_path(prev.0, e.path@) && prev.1 < u64::MAX {
            assert forall|i: int, j: int| 0 <= i < j < d.0.len() implies (#[trigger] d.0[i]).path@ != (
            #[trigger] d.0[j]).path@ && d.0[i].id != d.0[j].id by {
                assert(d.0[i] == prev.0[i]);
                if j < prev.0.len() {
                    assert(d.0[j] == prev.0[j]);
                }
            }
            assert forall|i: int| 0 <= i < d.0.len() implies (#[trigger] d.0[i]).id < d.1 by {
                if i < prev.0.len() {
                    assert(d.0[i] == prev.0[i]);
                }
            }
        }
    }
}

proof fn lemma_walk_keys(
    ss: Seq<Series>,
    fs: Seq<FsEntry>,
    items: Seq<(usize, usize)>,
    runner_id: String,
    ms: Seq<Media>,
    id: u64,
    ps: Seq<ProbeOutcome>,
    n: nat,
)
    requires
        media_keys_unique(ms),
        forall|i: int| 0 <= i < ms.len() ==> (#[trigger] ms[i]).id < id,
    ensures
        ({
            let w = walk(ss, fs, items, runner_id, ms, id, ps, n);
            &&& media_keys_unique(w.0)
            &&& forall|i: int| 0 <= i < w.0.len() ==> (#[trigger] w.0[i]).id < w.1
            &&& id <= w.1
        }),
    decreases n,
{
    if n > 0 && n <= items.len() {
        lemma_walk_keys(ss, fs, items, runner_id, ms, id, ps, (n - 1) as nat);
        let prev = walk(ss, fs, items, runner_id, ms, id, ps, (n - 1) as nat);
        let w = walk(ss, fs, items, runner_id, ms, id, ps, n);
        if w.0.len() > prev.0.len() {
            assert forall|i: int, j: int| 0 <= i < j < w.0.len() implies (#[trigger] w.0[i]).path@ != (
            #[trigger] w.0[j]).path@ && w.0[i].id != w.0[j].id by {
                assert(w.0[i] == prev.0[i]);
                if j < prev.0.len() {
                    assert(w.0[j] == prev.0[j]);
                }
            }
            assert forall|i: int| 0 <= i < w.0.len() implies (#[trigger] w.0[i]).id < w.1 by {
                if i < prev.0.len() {
                    assert(w.0[i] == prev.0[i]);
                }
            }
        }
    }
}

/// A scan keeps the catalog well formed.
pub proof fn lemma_scan_keeps_wf(
    c: CatalogView,
    li: int,
    fs: Seq<FsEntry>,
    probes: Seq<ProbeOutcome>,
    runner_id: String,
    cancelled: bool,
)
    requires
        c.wf(),
        0 <= li < c.libraries.len(),
    ensures
        scanned(c, li, fs, probes, runner_id, cancelled).0.wf(),
        marked_missing(c, li).wf(),
{
    let lib = c.libraries[li];
    let d = discovered(c, li, fs);
    let items = scan_items(c, li, fs);
    lemma_discover_keys(lib.id, utf8_of(lib.path@), fs, c.series, c.next_id, fs.len());
    lemma_walk_keys(d.0, fs, items, runner_id, c.media, d.1, probes, items.len());
    let out = scanned(c, li, fs, probes, runner_id, cancelled).0;
    assert forall|i: int, j: int| 0 <= i < j < out.libraries.len() implies (#[trigger] out.libraries[i]).path@
        != (#[trigger] out.libraries[j]).path@ && out.libraries[i].id != out.libraries[j].id by {
        assert(c.libraries[i].path@ != c.libraries[j].path@);
    }
    assert forall|i: int| 0 <= i < out.libraries.len() implies (#[trigger] out.libraries[i]).id < out.next_id by {
        assert(c.libraries[i].id < c.next_id);
    }
    assert forall|i: int, j: int| 0 <= i < j < out.series.len() implies (#[trigger] out.series[i]).path@
        != (#[trigger] out.series[j]).path@ && out.series[i].id != out.series[j].id by {
        assert(d.0[i].path@ != d.0[j].path@);
    }
    assert forall|i: int| 0 <= i < out.series.len() implies (#[trigger] out.series[i]).id < out.next_id by {
        assert(d.0[i].id < d.1);
    }
    let w = walk(d.0, fs, items, runner_id, c.media, d.1, probes, items.len());
    assert forall|i: int, j: int| 0 <= i < j < out.media.len() implies (#[trigger] out.media[i]).path@
        != (#[trigger] out.media[j]).path@ && out.media[i].id != out.media[j].id by {
        assert(w.0[i].path@ != w.0[j].path@);
    }
    let m = marked_missing(c, li);
    assert forall|i: int, j: int| 0 <= i < j < m.libraries.len() implies (#[trigger] m.libraries[i]).path@
        != (#[trigger] m.libraries[j]).path@ && m.libraries[i].id != m.libraries[j].id by {
        assert(c.libraries[i].path@ != c.libraries[j].path@);
    }
    assert forall|i: int| 0 <= i < m.libraries.len() implies (#[trigger] m.libraries[i]).id < m.next_id by {
        assert(c.libraries[i].id < c.next_id);
    }
    assert forall|i: int, j: int| 0 <= i < j < m.series.len() implies (#[trigger] m.series[i]).path@
        != (#[trigger] m.series[j]).path@ && m.series[i].id != m.series[j].id by {
        assert(c.series[i].path@ != c.series[j].path@);
    }
}

/// Flips the library at position `li` and all its series to missing.
pub fn mark_library_missing(catalog: &mut Catalog, li: usize)
    requires
        li < old(catalog).libraries@.len(),
    ensures
        final(catalog)@ == marked_missing(old(catalog)@, li as int),
{
    let lib_id = catalog.libraries[li].id;
    catalog.libraries[li].status = FileStatus::Missing;
    let ghost ss = catalog.series@;
    let mut k: usize = 0;
    while k < catalog.series.len()
        invariant
            k <= catalog.series@.len(),
            catalog.series@.len() == ss.len(),
            ss == old(catalog).series@,
            lib_id == old(catalog).libraries@[li as int].id,
            li < old(catalog).libraries@.len(),
            catalog.libraries@ == old(catalog).libraries@.update(
                li as int,
                Library { status: FileStatus::Missing, ..old(catalog).libraries@[li as int] },
            ),
            catalog.media@ == old(catalog).media@,
            catalog.next_id == old(catalog).next_id,
            forall|i: int| 0 <= i < k ==> catalog.series@[i] == missing_series(lib_id, ss[i]),
            forall|i: int| k <= i < ss.len() ==> catalog.series@[i] == ss[i],
        decreases ss.len() - k,
    {
        if catalog.series[k].library_id == lib_id {
            catalog.series[k].status = FileStatus::Missing;
        }
        k = k + 1;
    }
    assert(catalog.series@ =~= ss.map_values(|s: Series| missing_series(lib_id, s)));
    assert(catalog.libraries@ =~= marked_missing(old(catalog)@, li as int).libraries);
}

/// Reconciles the library registered at `library_path` with a snapshot `fs` of the entries
/// below its directory (`root_exists` tells whether the directory itself exists), using the
/// outcomes of probing the archives that `files_to_probe` named. Events are appended to
/// `events`. `cancelled` tells that the scan was cancelled before every archive was probed:
/// what was probed is recorded, the rest waits for a later scan.
pub fn scan(
    catalog: &mut Catalog,
    library_path: &String,
    runner_id: &String,
    root_exists: bool,
    fs: &Vec<FsEntry>,
    probes: &Vec<ProbeOutcome>,
    cancelled: bool,
    events: &mut Vec<Event>,
) -> (r: Result<(), ScanError>)
    ensures
        !has_library_path(old(catalog).libraries@, library_path@) ==> {
            &&& r == Err::<(), ScanError>(ScanError::NotFound)
            &&& final(catalog)@ == old(catalog)@
            &&& final(events)@ == old(events)@
        },
        has_library_path(old(catalog).libraries@, library_path@) && !root_exists ==> {
            &&& r == Err::<(), ScanError>(ScanError::LibraryMissing)
            &&& final(catalog)@ == marked_missing(
                old(catalog)@,
                library_index(old(catalog).libraries@, library_path@),
            )
            &&& final(events)@ == old(events)@
        },
        has_library_path(old(catalog).libraries@, library_path@) && root_exists ==> {
            let out = scanned(
                old(catalog)@,
                library_index(old(catalog).libraries@, library_path@),
                fs@,
                probes@,
                *runner_id,
                cancelled,
            );
            &&& r == if cancelled {
                Err::<(), ScanError>(ScanError::Cancelled)
            } else {
                Ok::<(), ScanError>(())
            }
            &&& final(catalog)@ == out.0
            &&& final(events)@ == old(events)@ + out.1
        },
        old(catalog)@.wf() ==> final(catalog)@.wf(),
{
    let li = match catalog.library_by_path(library_path) {
        None => {
            return Err(ScanError::NotFound);
        },
        Some(li) => li,
    };
    proof {
        lemma_first_library_unique(catalog.libraries@, library_path@, li as int);
    }
    proof {
        if catalog@.wf() {
            lemma_scan_keeps_wf(catalog@, li as int, fs@, probes@, *runner_id, cancelled);
        }
    }
    if !root_exists {
        mark_library_missing(catalog, li);
        return Err(ScanError::LibraryMissing);
    }
    let ghost c0 = catalog@;
    let ghost ev0 = events@;
    let lib_id = catalog.libraries[li].id;
    let lib_path = catalog.libraries[li].path.clone();
    discover_series(catalog, lib_id, &lib_path, fs, events);
    let items = collect_walk(&catalog.series, lib_id, fs);
    events.push(Event::JobStarted {
        runner_id: runner_id.clone(),
        total_files: items.len(),
        library_path: lib_path.clone(),
    });
    walk_files(catalog, &items, fs, runner_id, probes, events);
    reconcile_media(catalog, lib_id, fs, &items);
    reconcile_series(catalog, lib_id, fs);
    catalog.libraries[li].status = FileStatus::Ready;
    events.push(Event::JobCompleted { runner_id: runner_id.clone(), cancelled });
    proof {
        let out = scanned(c0, li as int, fs@, probes@, *runner_id, cancelled);
        assert(catalog.libraries@ =~= out.0.libraries);
        assert(catalog@ == out.0);
        assert(events@ =~= ev0 + out.1);
    }
    if cancelled {
        Err(ScanError::Cancelled)
    } else {
        Ok(())
    }
}

/// `f` is an archive inside some directory of the library, not below a dot-directory, not
/// ignored, not a cover image, and not recorded yet: the scan will want its probe outcome.
pub open spec fn probe_wanted(lib_path: Seq<u8>, ms: Seq<Media>, f: FsEntry) -> bool {
    &&& !f.is_dir
    &&& is_under(lib_path, fs_path(f))
    &&& !is_child(lib_path, fs_path(f))
    &&& !hidden_below(lib_path, fs_path(f))
    &&& !ignored(fs_path(f), false)
    &&& !declarative_cover(fs_path(f))
    &&& !has_media_path(ms, f.path@)
}

/// Positions in `fs` of the archives to probe before scanning the library at `library_path`,
/// in walk order. A file already recorded at the same path is never among them.
pub fn files_to_probe(catalog: &Catalog, library_path: &String, fs: &Vec<FsEntry>) -> (r: Vec<usize>)
    ensures
        forall|i: int|
            0 <= i < r@.len() ==> #[trigger] r@[i] < fs@.len() && probe_wanted(
                utf8_of(library_path@),
                catalog.media@,
                fs@[r@[i] as int],
            ),
        forall|i: int, j: int| 0 <= i < j < r@.len() ==> r@[i] < r@[j],
        forall|j: int|
            0 <= j < fs@.len() && probe_wanted(utf8_of(library_path@), catalog.media@, #[trigger] fs@[j])
                ==> r@.contains(j as usize),
{
    let lp = library_path.as_str().as_bytes();
    let mut r: Vec<usize> = Vec::new();
    let mut j: usize = 0;
    while j < fs.len()
        invariant
            j <= fs@.len(),
            lp@ == utf8_of(library_path@),
            forall|i: int|
                0 <= i < r@.len() ==> #[trigger] r@[i] < j && probe_wanted(lp@, catalog.media@, fs@[r@[i] as int]),
            forall|a: int, b: int| 0 <= a < b < r@.len() ==> r@[a] < r@[b],
            forall|k: int|
                0 <= k < j && probe_wanted(lp@, catalog.media@, #[trigger] fs@[k]) ==> r@.contains(k as usize),
        decreases fs@.len() - j,
    {
        let f = &fs[j];
        let p = entry_bytes(f);
        let wanted = !f.is_dir && path_is_under(lp, p) && !path_is_child(lp, p) && !path_hidden_below(lp, p)
            && !ignored_path(p, false) && !cover_path(p) && !catalog.media_exists(&f.path);
        if wanted {
            let ghost r0 = r@;
            r.push(j);
            assert(r@[r@.len() - 1] == j);
            assert forall|k: int|
                0 <= k < j + 1 && probe_wanted(lp@, catalog.media@, #[trigger] fs@[k]) implies r@.contains(k as usize) by {
                if k < j {
                    let w = choose|w: int| 0 <= w < r0.len() && r0[w] == k as usize;
                    assert(r@[w] == k as usize);
                } else {
                    assert(r@[r@.len() - 1] == k as usize);
                }
            }
        }
        j = j + 1;
    }
    r
}

/// How many series are scanned at once when nothing is configured.
pub const DEFAULT_SCAN_WORKERS: usize = 4;

/// The number of series scanned at once: the configured bound (`DEFAULT_SCAN_WORKERS` when
/// none is), but never more than the processors.
pub fn worker_count(cpus: usize, configured: Option<usize>) -> (r: usize)
    ensures
        ({
            let w = match configured {
                Some(w) => w,
                None => DEFAULT_SCAN_WORKERS,
            };
            r == if cpus < w { cpus } else { w }
        }),
{
    let w = match configured {
        Some(w) => w,
        None => DEFAULT_SCAN_WORKERS,
    };
    if cpus < w {
        cpus
    } else {
        w
    }
}

} // verus!
