use stump::archive::{process_zip, ArchiveEntry, ArchiveError};
use stump::catalog::{Catalog, ComicInfo, FileStatus, ProcessedMedia};
use stump::scanner::{
    dir_has_media, files_to_probe, scan, worker_count, Event, FsEntry, ProbeOutcome, ScanError,
};

fn dir(path: &str) -> FsEntry {
    let name = path.rsplit('/').next().unwrap().to_string();
    FsEntry { path: path.to_string(), name, extension: String::new(), is_dir: true, size: 0, modified: 100 }
}

fn file(path: &str) -> FsEntry {
    let name = path.rsplit('/').next().unwrap().to_string();
    let extension = name.rsplit('.').next().unwrap_or("").to_string();
    FsEntry { path: path.to_string(), name, extension, is_dir: false, size: 2048, modified: 200 }
}

fn three_pages() -> ProcessedMedia {
    let es = vec![
        ArchiveEntry { name: "01.jpg".to_string(), is_file: true, size: 10 },
        ArchiveEntry { name: "02.jpg".to_string(), is_file: true, size: 10 },
        ArchiveEntry { name: "03.jpg".to_string(), is_file: true, size: 10 },
    ];
    process_zip(&es, None, Some([7u8; 32])).unwrap()
}

/// Probes every wanted file with the given outcome maker.
fn probe_all(c: &Catalog, lib: &str, fs: &Vec<FsEntry>, f: impl Fn(&str) -> Result<ProcessedMedia, ArchiveError>) -> Vec<ProbeOutcome> {
    files_to_probe(c, &lib.to_string(), fs)
        .into_iter()
        .map(|i| ProbeOutcome { path: fs[i].path.clone(), result: f(&fs[i].path) })
        .collect()
}

fn count<F: Fn(&Event) -> bool>(evs: &[Event], f: F) -> usize {
    evs.iter().filter(|e| f(e)).count()
}

fn series_created(e: &Event) -> bool {
    matches!(e, Event::SeriesCreated { .. })
}

fn media_created(e: &Event) -> bool {
    matches!(e, Event::MediaCreated { .. })
}

fn cold_fs() -> Vec<FsEntry> {
    vec![dir("/lib/S1"), file("/lib/S1/a.cbz"), dir("/lib/S2"), file("/lib/S2/b.cbz")]
}

fn run(c: &mut Catalog, fs: &Vec<FsEntry>, probes: &Vec<ProbeOutcome>) -> (Result<(), ScanError>, Vec<Event>) {
    let mut evs = Vec::new();
    let r = scan(c, &"/lib".to_string(), &"runner".to_string(), true, fs, probes, false, &mut evs);
    (r, evs)
}

fn cold_scan() -> (Catalog, Vec<Event>) {
    let mut c = Catalog::new();
    c.add_library("Comics".to_string(), "/lib".to_string()).unwrap();
    let fs = cold_fs();
    let probes = probe_all(&c, "/lib", &fs, |_| Ok(three_pages()));
    let (r, evs) = run(&mut c, &fs, &probes);
    assert_eq!(r, Ok(()));
    (c, evs)
}

#[test]
fn cold_scan_creates_series_and_media() {
    let (c, evs) = cold_scan();
    assert_eq!(count(&evs, series_created), 2);
    assert_eq!(count(&evs, media_created), 2);
    let started: Vec<usize> = evs
        .iter()
        .filter_map(|e| match e {
            Event::JobStarted { total_files, .. } => Some(*total_files),
            _ => None,
        })
        .collect();
    assert_eq!(started, vec![2]);
    assert_eq!(c.media.len(), 2);
    for m in &c.media {
        assert_eq!(m.pages, 3);
        assert_eq!(m.status, FileStatus::Ready);
        assert_eq!(m.checksum, Some([7u8; 32]));
    }
    let titles: Vec<&str> = c.series.iter().map(|s| s.title.as_str()).collect();
    assert_eq!(titles, vec!["S1", "S2"]);
    assert!(matches!(evs.last(), Some(Event::JobCompleted { cancelled: false, .. })));
}

#[test]
fn rescan_unchanged_creates_nothing() {
    let (mut c, _) = cold_scan();
    let fs = cold_fs();
    let probes = probe_all(&c, "/lib", &fs, |_| Ok(three_pages()));
    assert!(probes.is_empty());
    let before_ids: Vec<u64> = c.media.iter().map(|m| m.id).collect();
    let (r, evs) = run(&mut c, &fs, &probes);
    assert_eq!(r, Ok(()));
    assert_eq!(count(&evs, series_created), 0);
    assert_eq!(count(&evs, media_created), 0);
    assert!(c.series.iter().all(|s| s.status == FileStatus::Ready));
    assert!(c.media.iter().all(|m| m.status == FileStatus::Ready));
    assert_eq!(c.media.iter().map(|m| m.id).collect::<Vec<_>>(), before_ids);
}

#[test]
fn renamed_series() {
    let (mut c, _) = cold_scan();
    let fs = vec![dir("/lib/S1b"), file("/lib/S1b/a.cbz"), dir("/lib/S2"), file("/lib/S2/b.cbz")];
    let probes = probe_all(&c, "/lib", &fs, |_| Ok(three_pages()));
    assert_eq!(probes.len(), 1);
    let (r, evs) = run(&mut c, &fs, &probes);
    assert_eq!(r, Ok(()));
    assert_eq!(count(&evs, series_created), 1);
    assert_eq!(count(&evs, media_created), 1);
    let s1 = c.series.iter().find(|s| s.path == "/lib/S1").unwrap();
    assert_eq!(s1.status, FileStatus::Missing);
    let s1b = c.series.iter().find(|s| s.path == "/lib/S1b").unwrap();
    assert_eq!(s1b.status, FileStatus::Ready);
    let old = c.media.iter().find(|m| m.path == "/lib/S1/a.cbz").unwrap();
    assert_eq!(old.status, FileStatus::Missing);
    let new = c.media.iter().find(|m| m.path == "/lib/S1b/a.cbz").unwrap();
    assert_eq!(new.status, FileStatus::Ready);
    assert_eq!(new.series_id, s1b.id);
}

#[test]
fn corrupt_archive_is_logged() {
    let (mut c, _) = cold_scan();
    let mut fs = cold_fs();
    fs.push(file("/lib/S2/broken.cbz"));
    let probes = probe_all(&c, "/lib", &fs, |_| Err(ArchiveError::Corrupt));
    let (r, evs) = run(&mut c, &fs, &probes);
    assert_eq!(r, Ok(()));
    let errors: Vec<&Event> = evs.iter().filter(|e| matches!(e, Event::ErrorLogged { .. })).collect();
    assert_eq!(errors.len(), 1);
    assert!(matches!(errors[0], Event::ErrorLogged { error: ScanError::ArchiveCorrupt, path } if path == "/lib/S2/broken.cbz"));
    assert!(c.media.iter().all(|m| m.path != "/lib/S2/broken.cbz"));
    let s2 = c.series.iter().find(|s| s.path == "/lib/S2").unwrap();
    assert_eq!(s2.status, FileStatus::Ready);
}

#[test]
fn deleted_library() {
    let (mut c, _) = cold_scan();
    let mut evs = Vec::new();
    let r = scan(&mut c, &"/lib".to_string(), &"runner".to_string(), false, &vec![], &vec![], false, &mut evs);
    assert_eq!(r, Err(ScanError::LibraryMissing));
    assert!(evs.is_empty());
    assert_eq!(c.libraries[0].status, FileStatus::Missing);
    assert!(c.series.iter().all(|s| s.status == FileStatus::Missing));
}

#[test]
fn unknown_library() {
    let (mut c, _) = cold_scan();
    let mut evs = Vec::new();
    let r = scan(&mut c, &"/other".to_string(), &"runner".to_string(), true, &cold_fs(), &vec![], false, &mut evs);
    assert_eq!(r, Err(ScanError::NotFound));
    assert!(evs.is_empty());
    assert_eq!(c.series.len(), 2);
}

#[test]
fn cancelled_scan_keeps_progress() {
    let mut c = Catalog::new();
    c.add_library("Big".to_string(), "/lib".to_string()).unwrap();
    let mut fs = vec![dir("/lib/S")];
    for i in 0..1000 {
        fs.push(file(&format!("/lib/S/{:04}.cbz", i)));
    }
    let all = probe_all(&c, "/lib", &fs, |_| Ok(three_pages()));
    assert_eq!(all.len(), 1000);
    let first: Vec<ProbeOutcome> = all.into_iter().take(100).collect();
    let mut evs = Vec::new();
    let r = scan(&mut c, &"/lib".to_string(), &"runner".to_string(), true, &fs, &first, true, &mut evs);
    assert_eq!(r, Err(ScanError::Cancelled));
    assert_eq!(count(&evs, media_created), 100);
    assert!(matches!(evs.last(), Some(Event::JobCompleted { cancelled: true, .. })));
    let rest = probe_all(&c, "/lib", &fs, |_| Ok(three_pages()));
    assert_eq!(rest.len(), 900);
    assert!(rest.iter().all(|o| c.media.iter().all(|m| m.path != o.path)));
    let (r, evs) = run(&mut c, &fs, &rest);
    assert_eq!(r, Ok(()));
    assert_eq!(count(&evs, media_created), 900);
    assert_eq!(c.media.len(), 1000);
}

#[test]
fn empty_library_emits_only_start_and_completion() {
    let mut c = Catalog::new();
    c.add_library("Empty".to_string(), "/lib".to_string()).unwrap();
    let (r, evs) = run(&mut c, &vec![], &vec![]);
    assert_eq!(r, Ok(()));
    assert_eq!(evs.len(), 2);
    assert!(matches!(evs[0], Event::JobStarted { total_files: 0, .. }));
    assert!(matches!(evs[1], Event::JobCompleted { cancelled: false, .. }));
}

#[test]
fn series_of_ignored_files_is_not_created() {
    let mut c = Catalog::new();
    c.add_library("L".to_string(), "/lib".to_string()).unwrap();
    let fs = vec![dir("/lib/S3"), file("/lib/S3/readme.txt"), file("/lib/S3/.hidden.cbz")];
    assert!(!dir_has_media(&fs, "/lib/S3"));
    let (r, evs) = run(&mut c, &fs, &vec![]);
    assert_eq!(r, Ok(()));
    assert_eq!(count(&evs, series_created), 0);
    assert!(c.series.is_empty());
}

#[test]
fn dot_directories_are_ignored_at_any_depth() {
    let mut c = Catalog::new();
    c.add_library("L".to_string(), "/lib".to_string()).unwrap();
    let fs = vec![
        dir("/lib/.trash"),
        file("/lib/.trash/a.cbz"),
        dir("/lib/S1"),
        file("/lib/S1/a.cbz"),
        dir("/lib/S1/.git"),
        file("/lib/S1/.git/x.cbz"),
    ];
    let probes = probe_all(&c, "/lib", &fs, |_| Ok(three_pages()));
    assert_eq!(probes.len(), 1);
    assert_eq!(probes[0].path, "/lib/S1/a.cbz");
    let (r, evs) = run(&mut c, &fs, &probes);
    assert_eq!(r, Ok(()));
    assert_eq!(c.series.len(), 1);
    assert_eq!(c.series[0].path, "/lib/S1");
    assert_eq!(count(&evs, media_created), 1);
}

#[test]
fn metadata_only_archive_is_inserted() {
    let mut c = Catalog::new();
    c.add_library("L".to_string(), "/lib".to_string()).unwrap();
    let fs = vec![dir("/lib/S1"), file("/lib/S1/info.cbz")];
    let es = vec![ArchiveEntry { name: "ComicInfo.xml".to_string(), is_file: true, size: 50 }];
    let probes = probe_all(&c, "/lib", &fs, |_| {
        let mut info = empty_info();
        info.title = Some("Only metadata".to_string());
        process_zip(&es, Some(info), None)
    });
    let (r, evs) = run(&mut c, &fs, &probes);
    assert_eq!(r, Ok(()));
    assert_eq!(count(&evs, media_created), 1);
    assert!(evs.iter().any(|e| matches!(e, Event::ErrorLogged { error: ScanError::NoImage, path } if path == "/lib/S1/info.cbz")));
    assert_eq!(c.media.len(), 1);
    assert_eq!(c.media[0].pages, 0);
    assert_eq!(c.media[0].metadata.as_ref().unwrap().title.as_deref(), Some("Only metadata"));
}

fn empty_info() -> ComicInfo {
    ComicInfo {
        title: None,
        series: None,
        number: None,
        volume: None,
        summary: None,
        notes: None,
        page_count: None,
        writer: None,
        penciller: None,
        inker: None,
        colorist: None,
        letterer: None,
        editor: None,
        publisher: None,
        genre: None,
        tags: None,
        age_rating: None,
        language: None,
    }
}

#[test]
fn progress_counts_rise_to_total() {
    let mut c = Catalog::new();
    c.add_library("L".to_string(), "/lib".to_string()).unwrap();
    let fs = vec![
        dir("/lib/S1"),
        file("/lib/S1/a.cbz"),
        file("/lib/S1/cover.jpg"),
        file("/lib/S1/notes.txt"),
        dir("/lib/S2"),
        file("/lib/S2/b.cbz"),
    ];
    let probes = probe_all(&c, "/lib", &fs, |_| Ok(three_pages()));
    let (_, evs) = run(&mut c, &fs, &probes);
    let currents: Vec<(usize, usize)> = evs
        .iter()
        .filter_map(|e| match e {
            Event::JobProgress { current, total, .. } => Some((*current, *total)),
            _ => None,
        })
        .collect();
    assert_eq!(currents, vec![(1, 4), (2, 4), (3, 4), (4, 4)]);
}

#[test]
fn missing_media_comes_back() {
    let (mut c, _) = cold_scan();
    let fs = vec![dir("/lib/S1"), dir("/lib/S2"), file("/lib/S2/b.cbz")];
    let (_, _) = run(&mut c, &fs, &vec![]);
    let a = c.media.iter().find(|m| m.path == "/lib/S1/a.cbz").unwrap();
    assert_eq!(a.status, FileStatus::Missing);
    let s1 = c.series.iter().find(|s| s.path == "/lib/S1").unwrap();
    assert_eq!(s1.status, FileStatus::Ready);
    let (_, evs) = run(&mut c, &cold_fs(), &vec![]);
    assert_eq!(count(&evs, media_created), 0);
    assert!(c.media.iter().all(|m| m.status == FileStatus::Ready));
}

#[test]
fn failed_probe_without_outcome_is_skipped() {
    let mut c = Catalog::new();
    c.add_library("L".to_string(), "/lib".to_string()).unwrap();
    let (r, evs) = run(&mut c, &cold_fs(), &vec![]);
    assert_eq!(r, Ok(()));
    assert_eq!(count(&evs, series_created), 2);
    assert_eq!(count(&evs, media_created), 0);
    assert!(c.media.is_empty());
}

#[test]
fn empty_archive_error_is_logged() {
    let mut c = Catalog::new();
    c.add_library("L".to_string(), "/lib".to_string()).unwrap();
    let fs = cold_fs();
    let probes = probe_all(&c, "/lib", &fs, |p| if p.ends_with("a.cbz") { Err(ArchiveError::Empty) } else { Err(ArchiveError::NoImage) });
    let (_, evs) = run(&mut c, &fs, &probes);
    assert!(evs.iter().any(|e| matches!(e, Event::ErrorLogged { error: ScanError::ArchiveEmpty, .. })));
    assert!(evs.iter().any(|e| matches!(e, Event::ErrorLogged { error: ScanError::NoImage, .. })));
}

#[test]
fn duplicate_library_path_is_refused() {
    let mut c = Catalog::new();
    assert_eq!(c.add_library("A".to_string(), "/lib".to_string()), Some(1));
    assert_eq!(c.add_library("B".to_string(), "/lib".to_string()), None);
    assert_eq!(c.libraries.len(), 1);
}

#[test]
fn workers_bounded_by_processors() {
    assert_eq!(worker_count(8, None), 4);
    assert_eq!(worker_count(2, None), 2);
    assert_eq!(worker_count(16, Some(12)), 12);
    assert_eq!(worker_count(3, Some(12)), 3);
}
