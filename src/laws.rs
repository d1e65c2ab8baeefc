//! Properties that hold of every scan and of every digest.
use vstd::prelude::*;
use crate::archive::{digest_of, digest_span, sum_sizes, ArchiveEntry, DIGEST_ENTRIES};
use crate::catalog::{CatalogView, FileStatus, Library};
use crate::catalog::{has_media_path, has_series_path, Media, Series};
use crate::path::utf8_of;
use crate::scanner::{
    dir_exists, discover, discovered, eligible, in_library, last_probe, marked_missing,
    reconciled_media, scan_items, scanned, seen, series_candidate, visit, walk,
    walk_items, walked_at, files_under, items_in_range, Event, FsEntry, ProbeOutcome,
};

verus! {

/// After a scan of a library whose directory exists, each series of the library is ready
/// exactly when its directory is in the snapshot, and missing otherwise.
pub proof fn lemma_series_ready_iff_present(
    c: CatalogView,
    li: int,
    fs: Seq<FsEntry>,
    probes: Seq<ProbeOutcome>,
    runner_id: String,
    cancelled: bool,
)
    requires
        0 <= li < c.libraries.len(),
    ensures
        ({
            let out = scanned(c, li, fs, probes, runner_id, cancelled).0;
            forall|k: int|
                0 <= k < out.series.len() && (#[trigger] out.series[k]).library_id == c.libraries[li].id
                    ==> (out.series[k].status == FileStatus::Ready <==> dir_exists(fs, out.series[k].path@))
                    && (out.series[k].status == FileStatus::Missing <==> !dir_exists(fs, out.series[k].path@))
        }),
{
}

/// After a scan of a library whose directory is gone, the library and each of its series are
/// missing.
pub proof fn lemma_missing_library_marks_series(c: CatalogView, li: int)
    requires
        0 <= li < c.libraries.len(),
    ensures
        ({
            let out = marked_missing(c, li);
            &&& out.libraries[li].status == FileStatus::Missing
            &&& forall|k: int|
                0 <= k < out.series.len() && (#[trigger] out.series[k]).library_id == c.libraries[li].id
                    ==> out.series[k].status == FileStatus::Missing
        }),
{
}

/// After a scan of a library whose directory exists, each media record of the library is
/// ready exactly when the walk found a file at its path, and missing otherwise.
pub proof fn lemma_media_ready_iff_found(
    c: CatalogView,
    li: int,
    fs: Seq<FsEntry>,
    probes: Seq<ProbeOutcome>,
    runner_id: String,
    cancelled: bool,
)
    requires
        0 <= li < c.libraries.len(),
    ensures
        ({
            let out = scanned(c, li, fs, probes, runner_id, cancelled).0;
            let ss = discovered(c, li, fs).0;
            let items = scan_items(c, li, fs);
            forall|k: int|
                0 <= k < out.media.len() && in_library(ss, c.libraries[li].id, (#[trigger] out.media[k]).series_id)
                    ==> (out.media[k].status == FileStatus::Ready <==> seen(ss, fs, items, out.media[k].path@))
                    && (out.media[k].status == FileStatus::Missing <==> !seen(ss, fs, items, out.media[k].path@))
        }),
{
}

/// The digest of an archive depends on its name and the bytes of its prefix alone: equal
/// inputs give equal digests.
pub proof fn lemma_digest_stable(name1: Seq<u8>, prefix1: Seq<u8>, name2: Seq<u8>, prefix2: Seq<u8>)
    requires
        name1 == name2,
        prefix1 == prefix2,
    ensures
        digest_of(name1, prefix1) == digest_of(name2, prefix2),
{
}

/// Two archives of at least six entries whose first six entries have the same sizes, and
/// whose files both hold those entries in full, have digest prefixes of the same length.
pub proof fn lemma_digest_span_first_entries(
    a: Seq<ArchiveEntry>,
    b: Seq<ArchiveEntry>,
    size_a: nat,
    size_b: nat,
)
    requires
        a.len() >= DIGEST_ENTRIES,
        b.len() >= DIGEST_ENTRIES,
        forall|i: int| 0 <= i < DIGEST_ENTRIES ==> (#[trigger] a[i]).size == b[i].size,
        sum_sizes(a.subrange(0, DIGEST_ENTRIES as int)) <= size_a,
        sum_sizes(b.subrange(0, DIGEST_ENTRIES as int)) <= size_b,
    ensures
        digest_span(a, size_a) == digest_span(b, size_b),
{
    lemma_sum_sizes_same(a.subrange(0, DIGEST_ENTRIES as int), b.subrange(0, DIGEST_ENTRIES as int));
}

proof fn lemma_sum_sizes_same(a: Seq<ArchiveEntry>, b: Seq<ArchiveEntry>)
    requires
        a.len() == b.len(),
        forall|i: int| 0 <= i < a.len() ==> (#[trigger] a[i]).size == b[i].size,
    ensures
        sum_sizes(a) == sum_sizes(b),
    decreases a.len(),
{
    if a.len() > 0 {
        lemma_sum_sizes_same(a.drop_last(), b.drop_last());
    }
}

/// Progress events carry counts that rise strictly, from 1, up to their total.
pub open spec fn progress_rises(evs: Seq<Event>, total: usize) -> bool {
    &&& forall|i: int|
        0 <= i < evs.len() && (#[trigger] evs[i]) is JobProgress ==> 1 <= evs[i]->JobProgress_current
            <= total && evs[i]->JobProgress_total == total
    &&& forall|i: int, j: int|
        0 <= i < j < evs.len() && (#[trigger] evs[i]) is JobProgress && (#[trigger] evs[j]) is JobProgress
            ==> evs[i]->JobProgress_current < evs[j]->JobProgress_current
}

proof fn lemma_visit_adds_no_progress(
    s: Series,
    f: FsEntry,
    ps: Seq<ProbeOutcome>,
    st: (Seq<Media>, u64, Seq<Event>),
)
    ensures
        ({
            let r = visit(s, f, ps, st).2;
            &&& st.2.len() <= r.len() <= st.2.len() + 2
            &&& r.subrange(0, st.2.len() as int) == st.2
            &&& forall|i: int| st.2.len() <= i < r.len() ==> !((#[trigger] r[i]) is JobProgress)
        }),
{
    let r = visit(s, f, ps, st).2;
    assert(r.subrange(0, st.2.len() as int) =~= st.2);
}

proof fn lemma_walk_progress(
    ss: Seq<Series>,
    fs: Seq<FsEntry>,
    items: Seq<(usize, usize)>,
    runner_id: String,
    ms: Seq<Media>,
    id: u64,
    ps: Seq<ProbeOutcome>,
    n: nat,
)
    requires
        n <= items.len() <= usize::MAX,
    ensures
        ({
            let evs = walk(ss, fs, items, runner_id, ms, id, ps, n).2;
            &&& progress_rises(evs, items.len() as usize)
            &&& forall|i: int| 0 <= i < evs.len() && (#[trigger] evs[i]) is JobProgress ==> evs[i]->JobProgress_current <= n
        }),
    decreases n,
{
    if n > 0 {
        lemma_walk_progress(ss, fs, items, runner_id, ms, id, ps, (n - 1) as nat);
        let prev = walk(ss, fs, items, runner_id, ms, id, ps, (n - 1) as nat);
        let f = fs[items[n - 1].1 as int];
        let st = visit(ss[items[n - 1].0 as int], f, ps, prev);
        lemma_visit_adds_no_progress(ss[items[n - 1].0 as int], f, ps, prev);
        let evs = walk(ss, fs, items, runner_id, ms, id, ps, n).2;
        assert(evs == st.2.push(Event::JobProgress { runner_id, current: n as usize, total: items.len() as usize, path: f.path }));
        assert forall|i: int| 0 <= i < st.2.len() && (#[trigger] st.2[i]) is JobProgress implies
            st.2[i] == prev.2[i] by {
            assert(st.2.subrange(0, prev.2.len() as int)[i] == st.2[i]);
        }
    }
}

proof fn lemma_discover_no_progress(
    lib_id: u64,
    lib_path: Seq<u8>,
    fs: Seq<FsEntry>,
    ss: Seq<Series>,
    id: u64,
    n: nat,
)
    ensures
        forall|i: int|
            0 <= i < discover(lib_id, lib_path, fs, ss, id, n).2.len() ==> !((#[trigger] discover(
                lib_id,
                lib_path,
                fs,
                ss,
                id,
                n,
            ).2[i]) is JobProgress),
    decreases n,
{
    if n > 0 {
        lemma_discover_no_progress(lib_id, lib_path, fs, ss, id, (n - 1) as nat);
    }
}

/// In the events of a scan, the progress counts rise strictly and never pass the total that
/// the scan announced.
pub proof fn lemma_progress_rises(
    c: CatalogView,
    li: int,
    fs: Seq<FsEntry>,
    probes: Seq<ProbeOutcome>,
    runner_id: String,
    cancelled: bool,
)
    requires
        0 <= li < c.libraries.len(),
        scan_items(c, li, fs).len() <= usize::MAX,
    ensures
        progress_rises(scanned(c, li, fs, probes, runner_id, cancelled).1, scan_items(c, li, fs).len() as usize),
{
    let lib = c.libraries[li];
    let d = discovered(c, li, fs);
    let items = scan_items(c, li, fs);
    let total = items.len() as usize;
    let w = walk(d.0, fs, items, runner_id, c.media, d.1, probes, items.len());
    lemma_walk_progress(d.0, fs, items, runner_id, c.media, d.1, probes, items.len());
    lemma_discover_no_progress(lib.id, crate::path::utf8_of(lib.path@), fs, c.series, c.next_id, fs.len());
    let start = Event::JobStarted { runner_id, total_files: total, library_path: lib.path };
    let done = Event::JobCompleted { runner_id, cancelled };
    let evs = scanned(c, li, fs, probes, runner_id, cancelled).1;
    let a = d.2.len() + 1;
    assert(evs == d.2 + seq![start] + w.2 + seq![done]);
    assert forall|i: int| 0 <= i < evs.len() && (#[trigger] evs[i]) is JobProgress implies a <= i < a + w.2.len()
        && evs[i] == w.2[i - a] by {
        if i < d.2.len() {
            assert(evs[i] == d.2[i]);
        } else if i < a {
            assert(evs[i] == start);
        } else if i >= a + w.2.len() {
            assert(evs[i] == done);
        } else {
            assert(evs[i] == w.2[i - a]);
        }
    }
    assert forall|i: int, j: int|
        0 <= i < j < evs.len() && (#[trigger] evs[i]) is JobProgress && (#[trigger] evs[j]) is JobProgress
            implies evs[i]->JobProgress_current < evs[j]->JobProgress_current by {
        assert(w.2[i - a] is JobProgress && w.2[j - a] is JobProgress);
    }
}

/// No event records a new series or a new media.
pub open spec fn creates_nothing(evs: Seq<Event>) -> bool {
    forall|i: int| 0 <= i < evs.len() ==> !((#[trigger] evs[i]) is SeriesCreated) && !(evs[i] is MediaCreated)
}

/// Every candidate directory among the first `n` entries is a recorded series, unless ids ran out.
pub open spec fn candidates_recorded(
    lib_path: Seq<u8>,
    fs: Seq<FsEntry>,
    ss: Seq<Series>,
    id: u64,
    n: nat,
) -> bool {
    forall|m: int|
        0 <= m < n && series_candidate(lib_path, fs, #[trigger] fs[m]) ==> has_series_path(ss, fs[m].path@)
            || id == u64::MAX
}

proof fn lemma_discover_grows(lib_id: u64, lib_path: Seq<u8>, fs: Seq<FsEntry>, ss: Seq<Series>, id: u64, n: nat)
    requires
        n <= fs.len(),
    ensures
        ({
            let d = discover(lib_id, lib_path, fs, ss, id, n);
            &&& candidates_recorded(lib_path, fs, d.0, d.1, n)
            &&& ss.len() <= d.0.len()
            &&& d.0.subrange(0, ss.len() as int) == ss
            &&& (id == u64::MAX ==> d.1 == u64::MAX)
        }),
    decreases n,
{
    if n > 0 {
        lemma_discover_grows(lib_id, lib_path, fs, ss, id, (n - 1) as nat);
        let prev = discover(lib_id, lib_path, fs, ss, id, (n - 1) as nat);
        let d = discover(lib_id, lib_path, fs, ss, id, n);
        assert forall|m: int|
            0 <= m < n && series_candidate(lib_path, fs, #[trigger] fs[m]) implies has_series_path(d.0, fs[m].path@)
                || d.1 == u64::MAX by {
            if m < n - 1 {
                if has_series_path(prev.0, fs[m].path@) {
                    let k = choose|k: int| 0 <= k < prev.0.len() && (#[trigger] prev.0[k]).path@ == fs[m].path@;
                    assert(d.0[k] == prev.0[k]);
                }
            } else {
                if !has_series_path(prev.0, fs[m].path@) && prev.1 < u64::MAX {
                    assert(d.0[prev.0.len() as int].path@ == fs[m].path@);
                }
            }
        }
        assert(d.0.subrange(0, ss.len() as int) =~= prev.0.subrange(0, ss.len() as int));
    }
}

proof fn lemma_discover_settled(lib_id: u64, lib_path: Seq<u8>, fs: Seq<FsEntry>, ss: Seq<Series>, id: u64, n: nat)
    requires
        n <= fs.len(),
        candidates_recorded(lib_path, fs, ss, id, fs.len()),
    ensures
        ({
            let d = discover(lib_id, lib_path, fs, ss, id, n);
            &&& d.0 == ss
            &&& d.1 == id
            &&& creates_nothing(d.2)
        }),
    decreases n,
{
    if n > 0 {
        lemma_discover_settled(lib_id, lib_path, fs, ss, id, (n - 1) as nat);
        let m = n - 1;
        assert(series_candidate(lib_path, fs, fs[m]) ==> has_series_path(ss, fs[m].path@) || id == u64::MAX);
    }
}

/// Every eligible walked file with a successful probe is recorded, unless ids ran out.
pub open spec fn probed_recorded(
    ss: Seq<Series>,
    fs: Seq<FsEntry>,
    items: Seq<(usize, usize)>,
    ps: Seq<ProbeOutcome>,
    ms: Seq<Media>,
    id: u64,
    n: nat,
) -> bool {
    forall|m: int|
        0 <= m < n && #[trigger] probed_ok(ss, fs, items, ps, m) ==> has_media_path(
            ms,
            fs[items[m].1 as int].path@,
        ) || id == u64::MAX
}

/// Item `m` is eligible and its file has a successful probe outcome.
pub open spec fn probed_ok(
    ss: Seq<Series>,
    fs: Seq<FsEntry>,
    items: Seq<(usize, usize)>,
    ps: Seq<ProbeOutcome>,
    m: int,
) -> bool {
    let f = fs[items[m].1 as int];
    let i = last_probe(ps, f.path@);
    &&& eligible(ss[items[m].0 as int], f)
    &&& i >= 0
    &&& ps[i].result is Ok
}

proof fn lemma_walk_grows(
    ss: Seq<Series>,
    fs: Seq<FsEntry>,
    items: Seq<(usize, usize)>,
    runner_id: String,
    ms: Seq<Media>,
    id: u64,
    ps: Seq<ProbeOutcome>,
    n: nat,
)
    requires
        n <= items.len(),
    ensures
        ({
            let w = walk(ss, fs, items, runner_id, ms, id, ps, n);
            &&& probed_recorded(ss, fs, items, ps, w.0, w.1, n)
            &&& (id == u64::MAX ==> w.1 == u64::MAX)
        }),
    decreases n,
{
    if n > 0 {
        lemma_walk_grows(ss, fs, items, runner_id, ms, id, ps, (n - 1) as nat);
        let prev = walk(ss, fs, items, runner_id, ms, id, ps, (n - 1) as nat);
        let w = walk(ss, fs, items, runner_id, ms, id, ps, n);
        assert forall|m: int| 0 <= m < n && #[trigger] probed_ok(ss, fs, items, ps, m) implies has_media_path(
            w.0,
            fs[items[m].1 as int].path@,
        ) || w.1 == u64::MAX by {
            let p = fs[items[m].1 as int].path@;
            if has_media_path(prev.0, p) {
                let k = choose|k: int| 0 <= k < prev.0.len() && (#[trigger] prev.0[k]).path@ == p;
                assert(w.0[k] == prev.0[k]);
            } else if m == n - 1 && prev.1 < u64::MAX {
                assert(w.0[prev.0.len() as int].path@ == p);
            }
        }
    }
}

proof fn lemma_walk_settled(
    ss: Seq<Series>,
    fs: Seq<FsEntry>,
    items: Seq<(usize, usize)>,
    runner_id: String,
    ms: Seq<Media>,
    id: u64,
    ps: Seq<ProbeOutcome>,
    n: nat,
)
    requires
        n <= items.len(),
        probed_recorded(ss, fs, items, ps, ms, id, items.len()),
    ensures
        ({
            let w = walk(ss, fs, items, runner_id, ms, id, ps, n);
            &&& w.0 == ms
            &&& w.1 == id
            &&& creates_nothing(w.2)
        }),
    decreases n,
{
    if n > 0 {
        lemma_walk_settled(ss, fs, items, runner_id, ms, id, ps, (n - 1) as nat);
        assert(probed_ok(ss, fs, items, ps, n - 1) ==> has_media_path(ms, fs[items[n - 1].1 as int].path@)
            || id == u64::MAX);
    }
}

/// Two series sequences that agree on library and path everywhere.
pub open spec fn same_places(a: Seq<Series>, b: Seq<Series>) -> bool {
    &&& a.len() == b.len()
    &&& forall|k: int|
        0 <= k < a.len() ==> (#[trigger] a[k]).library_id == b[k].library_id && a[k].path == b[k].path
            && a[k].id == b[k].id
}

proof fn lemma_walk_items_places(a: Seq<Series>, b: Seq<Series>, lib_id: u64, fs: Seq<FsEntry>)
    requires
        same_places(a, b),
    ensures
        walk_items(a, lib_id, fs) == walk_items(b, lib_id, fs),
    decreases a.len(),
{
    if a.len() > 0 {
        assert(a.last() == a[a.len() - 1]);
        assert(b.last() == b[b.len() - 1]);
        lemma_walk_items_places(a.drop_last(), b.drop_last(), lib_id, fs);
    }
}

proof fn lemma_walk_places(
    a: Seq<Series>,
    b: Seq<Series>,
    fs: Seq<FsEntry>,
    items: Seq<(usize, usize)>,
    runner_id: String,
    ms: Seq<Media>,
    id: u64,
    ps: Seq<ProbeOutcome>,
)
    requires
        same_places(a, b),
        items_in_range(items, a.len(), fs.len()),
    ensures
        probed_recorded(a, fs, items, ps, ms, id, items.len()) ==> probed_recorded(b, fs, items, ps, ms, id, items.len()),
        forall|p: Seq<char>| seen(a, fs, items, p) == seen(b, fs, items, p),
        forall|lib_id: u64, sid: u64| in_library(a, lib_id, sid) == in_library(b, lib_id, sid),
{
    assert forall|m: int| 0 <= m < items.len() implies eligible(
        a[(#[trigger] items[m]).0 as int],
        fs[items[m].1 as int],
    ) == eligible(b[items[m].0 as int], fs[items[m].1 as int]) by {
        assert(a[items[m].0 as int].path == b[items[m].0 as int].path);
    }
    assert forall|p: Seq<char>| seen(a, fs, items, p) == seen(b, fs, items, p) by {
        if seen(a, fs, items, p) {
            let n = choose|n: int| 0 <= n < items.len() && #[trigger] walked_at(a, fs, items, n, p);
            assert(walked_at(b, fs, items, n, p));
        }
        if seen(b, fs, items, p) {
            let n = choose|n: int| 0 <= n < items.len() && #[trigger] walked_at(b, fs, items, n, p);
            assert(walked_at(a, fs, items, n, p));
        }
    }
    assert forall|lib_id: u64, sid: u64| in_library(a, lib_id, sid) == in_library(b, lib_id, sid) by {
        if in_library(a, lib_id, sid) {
            let k = choose|k: int| 0 <= k < a.len() && (#[trigger] a[k]).id == sid && a[k].library_id == lib_id;
            assert(b[k].id == sid);
        }
        if in_library(b, lib_id, sid) {
            let k = choose|k: int| 0 <= k < b.len() && (#[trigger] b[k]).id == sid && b[k].library_id == lib_id;
            assert(a[k].id == sid);
        }
    }
    if probed_recorded(a, fs, items, ps, ms, id, items.len()) {
        assert forall|m: int| 0 <= m < items.len() && #[trigger] probed_ok(b, fs, items, ps, m) implies has_media_path(
            ms,
            fs[items[m].1 as int].path@,
        ) || id == u64::MAX by {
            assert(probed_ok(a, fs, items, ps, m));
        }
    }
}

proof fn lemma_files_under_in_range(k: usize, dir: Seq<u8>, fs: Seq<FsEntry>)
    ensures
        forall|n: int|
            0 <= n < files_under(k, dir, fs).len() ==> (#[trigger] files_under(k, dir, fs)[n]).0 == k
                && files_under(k, dir, fs)[n].1 < fs.len(),
    decreases fs.len(),
{
    if fs.len() > 0 {
        lemma_files_under_in_range(k, dir, fs.drop_last());
        let prev = files_under(k, dir, fs.drop_last());
        let all = files_under(k, dir, fs);
        assert forall|n: int| 0 <= n < all.len() implies (#[trigger] all[n]).0 == k && all[n].1 < fs.len() by {
            if n < prev.len() {
                assert(all[n] == prev[n]);
            }
        }
    }
}

proof fn lemma_walk_items_in_range(ss: Seq<Series>, lib_id: u64, fs: Seq<FsEntry>)
    ensures
        items_in_range(walk_items(ss, lib_id, fs), ss.len(), fs.len()),
    decreases ss.len(),
{
    if ss.len() > 0 {
        lemma_walk_items_in_range(ss.drop_last(), lib_id, fs);
        lemma_files_under_in_range((ss.len() - 1) as usize, utf8_of(ss.last().path@), fs);
        let prev = walk_items(ss.drop_last(), lib_id, fs);
        let all = walk_items(ss, lib_id, fs);
        assert forall|n: int| 0 <= n < all.len() implies (#[trigger] all[n]).0 < ss.len() && all[n].1 < fs.len() by {
            if n < prev.len() {
                assert(all[n] == prev[n]);
            } else {
                assert(all[n] == files_under((ss.len() - 1) as usize, utf8_of(ss.last().path@), fs)[n - prev.len()]);
            }
        }
    }
}

/// Scanning a library a second time, with the same snapshot and the same probe outcomes,
/// creates no series and no media and leaves the catalog exactly as the first scan left it.
pub proof fn lemma_rescan_changes_nothing(
    c: CatalogView,
    li: int,
    fs: Seq<FsEntry>,
    probes: Seq<ProbeOutcome>,
    runner1: String,
    cancelled1: bool,
    runner2: String,
    cancelled2: bool,
)
    requires
        0 <= li < c.libraries.len(),
    ensures
        ({
            let c1 = scanned(c, li, fs, probes, runner1, cancelled1).0;
            let again = scanned(c1, li, fs, probes, runner2, cancelled2);
            &&& again.0 == c1
            &&& creates_nothing(again.1)
        }),
{
    let lib = c.libraries[li];
    let lp = utf8_of(lib.path@);
    let d1 = discovered(c, li, fs);
    let items = scan_items(c, li, fs);
    let w1 = walk(d1.0, fs, items, runner1, c.media, d1.1, probes, items.len());
    let c1 = scanned(c, li, fs, probes, runner1, cancelled1).0;
    lemma_discover_grows(lib.id, lp, fs, c.series, c.next_id, fs.len());
    lemma_walk_grows(d1.0, fs, items, runner1, c.media, d1.1, probes, items.len());
    assert(c1.libraries[li] == Library { status: FileStatus::Ready, ..lib });
    assert(same_places(d1.0, c1.series));
    // discovery finds nothing new
    assert forall|m: int|
        0 <= m < fs.len() && series_candidate(lp, fs, #[trigger] fs[m]) implies has_series_path(c1.series, fs[m].path@)
            || c1.next_id == u64::MAX by {
        if has_series_path(d1.0, fs[m].path@) {
            let k = choose|k: int| 0 <= k < d1.0.len() && (#[trigger] d1.0[k]).path@ == fs[m].path@;
            assert(c1.series[k].path == d1.0[k].path);
        }
    }
    lemma_discover_settled(lib.id, lp, fs, c1.series, c1.next_id, fs.len());
    let d2 = discovered(c1, li, fs);
    assert(d2.0 == c1.series);
    // the walk covers the same files and records nothing new
    lemma_walk_items_places(d1.0, c1.series, lib.id, fs);
    let items2 = scan_items(c1, li, fs);
    assert(items2 == items);
    assert forall|m: int| 0 <= m < items.len() && #[trigger] probed_ok(d1.0, fs, items, probes, m) implies has_media_path(
        c1.media,
        fs[items[m].1 as int].path@,
    ) || c1.next_id == u64::MAX by {
        let p = fs[items[m].1 as int].path@;
        if has_media_path(w1.0, p) {
            let k = choose|k: int| 0 <= k < w1.0.len() && (#[trigger] w1.0[k]).path@ == p;
            assert(c1.media[k].path == w1.0[k].path);
        }
    }
    lemma_walk_items_in_range(d1.0, lib.id, fs);
    lemma_walk_places(d1.0, c1.series, fs, items, runner2, c1.media, c1.next_id, probes);
    lemma_walk_settled(c1.series, fs, items, runner2, c1.media, c1.next_id, probes, items.len());
    let again = scanned(c1, li, fs, probes, runner2, cancelled2);
    assert(again.0.libraries =~= c1.libraries);
    assert(again.0.series =~= c1.series);
    assert forall|k: int| 0 <= k < c1.media.len() implies #[trigger] again.0.media[k] == c1.media[k] by {
        let m = w1.0[k];
        assert(c1.media[k] == reconciled_media(d1.0, lib.id, fs, items, m));
    }
    assert(again.0.media =~= c1.media);
    let start = Event::JobStarted { runner_id: runner2, total_files: items.len() as usize, library_path: c1.libraries[li].path };
    let done = Event::JobCompleted { runner_id: runner2, cancelled: cancelled2 };
    let w2 = walk(d2.0, fs, items, runner2, c1.media, d2.1, probes, items.len());
    assert(again.1 == d2.2 + seq![start] + w2.2 + seq![done]);
    assert forall|i: int| 0 <= i < again.1.len() implies !((#[trigger] again.1[i]) is SeriesCreated)
        && !(again.1[i] is MediaCreated) by {
        let a = d2.2.len() + 1;
        if i < d2.2.len() {
            assert(again.1[i] == d2.2[i]);
        } else if i < a {
            assert(again.1[i] == start);
        } else if i < a + w2.2.len() {
            assert(again.1[i] == w2.2[i - a]);
        } else {
            assert(again.1[i] == done);
        }
    }
}

} // verus!
