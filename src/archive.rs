//! What the scanner decides from an archive's table of entries: its pages,
//! its metadata entry, the entry that serves a given page, and its digest.
use vstd::prelude::*;
use vstd::string::StringSliceAdditionalSpecFns;
use sha2::Digest;
use crate::catalog::{ComicInfo, ProcessedMedia};
use crate::path::{image_name, utf8_of};

verus! {

/// One entry of an archive's table, as the archive reports it.
pub struct ArchiveEntry {
    pub name: String,
    pub is_file: bool,
    /// Uncompressed size in bytes.
    pub size: u64,
}

/// Ways in which reading an archive fails.
#[derive(Clone, Copy, Debug, PartialEq, Eq, Structural)]
pub enum ArchiveError {
    /// The archive could not be opened or its entries enumerated.
    Corrupt,
    /// The archive holds no entry at all.
    Empty,
    /// No image stands at the requested page.
    NoImage,
    /// The file is of no supported kind.
    Unsupported,
}

pub open spec fn entry_name(e: ArchiveEntry) -> Seq<u8> {
    utf8_of(e.name@)
}

/// An entry counts as a page when it is a file whose name looks like an image.
pub open spec fn is_page(e: ArchiveEntry) -> bool {
    e.is_file && image_name(entry_name(e))
}

/// `ComicInfo.xml`, matched exactly.
pub open spec fn comic_info_name() -> Seq<u8> {
    seq![67u8, 111u8, 109u8, 105u8, 99u8, 73u8, 110u8, 102u8, 111u8, 46u8, 120u8, 109u8, 108u8]
}

/// The number of pages among the first `n` entries.
pub open spec fn pages_in(es: Seq<ArchiveEntry>) -> nat
    decreases es.len(),
{
    if es.len() == 0 {
        0
    } else {
        pages_in(es.drop_last()) + if is_page(es.last()) { 1nat } else { 0nat }
    }
}

/// `a` sorts strictly before `b` in byte order, as `str` compares.
pub open spec fn lex_lt(a: Seq<u8>, b: Seq<u8>) -> bool {
    exists|k: int| #[trigger] differs_first_at(a, b, k)
}

/// `a` and `b` agree before `k`, and at `k` either `a` ends while `b` goes on or `a` holds the
/// smaller byte.
pub open spec fn differs_first_at(a: Seq<u8>, b: Seq<u8>, k: int) -> bool {
    &&& 0 <= k <= a.len()
    &&& k <= b.len()
    &&& a.subrange(0, k) == b.subrange(0, k)
    &&& ((k == a.len() && k < b.len()) || (k < a.len() && k < b.len() && a[k] < b[k]))
}

/// How many pages have a name that sorts before `s`.
pub open spec fn pages_before(es: Seq<ArchiveEntry>, s: Seq<u8>) -> nat
    decreases es.len(),
{
    if es.len() == 0 {
        0
    } else {
        pages_before(es.drop_last(), s) + if is_page(es.last()) && lex_lt(entry_name(es.last()), s) {
            1nat
        } else {
            0nat
        }
    }
}

/// How many pages have a name that sorts before `s` or equals it.
pub open spec fn pages_through(es: Seq<ArchiveEntry>, s: Seq<u8>) -> nat
    decreases es.len(),
{
    if es.len() == 0 {
        0
    } else {
        pages_through(es.drop_last(), s) + if is_page(es.last()) && (lex_lt(entry_name(es.last()), s)
            || entry_name(es.last()) == s) {
            1nat
        } else {
            0nat
        }
    }
}

/// Entry `i` is the `page`-th image (from 1) once the entries are sorted by name.
pub open spec fn serves_page(es: Seq<ArchiveEntry>, i: int, page: nat) -> bool {
    &&& 0 <= i < es.len()
    &&& is_page(es[i])
    &&& pages_before(es, entry_name(es[i])) < page <= pages_through(es, entry_name(es[i]))
}

fn name_bytes(e: &ArchiveEntry) -> (r: &[u8])
    ensures
        r@ == entry_name(*e),
{
    e.name.as_str().as_bytes()
}

/// Whether `e` is a page.
pub fn entry_is_page(e: &ArchiveEntry) -> (r: bool)
    ensures
        r == is_page(*e),
{
    e.is_file && crate::path::is_image(e.name.as_str())
}

/// Byte-order comparison of two names.
fn less_than(a: &[u8], b: &[u8]) -> (r: bool)
    ensures
        r == lex_lt(a@, b@),
{
    let mut k: usize = 0;
    while k < a.len() && k < b.len() && a[k] == b[k]
        invariant
            k <= a@.len(),
            k <= b@.len(),
            a@.subrange(0, k as int) == b@.subrange(0, k as int),
        decreases a@.len() - k,
    {
        assert(a@.subrange(0, k + 1) == a@.subrange(0, k as int).push(a@[k as int]));
        assert(b@.subrange(0, k + 1) == b@.subrange(0, k as int).push(b@[k as int]));
        k = k + 1;
    }
    let r = if k < a.len() && k < b.len() {
        a[k] < b[k]
    } else {
        k == a.len() && k < b.len()
    };
    if r {
        assert(differs_first_at(a@, b@, k as int));
    } else {
        assert forall|j: int| !differs_first_at(a@, b@, j) by {
            if differs_first_at(a@, b@, j) {
                if j < k {
                    assert(a@[j] == a@.subrange(0, k as int)[j]);
                    assert(b@[j] == b@.subrange(0, k as int)[j]);
                } else if j > k {
                    assert(a@[k as int] == a@.subrange(0, j)[k as int]);
                    assert(b@[k as int] == b@.subrange(0, j)[k as int]);
                }
            }
        }
    }
    r
}

/// Position of the first entry named `ComicInfo.xml`.
pub open spec fn comic_info_at(es: Seq<ArchiveEntry>, i: int) -> bool {
    0 <= i < es.len() && entry_name(es[i]) == comic_info_name() && forall|j: int|
        0 <= j < i ==> entry_name(#[trigger] es[j]) != comic_info_name()
}

fn is_comic_info(b: &[u8]) -> (r: bool)
    ensures
        r == (b@ == comic_info_name()),
{
    let w: Vec<u8> = vec![67u8, 111, 109, 105, 99, 73, 110, 102, 111, 46, 120, 109, 108];
    assert(w@ == comic_info_name());
    if b.len() != w.len() {
        return false;
    }
    let mut k: usize = 0;
    while k < w.len()
        invariant
            b@.len() == w@.len(),
            w@ == comic_info_name(),
            k <= w@.len(),
            forall|j: int| 0 <= j < k ==> b@[j] == w@[j],
        decreases w@.len() - k,
    {
        if b[k] != w[k] {
            return false;
        }
        k = k + 1;
    }
    assert(b@ =~= w@);
    true
}

/// The entry that holds the metadata document, if any.
pub fn find_comic_info(entries: &Vec<ArchiveEntry>) -> (r: Option<usize>)
    ensures
        r matches Some(i) ==> comic_info_at(entries@, i as int),
        r is None ==> forall|j: int|
            0 <= j < entries@.len() ==> entry_name(#[trigger] entries@[j]) != comic_info_name(),
{
    let mut i: usize = 0;
    while i < entries.len()
        invariant
            i <= entries@.len(),
            forall|j: int| 0 <= j < i ==> entry_name(#[trigger] entries@[j]) != comic_info_name(),
        decreases entries@.len() - i,
    {
        if is_comic_info(name_bytes(&entries[i])) {
            return Some(i);
        }
        i = i + 1;
    }
    None
}

/// The number of pages of an archive: its entries that are image files.
pub fn count_pages(entries: &Vec<ArchiveEntry>) -> (r: u64)
    ensures
        r == pages_in(entries@),
{
    let mut n: u64 = 0;
    let mut i: usize = 0;
    while i < entries.len()
        invariant
            i <= entries@.len(),
            n == pages_in(entries@.subrange(0, i as int)),
            n <= i,
        decreases entries@.len() - i,
    {
        assert(entries@.subrange(0, i + 1).drop_last() == entries@.subrange(0, i as int));
        if entry_is_page(&entries[i]) {
            n = n + 1;
        }
        i = i + 1;
    }
    assert(entries@.subrange(0, entries@.len() as int) == entries@);
    n
}

/// What probing a zip archive yields: its pages counted from its entries, with the metadata
/// read from its `ComicInfo.xml` entry and its digest. An archive without entries is refused.
pub fn process_zip(
    entries: &Vec<ArchiveEntry>,
    metadata: Option<ComicInfo>,
    checksum: Option<[u8; 32]>,
) -> (r: Result<ProcessedMedia, ArchiveError>)
    ensures
        entries@.len() == 0 <==> r == Err::<ProcessedMedia, ArchiveError>(ArchiveError::Empty),
        r is Ok ==> (r->Ok_0).pages == pages_in(entries@) && (r->Ok_0).metadata == metadata
            && (r->Ok_0).checksum == checksum,
        r is Ok || r == Err::<ProcessedMedia, ArchiveError>(ArchiveError::Empty),
{
    if entries.len() == 0 {
        return Err(ArchiveError::Empty);
    }
    Ok(ProcessedMedia { checksum, metadata, pages: count_pages(entries) })
}

/// Pages before `s`, and pages before or equal to `s`, in one pass.
fn rank_of(entries: &Vec<ArchiveEntry>, s: &[u8]) -> (r: (usize, usize))
    ensures
        r.0 == pages_before(entries@, s@),
        r.1 == pages_through(entries@, s@),
{
    let mut lt: usize = 0;
    let mut le: usize = 0;
    let mut i: usize = 0;
    while i < entries.len()
        invariant
            i <= entries@.len(),
            lt == pages_before(entries@.subrange(0, i as int), s@),
            le == pages_through(entries@.subrange(0, i as int), s@),
            lt <= i,
            le <= i,
        decreases entries@.len() - i,
    {
        assert(entries@.subrange(0, i + 1).drop_last() == entries@.subrange(0, i as int));
        assert(entries@.subrange(0, i + 1).last() == entries@[i as int]);
        let e = &entries[i];
        if entry_is_page(e) {
            let nb = name_bytes(e);
            if less_than(nb, s) {
                lt = lt + 1;
                le = le + 1;
            } else if slices_equal(nb, s) {
                le = le + 1;
            }
        }
        i = i + 1;
    }
    assert(entries@.subrange(0, entries@.len() as int) == entries@);
    (lt, le)
}

fn slices_equal(a: &[u8], b: &[u8]) -> (r: bool)
    ensures
        r == (a@ == b@),
{
    if a.len() != b.len() {
        return false;
    }
    let mut k: usize = 0;
    while k < a.len()
        invariant
            a@.len() == b@.len(),
            k <= a@.len(),
            forall|j: int| 0 <= j < k ==> a@[j] == b@[j],
        decreases a@.len() - k,
    {
        if a[k] != b[k] {
            return false;
        }
        k = k + 1;
    }
    assert(a@ =~= b@);
    true
}

/// The entry that serves page `page` (from 1): the `page`-th image once the entries are sorted
/// by name.
pub fn get_zip_image(entries: &Vec<ArchiveEntry>, page: u64) -> (r: Result<usize, ArchiveError>)
    ensures
        r matches Ok(i) ==> serves_page(entries@, i as int, page as nat),
        r == Err::<usize, ArchiveError>(ArchiveError::Empty) <==> entries@.len() == 0,
        r == Err::<usize, ArchiveError>(ArchiveError::NoImage) <==> (entries@.len() > 0 && forall|i: int|
            !#[trigger] serves_page(entries@, i, page as nat)),
        r is Ok || r == Err::<usize, ArchiveError>(ArchiveError::Empty) || r == Err::<usize, ArchiveError>(
            ArchiveError::NoImage),
{
    if entries.len() == 0 {
        return Err(ArchiveError::Empty);
    }
    let mut i: usize = 0;
    while i < entries.len()
        invariant
            i <= entries@.len(),
            forall|j: int| 0 <= j < i ==> !#[trigger] serves_page(entries@, j, page as nat),
        decreases entries@.len() - i,
    {
        let e = &entries[i];
        if entry_is_page(e) {
            let (lt, le) = rank_of(entries, name_bytes(e));
            if (lt as u64) < page && page <= le as u64 {
                assert(serves_page(entries@, i as int, page as nat));
                return Ok(i);
            }
        }
        i = i + 1;
    }
    Err(ArchiveError::NoImage)
}

/// How many entries from the front decide the digest.
pub const DIGEST_ENTRIES: usize = 6;

pub open spec fn sum_sizes(es: Seq<ArchiveEntry>) -> nat
    decreases es.len(),
{
    if es.len() == 0 {
        0
    } else {
        sum_sizes(es.drop_last()) + es.last().size as nat
    }
}

/// How many bytes from the front of the file the digest covers: the uncompressed sizes of the
/// first six entries, or the whole file when there are fewer; never more than the file.
pub open spec fn digest_span(es: Seq<ArchiveEntry>, file_size: nat) -> nat {
    if es.len() < DIGEST_ENTRIES {
        file_size
    } else {
        let k = sum_sizes(es.subrange(0, DIGEST_ENTRIES as int));
        if k < file_size {
            k
        } else {
            file_size
        }
    }
}

/// The length of the file prefix that the digest covers.
pub fn digest_prefix_len(entries: &Vec<ArchiveEntry>, file_size: u64) -> (r: u64)
    ensures
        r == digest_span(entries@, file_size as nat),
{
    if entries.len() < DIGEST_ENTRIES {
        return file_size;
    }
    let mut k: u64 = 0;
    let mut i: usize = 0;
    while i < DIGEST_ENTRIES
        invariant
            i <= DIGEST_ENTRIES <= entries@.len(),
            k == sum_sizes(entries@.subrange(0, i as int)),
            k <= file_size,
        decreases DIGEST_ENTRIES - i,
    {
        assert(entries@.subrange(0, i + 1).drop_last() == entries@.subrange(0, i as int));
        let s = entries[i].size;
        if s >= file_size - k {
            proof {
                lemma_sum_sizes_grows(entries@.subrange(0, DIGEST_ENTRIES as int), i as int + 1);
                assert(entries@.subrange(0, DIGEST_ENTRIES as int).subrange(0, i + 1)
                    == entries@.subrange(0, i + 1));
            }
            return file_size;
        }
        k = k + s;
        i = i + 1;
    }
    k
}

proof fn lemma_sum_sizes_grows(es: Seq<ArchiveEntry>, n: int)
    requires
        0 <= n <= es.len(),
    ensures
        sum_sizes(es.subrange(0, n)) <= sum_sizes(es),
    decreases es.len() - n,
{
    if n < es.len() {
        lemma_sum_sizes_grows(es, n + 1);
        assert(es.subrange(0, n + 1).drop_last() == es.subrange(0, n));
    } else {
        assert(es.subrange(0, n) == es);
    }
}

/// SHA-256 of a byte string.
pub uninterp spec fn sha256_of(data: Seq<u8>) -> Seq<u8>;

/// Relies on sha2::Sha256::digest (through digest::Digest): the SHA-256 of the input, which
/// depends on the input alone.
#[verifier::external_body]
fn sha256(data: &Vec<u8>) -> (r: [u8; 32])
    ensures
        r@ == sha256_of(data@),
{
    sha2::Sha256::digest(data.as_slice()).into()
}

/// The digest of an archive: SHA-256 over its file name followed by the bytes of its prefix.
pub open spec fn digest_of(name: Seq<u8>, prefix: Seq<u8>) -> Seq<u8> {
    sha256_of(name + prefix)
}

/// Digests an archive from its base name and the first bytes of its file.
pub fn digest(name: &str, prefix: &[u8]) -> (r: [u8; 32])
    ensures
        r@ == digest_of(utf8_of(name@), prefix@),
{
    let nb = name.as_bytes();
    let mut data: Vec<u8> = Vec::new();
    let mut i: usize = 0;
    while i < nb.len()
        invariant
            i <= nb@.len(),
            data@ == nb@.subrange(0, i as int),
        decreases nb@.len() - i,
    {
        data.push(nb[i]);
        i = i + 1;
    }
    let mut j: usize = 0;
    while j < prefix.len()
        invariant
            j <= prefix@.len(),
            data@ == nb@ + prefix@.subrange(0, j as int),
        decreases prefix@.len() - j,
    {
        data.push(prefix[j]);
        j = j + 1;
    }
    assert(nb@.subrange(0, nb@.len() as int) == nb@);
    assert(prefix@.subrange(0, prefix@.len() as int) == prefix@);
    sha256(&data)
}

/// `pat` occurs in `s` at position `i`.
pub open spec fn occurs_at(s: Seq<u8>, pat: Seq<u8>, i: int) -> bool {
    0 <= i && i + pat.len() <= s.len() && s.subrange(i, i + pat.len()) == pat
}

/// `i` is the first position at or after `from` where `pat` occurs.
pub open spec fn first_at(s: Seq<u8>, pat: Seq<u8>, from: int, i: int) -> bool {
    &&& from <= i
    &&& occurs_at(s, pat, i)
    &&& forall|j: int| from <= j < i ==> !#[trigger] occurs_at(s, pat, j)
}

/// `<tag>`
pub open spec fn open_tag(tag: Seq<u8>) -> Seq<u8> {
    seq![60u8] + tag + seq![62u8]
}

/// `</tag>`
pub open spec fn close_tag(tag: Seq<u8>) -> Seq<u8> {
    seq![60u8, 47u8] + tag + seq![62u8]
}

fn occurs_at_exec(s: &[u8], pat: &Vec<u8>, i: usize) -> (r: bool)
    ensures
        r == occurs_at(s@, pat@, i as int),
{
    if i > s.len() || pat.len() > s.len() - i {
        return false;
    }
    let n = s.len();
    let mut k: usize = 0;
    while k < pat.len()
        invariant
            n == s@.len(),
            i + pat@.len() <= s@.len(),
            k <= pat@.len(),
            forall|j: int| 0 <= j < k ==> s@[i + j] == pat@[j],
        decreases pat@.len() - k,
    {
        if s[i + k] != pat[k] {
            assert(s@.subrange(i as int, i + pat@.len())[k as int] != pat@[k as int]);
            return false;
        }
        k = k + 1;
    }
    assert(s@.subrange(i as int, i + pat@.len()) =~= pat@);
    true
}

fn find_from(s: &[u8], pat: &Vec<u8>, from: usize) -> (r: Option<usize>)
    ensures
        r matches Some(i) ==> first_at(s@, pat@, from as int, i as int),
        r is None ==> forall|j: int| from <= j ==> !#[trigger] occurs_at(s@, pat@, j),
{
    let n = s.len();
    let mut i = from;
    while i < n
        invariant
            n == s@.len(),
            from <= i,
            forall|j: int| from <= j < i ==> !#[trigger] occurs_at(s@, pat@, j),
        decreases n - i,
    {
        if occurs_at_exec(s, pat, i) {
            return Some(i);
        }
        i = i + 1;
    }
    if i == n && occurs_at_exec(s, pat, n) {
        return Some(n);
    }
    assert forall|j: int| from <= j implies !#[trigger] occurs_at(s@, pat@, j) by {
        if j > i {
            assert(j + pat@.len() > s@.len());
        }
    }
    None
}

/// The first `<tag>` stands at `i`, and the first `</tag>` after it at `b`.
pub open spec fn element_at(xml: Seq<u8>, tag: Seq<u8>, i: int, b: int) -> bool {
    first_at(xml, open_tag(tag), 0, i) && first_at(xml, close_tag(tag), i + open_tag(tag).len(), b)
}

/// The byte range of the text of the first `<tag>...</tag>` element of a metadata document.
pub fn tag_text_range(xml: &[u8], tag: &[u8]) -> (r: Option<(usize, usize)>)
    ensures
        r is Some ==> exists|i: int|
            #[trigger] element_at(xml@, tag@, i, (r->0).1 as int) && (r->0).0 == i + open_tag(tag@).len(),
        r is None <==> forall|i: int, b: int| !#[trigger] element_at(xml@, tag@, i, b),
{
    let mut open: Vec<u8> = Vec::new();
    let mut close: Vec<u8> = Vec::new();
    open.push(60u8);
    close.push(60u8);
    close.push(47u8);
    let mut k: usize = 0;
    while k < tag.len()
        invariant
            k <= tag@.len(),
            open@ == seq![60u8] + tag@.subrange(0, k as int),
            close@ == seq![60u8, 47u8] + tag@.subrange(0, k as int),
        decreases tag@.len() - k,
    {
        open.push(tag[k]);
        close.push(tag[k]);
        k = k + 1;
    }
    open.push(62u8);
    close.push(62u8);
    assert(open@ =~= open_tag(tag@));
    assert(close@ =~= close_tag(tag@));
    match find_from(xml, &open, 0) {
        None => {
            assert forall|i: int, b: int| !#[trigger] element_at(xml@, tag@, i, b) by {
                if element_at(xml@, tag@, i, b) {
                    assert(!occurs_at(xml@, open_tag(tag@), i));
                }
            }
            None
        },
        Some(i) => {
            let n = xml.len();
            assert(i + open@.len() <= n);
            let a = i + open.len();
            match find_from(xml, &close, a) {
                None => {
                    assert forall|i2: int, b: int| !#[trigger] element_at(xml@, tag@, i2, b) by {
                        if element_at(xml@, tag@, i2, b) {
                            if i2 < i {
                                assert(!occurs_at(xml@, open_tag(tag@), i2));
                            } else if i2 > i {
                                assert(!occurs_at(xml@, open_tag(tag@), i as int));
                            } else {
                                assert(!occurs_at(xml@, close_tag(tag@), b));
                            }
                        }
                    }
                    None
                },
                Some(b) => {
                    assert(element_at(xml@, tag@, i as int, b as int));
                    assert(a == i + open_tag(tag@).len());
                    let r = Some((a, b));
                    assert(element_at(xml@, tag@, i as int, (r->0).1 as int) && (r->0).0 == i + open_tag(tag@).len());
                    r
                },
            }
        },
    }
}

} // verus!
