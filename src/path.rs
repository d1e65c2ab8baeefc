//! Pure predicates on filesystem paths, stated over their UTF-8 bytes.
use vstd::prelude::*;
use vstd::string::StringSliceAdditionalSpecFns;

verus! {

pub const SLASH: u8 = 47;

pub const DOT: u8 = 46;

/// The bytes of a path as the operating system stores them.
pub open spec fn utf8_of(s: Seq<char>) -> Seq<u8> {
    vstd::utf8::encode_utf8(s)
}

/// Index of the last occurrence of `c` in `s`, or -1.
pub open spec fn last_index(s: Seq<u8>, c: u8) -> int
    decreases s.len(),
{
    if s.len() == 0 {
        -1
    } else if s.last() == c {
        s.len() - 1
    } else {
        last_index(s.drop_last(), c)
    }
}

/// The final component of a path.
pub open spec fn basename(p: Seq<u8>) -> Seq<u8> {
    p.subrange(last_index(p, SLASH) + 1, p.len() as int)
}

/// A file name has an extension when it holds a dot that is not its first byte.
pub open spec fn has_extension(n: Seq<u8>) -> bool {
    last_index(n, DOT) > 0
}

pub open spec fn extension_of(n: Seq<u8>) -> Seq<u8> {
    if has_extension(n) {
        n.subrange(last_index(n, DOT) + 1, n.len() as int)
    } else {
        Seq::empty()
    }
}

pub open spec fn stem_of(n: Seq<u8>) -> Seq<u8> {
    if has_extension(n) {
        n.subrange(0, last_index(n, DOT))
    } else {
        n
    }
}

pub open spec fn lower_byte(b: u8) -> u8 {
    if 65 <= b <= 90 {
        (b + 32) as u8
    } else {
        b
    }
}

/// ASCII lower case; other bytes are kept.
pub open spec fn lower(s: Seq<u8>) -> Seq<u8> {
    Seq::new(s.len(), |i: int| lower_byte(s[i]))
}

/// The lower-cased extension of the final component of a path.
pub open spec fn ext_lower(p: Seq<u8>) -> Seq<u8> {
    lower(extension_of(basename(p)))
}

#[derive(Clone, Copy, Debug, PartialEq, Eq, Structural)]
pub enum ContainerKind {
    Zip,
    Rar,
    Epub,
    Unsupported,
}

pub open spec fn kind_of_ext(e: Seq<u8>) -> ContainerKind {
    if e == seq![99u8, 98u8, 122u8] || e == seq![122u8, 105u8, 112u8] {
        ContainerKind::Zip
    } else if e == seq![99u8, 98u8, 114u8] || e == seq![114u8, 97u8, 114u8] {
        ContainerKind::Rar
    } else if e == seq![101u8, 112u8, 117u8, 98u8] {
        ContainerKind::Epub
    } else {
        ContainerKind::Unsupported
    }
}

/// `.cbz`/`.zip` is a zip archive, `.cbr`/`.rar` a rar archive, `.epub` an e-book, in any case.
pub open spec fn kind_of(p: Seq<u8>) -> ContainerKind {
    kind_of_ext(ext_lower(p))
}

/// Extensions whose guessed content type is jpeg, png, webp, svg, tiff or gif.
pub open spec fn image_ext(e: Seq<u8>) -> bool {
    ||| e == seq![106u8, 112u8, 103u8]
    ||| e == seq![106u8, 112u8, 101u8, 103u8]
    ||| e == seq![112u8, 110u8, 103u8]
    ||| e == seq![119u8, 101u8, 98u8, 112u8]
    ||| e == seq![115u8, 118u8, 103u8]
    ||| e == seq![116u8, 105u8, 102u8]
    ||| e == seq![116u8, 105u8, 102u8, 102u8]
    ||| e == seq![103u8, 105u8, 102u8]
}

pub open spec fn image_name(p: Seq<u8>) -> bool {
    image_ext(ext_lower(p))
}

/// `cover`, `folder` or `thumbnail`.
pub open spec fn cover_stem(s: Seq<u8>) -> bool {
    ||| s == seq![99u8, 111u8, 118u8, 101u8, 114u8]
    ||| s == seq![102u8, 111u8, 108u8, 100u8, 101u8, 114u8]
    ||| s == seq![116u8, 104u8, 117u8, 109u8, 98u8, 110u8, 97u8, 105u8, 108u8]
}

pub open spec fn declarative_cover(p: Seq<u8>) -> bool {
    cover_stem(lower(stem_of(basename(p)))) && image_name(p)
}

pub open spec fn dot_name(p: Seq<u8>) -> bool {
    basename(p).len() > 0 && basename(p)[0] == DOT
}

/// A directory, a dot-file or a file of an unsupported container kind is ignored.
pub open spec fn ignored(p: Seq<u8>, is_dir: bool) -> bool {
    is_dir || dot_name(p) || kind_of(p) == ContainerKind::Unsupported
}

/// Where the first component below `root` starts in a path under it.
pub open spec fn sep_end(root: Seq<u8>) -> int {
    if root.len() > 0 && root.last() == SLASH {
        root.len() as int
    } else {
        root.len() + 1int
    }
}

/// `p` lies strictly below the directory `root`.
pub open spec fn is_under(root: Seq<u8>, p: Seq<u8>) -> bool {
    &&& root.len() > 0
    &&& sep_end(root) < p.len()
    &&& p.subrange(0, root.len() as int) == root
    &&& (sep_end(root) == root.len() || p[root.len() as int] == SLASH)
}

/// `p` is an immediate child of the directory `root`.
pub open spec fn is_child(root: Seq<u8>, p: Seq<u8>) -> bool {
    &&& is_under(root, p)
    &&& forall|j: int| sep_end(root) <= j < p.len() ==> p[j] != SLASH
}

/// A component of `p` starts at `j` with a dot.
pub open spec fn dot_component_at(p: Seq<u8>, j: int) -> bool {
    p[j] == DOT && p[j - 1] == SLASH
}

/// Some component of `p` below `root` starts with a dot.
pub open spec fn hidden_below(root: Seq<u8>, p: Seq<u8>) -> bool {
    exists|j: int| sep_end(root) <= j < p.len() && #[trigger] dot_component_at(p, j)
}

/// Position after the last `c` in `s[..end]`, 0 when there is none.
fn after_last(s: &[u8], end: usize, c: u8) -> (r: usize)
    requires
        end <= s@.len(),
    ensures
        r == last_index(s@.subrange(0, end as int), c) + 1,
{
    let mut i = end;
    while i > 0
        invariant
            i <= end <= s@.len(),
            last_index(s@.subrange(0, end as int), c) == last_index(s@.subrange(0, i as int), c),
        decreases i,
    {
        if s[i - 1] == c {
            assert(s@.subrange(0, i as int).last() == c);
            return i;
        }
        assert(s@.subrange(0, i as int).drop_last() == s@.subrange(0, i - 1));
        i = i - 1;
    }
    i
}

proof fn lemma_last_index_bounds(s: Seq<u8>, c: u8)
    ensures
        -1 <= last_index(s, c) < s.len(),
        last_index(s, c) >= 0 ==> s[last_index(s, c)] == c,
    decreases s.len(),
{
    if s.len() > 0 && s.last() != c {
        lemma_last_index_bounds(s.drop_last(), c);
    }
}

/// Whether the ASCII-lower-cased bytes `s[lo..hi]` spell the word `w`.
fn lower_eq(s: &[u8], lo: usize, hi: usize, w: &Vec<u8>) -> (r: bool)
    requires
        lo <= hi <= s@.len(),
    ensures
        r == (lower(s@.subrange(lo as int, hi as int)) == w@),
{
    let ghost t = s@.subrange(lo as int, hi as int);
    if hi - lo != w.len() {
        assert(lower(t).len() != w@.len());
        return false;
    }
    let mut k: usize = 0;
    while k < w.len()
        invariant
            lo <= hi <= s@.len(),
            hi - lo == w@.len(),
            t == s@.subrange(lo as int, hi as int),
            k <= w@.len(),
            forall|j: int| 0 <= j < k ==> lower_byte(s@[lo + j]) == w@[j],
        decreases w@.len() - k,
    {
        let b = s[lo + k];
        let lb: u8 = if 65 <= b && b <= 90 { b + 32 } else { b };
        if lb != w[k] {
            assert(lower(t)[k as int] != w@[k as int]);
            return false;
        }
        k = k + 1;
    }
    assert(lower(t) =~= w@);
    true
}

/// Bounds of the final component and of its extension, as byte positions.
struct NameParts {
    start: usize,
    dot: usize,
}

fn name_parts(b: &[u8]) -> (r: NameParts)
    ensures
        r.start == last_index(b@, SLASH) + 1,
        basename(b@) == b@.subrange(r.start as int, b@.len() as int),
        r.dot == last_index(basename(b@), DOT) + 1,
        r.start + r.dot <= b.len(),
{
    let start = after_last(b, b.len(), SLASH);
    assert(b@.subrange(0, b@.len() as int) == b@);
    proof {
        lemma_last_index_bounds(b@, SLASH);
    }
    let n = b.len() - start;
    let mut i = n;
    let ghost name = basename(b@);
    assert(name.subrange(0, n as int) == name);
    while i > 0
        invariant
            start == last_index(b@, SLASH) + 1,
            name == basename(b@),
            i <= n,
            n == name.len(),
            name == b@.subrange(start as int, b@.len() as int),
            start + n == b.len(),
            last_index(name, DOT) == last_index(name.subrange(0, i as int), DOT),
        decreases i,
    {
        if b[start + i - 1] == DOT {
            assert(name.subrange(0, i as int).last() == DOT);
            return NameParts { start, dot: i };
        }
        assert(name.subrange(0, i as int).drop_last() == name.subrange(0, i - 1));
        i = i - 1;
    }
    assert(name.subrange(0, 0) =~= Seq::<u8>::empty());
    NameParts { start, dot: 0 }
}

/// Position range of the lower-cased extension: `ext_lower(b) == lower(b[lo..hi])`.
fn ext_range(b: &[u8]) -> (r: (usize, usize))
    ensures
        r.0 <= r.1 <= b@.len(),
        ext_lower(b@) == lower(b@.subrange(r.0 as int, r.1 as int)),
{
    let parts = name_parts(b);
    let ghost name = basename(b@);
    proof {
        lemma_last_index_bounds(name, DOT);
    }
    if parts.dot > 1 {
        assert(extension_of(name) =~= b@.subrange(parts.start + parts.dot, b@.len() as int));
        (parts.start + parts.dot, b.len())
    } else {
        assert(extension_of(name) =~= b@.subrange(b@.len() as int, b@.len() as int));
        (b.len(), b.len())
    }
}

fn kind_of_bytes(b: &[u8]) -> (r: ContainerKind)
    ensures
        r == kind_of(b@),
{
    let (lo, hi) = ext_range(b);
    if lower_eq(b, lo, hi, &vec![99u8, 98, 122]) || lower_eq(b, lo, hi, &vec![122u8, 105, 112]) {
        ContainerKind::Zip
    } else if lower_eq(b, lo, hi, &vec![99u8, 98, 114]) || lower_eq(b, lo, hi, &vec![114u8, 97, 114]) {
        ContainerKind::Rar
    } else if lower_eq(b, lo, hi, &vec![101u8, 112, 117, 98]) {
        ContainerKind::Epub
    } else {
        ContainerKind::Unsupported
    }
}

/// The archive kind that a path names, from its lower-cased extension.
pub fn container_kind(path: &str) -> (r: ContainerKind)
    ensures
        r == kind_of(utf8_of(path@)),
{
    kind_of_bytes(path.as_bytes())
}

fn image_bytes(b: &[u8]) -> (r: bool)
    ensures
        r == image_name(b@),
{
    let (lo, hi) = ext_range(b);
    lower_eq(b, lo, hi, &vec![106u8, 112, 103]) || lower_eq(b, lo, hi, &vec![106u8, 112, 101, 103])
        || lower_eq(b, lo, hi, &vec![112u8, 110, 103]) || lower_eq(b, lo, hi, &vec![119u8, 101, 98, 112])
        || lower_eq(b, lo, hi, &vec![115u8, 118, 103]) || lower_eq(b, lo, hi, &vec![116u8, 105, 102])
        || lower_eq(b, lo, hi, &vec![116u8, 105, 102, 102]) || lower_eq(b, lo, hi, &vec![103u8, 105, 102])
}

/// Whether a name (of a file or of an archive entry) looks like an image.
pub fn is_image(name: &str) -> (r: bool)
    ensures
        r == image_name(utf8_of(name@)),
{
    image_bytes(name.as_bytes())
}

/// Whether a path names a cover image placed beside the archives (`cover.jpg`, `Folder.png`).
pub fn is_declarative_cover(path: &str) -> (r: bool)
    ensures
        r == declarative_cover(utf8_of(path@)),
{
    cover_bytes(path.as_bytes())
}

fn cover_bytes(b: &[u8]) -> (r: bool)
    ensures
        r == declarative_cover(b@),
{
    let parts = name_parts(b);
    let ghost name = basename(b@);
    proof {
        lemma_last_index_bounds(name, DOT);
    }
    let stem_end = if parts.dot > 1 {
        parts.start + parts.dot - 1
    } else {
        b.len()
    };
    assert(stem_of(name) =~= b@.subrange(parts.start as int, stem_end as int));
    let lo = parts.start;
    let stem = lower_eq(b, lo, stem_end, &vec![99u8, 111, 118, 101, 114])
        || lower_eq(b, lo, stem_end, &vec![102u8, 111, 108, 100, 101, 114])
        || lower_eq(b, lo, stem_end, &vec![116u8, 104, 117, 109, 98, 110, 97, 105, 108]);
    stem && image_bytes(b)
}

fn ignored_bytes(b: &[u8], is_dir: bool) -> (r: bool)
    ensures
        r == ignored(b@, is_dir),
{
    if is_dir {
        return true;
    }
    let parts = name_parts(b);
    if parts.start < b.len() && b[parts.start] == DOT {
        return true;
    }
    kind_of_bytes(b) == ContainerKind::Unsupported
}

/// Whether the scanner passes over a path: a directory, a dot-file, or an unsupported kind.
pub fn should_ignore(path: &str, is_dir: bool) -> (r: bool)
    ensures
        r == ignored(utf8_of(path@), is_dir),
{
    ignored_bytes(path.as_bytes(), is_dir)
}


fn sep_end_exec(root: &[u8]) -> (r: usize)
    requires
        root@.len() < usize::MAX,
    ensures
        r == sep_end(root@),
{
    if root.len() > 0 && root[root.len() - 1] == SLASH {
        root.len()
    } else {
        root.len() + 1
    }
}

/// Whether the path `p` lies strictly below the directory `root`.
pub fn path_is_under(root: &[u8], p: &[u8]) -> (r: bool)
    ensures
        r == is_under(root@, p@),
{
    if root.len() == 0 || root.len() >= p.len() {
        return false;
    }
    let se = sep_end_exec(root);
    if se >= p.len() {
        return false;
    }
    let mut k: usize = 0;
    while k < root.len()
        invariant
            root@.len() < p@.len(),
            k <= root@.len(),
            forall|j: int| 0 <= j < k ==> root@[j] == p@[j],
        decreases root@.len() - k,
    {
        if root[k] != p[k] {
            assert(p@.subrange(0, root@.len() as int)[k as int] != root@[k as int]);
            return false;
        }
        k = k + 1;
    }
    assert(p@.subrange(0, root@.len() as int) =~= root@);
    se == root.len() || p[root.len()] == SLASH
}

/// Whether the path `p` is an immediate child of the directory `root`.
pub fn path_is_child(root: &[u8], p: &[u8]) -> (r: bool)
    ensures
        r == is_child(root@, p@),
{
    if !path_is_under(root, p) || root.len() >= p.len() {
        return false;
    }
    let se = sep_end_exec(root);
    let mut j = se;
    while j < p.len()
        invariant
            se == sep_end(root@),
            se <= j <= p@.len(),
            forall|i: int| se <= i < j ==> p@[i] != SLASH,
        decreases p@.len() - j,
    {
        if p[j] == SLASH {
            return false;
        }
        j = j + 1;
    }
    true
}

/// Whether some component of `p` below `root` starts with a dot.
pub fn path_hidden_below(root: &[u8], p: &[u8]) -> (r: bool)
    requires
        root@.len() < p@.len(),
    ensures
        r == hidden_below(root@, p@),
{
    assert(root@.len() < p.len());
    let se = sep_end_exec(root);
    let mut j = se;
    while j < p.len()
        invariant
            se == sep_end(root@),
            1 <= se <= j,
            forall|i: int| se <= i < j ==> !#[trigger] dot_component_at(p@, i),
        decreases p@.len() - j,
    {
        if p[j] == DOT && p[j - 1] == SLASH {
            assert(dot_component_at(p@, j as int));
            return true;
        }
        j = j + 1;
    }
    false
}

/// Whether the final component of a path starts with a dot.
pub fn path_dot_name(p: &[u8]) -> (r: bool)
    ensures
        r == dot_name(p@),
{
    let parts = name_parts(p);
    parts.start < p.len() && p[parts.start] == DOT
}

pub fn ignored_path(p: &[u8], is_dir: bool) -> (r: bool)
    ensures
        r == ignored(p@, is_dir),
{
    ignored_bytes(p, is_dir)
}

pub fn cover_path(p: &[u8]) -> (r: bool)
    ensures
        r == declarative_cover(p@),
{
    cover_bytes(p)
}

pub fn kind_of_path(p: &[u8]) -> (r: ContainerKind)
    ensures
        r == kind_of(p@),
{
    kind_of_bytes(p)
}

/// Something the scanner may pass over.
pub trait IgnoredFile {
    spec fn ignored_spec(&self) -> bool;

    /// Whether the scanner passes over it.
    fn should_ignore(&self) -> (r: bool)
        ensures
            r == self.ignored_spec(),
    ;
}

/// `base` and `rest` joined by a slash, with no second slash when `base` ends in one.
pub open spec fn joined(base: Seq<char>, rest: Seq<char>) -> Seq<char> {
    if base.len() > 0 && base.last() == '/' {
        base + rest
    } else {
        base + seq!['/'] + rest
    }
}

proof fn lemma_utf8_concat(a: Seq<char>, b: Seq<char>)
    ensures
        utf8_of(a + b) == utf8_of(a) + utf8_of(b),
    decreases a.len(),
{
    if a.len() == 0 {
        assert(a + b =~= b);
    } else {
        lemma_utf8_concat(a.drop_first(), b);
        assert((a + b).drop_first() =~= a.drop_first() + b);
        assert((a + b)[0] == a[0]);
    }
}

proof fn lemma_utf8_last_slash(s: Seq<char>)
    ensures
        (utf8_of(s).len() > 0 && utf8_of(s).last() == SLASH) <==> (s.len() > 0 && s.last() == '/'),
    decreases s.len(),
{
    if s.len() > 0 {
        let init = s.drop_last();
        assert(init + seq![s.last()] =~= s);
        lemma_utf8_concat(init, seq![s.last()]);
        assert(seq![s.last()].drop_first() =~= Seq::<char>::empty());
        let c = s.last() as u32;
        let e = vstd::utf8::encode_scalar(c);
        assert(utf8_of(seq![s.last()]) == e + utf8_of(Seq::<char>::empty()));
        assert(utf8_of(s) =~= utf8_of(init) + e);
        vstd::utf8::char_is_scalar(s.last());
        assert(c <= 0x7F ==> (((c & 0x7F) as u8 == 47) <==> c == 47)) by (bit_vector);
        assert((0x80u8 | (c & 0x3F) as u8) != 47) by (bit_vector);
        vstd::utf8::char_u32_cast(s.last(), c);
        assert(e.len() > 0 && e.last() == SLASH <==> c == 47);
    }
}

/// Joins a directory path and a name with exactly one slash between them.
pub fn join_path(base: &str, rest: &str) -> (r: String)
    ensures
        r@ == joined(base@, rest@),
{
    let b = base.as_bytes();
    let mut path = base.to_string();
    proof {
        vstd::string::to_string_from_display_ensures_for_str(base, path);
        lemma_utf8_last_slash(base@);
        reveal_strlit("/");
    }
    assert(path@ == base@);
    assert(b@ == utf8_of(base@));
    if !(b.len() > 0 && b[b.len() - 1] == SLASH) {
        path.append("/");
    }
    path.append(rest);
    path
}

} // verus!
