//! Archive extraction, planned rather than performed.
//!
//! The archive's entries are decoded through the zip crate; everything
//! decided about them — how entry names are sanitized, where each entry
//! lands, when the archive is first copied beside its target and when
//! that copy is removed again — is verified here.  The outcome is a
//! sequence of filesystem steps that a thin outer layer carries out in
//! order.

use vstd::prelude::*;
use vstd::string::*;
use vstd::slice::*;
use crate::errors::InstallError;
use crate::text::{chars_to_string, find_char, find_pos, lemma_assoc, str_chars, str_eq};

verus! {

/// One entry of an archive, decoded into plain values.
pub struct ZipEntry {
    /// The entry's stored name; a trailing `/` marks a directory.
    pub name: String,
    /// The entry's decompressed contents; empty for a directory.
    pub data: Vec<u8>,
    /// The entry's stored POSIX permission bits, where the archive has
    /// them.
    pub unix_mode: Option<u32>,
}

impl View for ZipEntry {
    type V = (Seq<char>, Seq<u8>, Option<u32>);

    open spec fn view(&self) -> (Seq<char>, Seq<u8>, Option<u32>) {
        (self.name@, self.data@, self.unix_mode)
    }
}

/// The views of a sequence of decoded entries, in order.
pub open spec fn zip_views(s: Seq<ZipEntry>) -> Seq<(Seq<char>, Seq<u8>, Option<u32>)> {
    Seq::new(s.len(), |i: int| s[i]@)
}

#[verifier::external_type_specification]
#[verifier::external_body]
#[verifier::reject_recursive_types(R)]
pub struct ExZipArchive<R>(zip::read::ZipArchive<R>);

#[verifier::external_type_specification]
#[verifier::external_body]
#[verifier::reject_recursive_types(T)]
pub struct ExCursor<T>(std::io::Cursor<T>);

#[verifier::external_type_specification]
#[verifier::external_body]
pub struct ExZipError(zip::result::ZipError);

/// The entries a zip archive holds, as (name, contents, mode) triples
/// in archive order: a function of the archive's bytes alone.
pub uninterp spec fn zip_entries(bytes: Seq<u8>) -> Seq<(Seq<char>, Seq<u8>, Option<u32>)>;

/// The archive held in `bytes` decodes in full: the central directory
/// parses, and every entry's contents decompress under its declared,
/// supported method.  A function of the bytes alone.
pub uninterp spec fn zip_wf(bytes: Seq<u8>) -> bool;

/// What an opened archive holds, as (name, contents, mode) triples in
/// archive order.
pub uninterp spec fn archive_entries(
    archive: zip::read::ZipArchive<std::io::Cursor<Vec<u8>>>,
) -> Seq<(Seq<char>, Seq<u8>, Option<u32>)>;

/// Every entry of the opened archive decodes in full.
pub uninterp spec fn archive_wf(archive: zip::read::ZipArchive<std::io::Cursor<Vec<u8>>>) -> bool;

/// The single entry `i` of the opened archive decodes in full.
pub uninterp spec fn entry_wf(
    archive: zip::read::ZipArchive<std::io::Cursor<Vec<u8>>>,
    i: int,
) -> bool;

/// Relies on reading which variant of `zip::result::ZipError` stands
/// before it, and nothing else.
#[verifier::external_body]
fn zip_error_kind(e: zip::result::ZipError) -> (r: InstallError)
    ensures
        r == InstallError::Filesystem || r == InstallError::NotFound || r
            == InstallError::Malformed,
{
    match e {
        zip::result::ZipError::Io(_) => InstallError::Filesystem,
        zip::result::ZipError::FileNotFound => InstallError::NotFound,
        _ => InstallError::Malformed,
    }
}

/// Relies on `zip::ZipArchive::new`: reading the central directory of
/// the archive held in `bytes` is deterministic in the bytes alone; it
/// succeeds whenever the whole archive decodes, and the entries of the
/// opened archive are the entries of the bytes.
#[verifier::external_body]
fn archive_open(bytes: Vec<u8>) -> (r: Result<
    zip::read::ZipArchive<std::io::Cursor<Vec<u8>>>,
    InstallError,
>)
    ensures
        zip_wf(bytes@) ==> r is Ok,
        r is Ok ==> archive_entries(r.unwrap()) == zip_entries(bytes@),
        r is Ok ==> (archive_wf(r.unwrap()) <==> zip_wf(bytes@)),
        r is Ok ==> (archive_wf(r.unwrap()) <==> (forall|k: int|
            0 <= k < archive_entries(r.unwrap()).len() ==> #[trigger] entry_wf(r.unwrap(), k))),
{
    match zip::read::ZipArchive::new(std::io::Cursor::new(bytes)) {
        Ok(archive) => Ok(archive),
        Err(e) => Err(zip_error_kind(e)),
    }
}

/// Relies on `zip::ZipArchive::len`: the number of entries.
#[verifier::external_body]
fn archive_len(archive: &zip::read::ZipArchive<std::io::Cursor<Vec<u8>>>) -> (r: usize)
    ensures
        r == archive_entries(*archive).len(),
{
    archive.len()
}

/// Relies on `zip::ZipArchive::by_index_decrypt` (with an empty
/// password, so an encryption marker yields the `InvalidPassword`
/// value instead of the panic inside `by_index`), on the entry
/// accessors `name`, `compression` and `unix_mode`, and on
/// `Read::read_to_end`: together they hand out the stored name,
/// permission bits and decompressed contents of the entry, succeed
/// exactly when the entry decodes, and leave the archive's entries as
/// they were.  The compression check keeps out the methods whose
/// readers the zip crate builds with a panic on failure.
#[verifier::external_body]
fn archive_entry(
    archive: &mut zip::read::ZipArchive<std::io::Cursor<Vec<u8>>>,
    i: usize,
) -> (r: Result<ZipEntry, InstallError>)
    requires
        i < archive_entries(*old(archive)).len(),
    ensures
        archive_entries(*final(archive)) == archive_entries(*old(archive)),
        archive_wf(*final(archive)) == archive_wf(*old(archive)),
        forall|k: int| #[trigger] entry_wf(*final(archive), k) == entry_wf(*old(archive), k),
        r is Ok <==> entry_wf(*old(archive), i as int),
        r is Ok ==> r.unwrap()@ == archive_entries(*old(archive))[i as int],
{
    let mut file = match archive.by_index_decrypt(i, b"") {
        Ok(Ok(f)) => f,
        Ok(Err(_)) => return Err(InstallError::Malformed),
        Err(e) => return Err(zip_error_kind(e)),
    };
    let supported = matches!(file.compression(), zip::CompressionMethod::Stored | zip::CompressionMethod::Deflated | zip::CompressionMethod::Bzip2 | zip::CompressionMethod::Zstd);
    if !supported { return Err(InstallError::Malformed); }
    let name = file.name().to_string();
    let unix_mode = file.unix_mode();
    let mut data = Vec::new();
    if std::io::Read::read_to_end(&mut file, &mut data).is_err() {
        return Err(InstallError::Malformed);
    }
    Ok(ZipEntry { name, data, unix_mode })
}

/// Decodes every entry of the archive held in `bytes`, in order:
/// exactly the archives that decode in full yield `Ok`, and an
/// undecodable archive surfaces its failure.
#[verifier::loop_isolation(false)]
pub fn read_archive(bytes: Vec<u8>) -> (r: Result<Vec<ZipEntry>, InstallError>)
    ensures
        r is Ok <==> zip_wf(bytes@),
        r is Ok ==> zip_views(r.unwrap()@) == zip_entries(bytes@),
{
    let ghost all = zip_entries(bytes@);
    let ghost wf = zip_wf(bytes@);
    let mut archive = match archive_open(bytes) {
        Ok(a) => a,
        Err(e) => {
            return Err(e);
        },
    };
    let n = archive_len(&archive);
    let mut out: Vec<ZipEntry> = Vec::new();
    let mut i: usize = 0;
    while i < n
        invariant
            archive_entries(archive) == all,
            n == all.len(),
            i <= n,
            archive_wf(archive) <==> wf,
            archive_wf(archive) <==> (forall|k: int|
                0 <= k < n ==> #[trigger] entry_wf(archive, k)),
            forall|k: int| 0 <= k < i ==> #[trigger] entry_wf(archive, k),
            out@.len() == i,
            forall|k: int| 0 <= k < i ==> out@[k]@ == all[k],
        decreases n - i,
    {
        let ghost before = archive;
        let entry = match archive_entry(&mut archive, i) {
            Ok(e) => e,
            Err(e) => {
                proof {
                    assert(!entry_wf(before, i as int));
                    if archive_wf(before) {
                        assert(entry_wf(before, i as int));
                    }
                    assert(!archive_wf(before));
                    assert(!wf);
                }
                return Err(e);
            },
        };
        proof {
            assert forall|k: int| 0 <= k < n implies #[trigger] entry_wf(archive, k)
                == entry_wf(before, k) by {}
            if archive_wf(archive) {
                assert(archive_wf(before));
                assert forall|k: int| 0 <= k < n implies #[trigger] entry_wf(archive, k) by {
                    assert(entry_wf(before, k));
                }
            }
            if forall|k: int| 0 <= k < n ==> #[trigger] entry_wf(archive, k) {
                assert forall|k: int| 0 <= k < n implies #[trigger] entry_wf(before, k) by {
                    assert(entry_wf(archive, k));
                }
                assert(archive_wf(before));
                assert(archive_wf(archive));
            }
            assert(entry_wf(before, i as int));
            assert forall|k: int| 0 <= k < i + 1 implies #[trigger] entry_wf(archive, k) by {
                if k < i {
                    assert(entry_wf(before, k));
                } else {
                    assert(entry_wf(before, i as int));
                }
            }
        }
        out.push(entry);
        i = i + 1;
    }
    proof {
        assert(archive_wf(archive));
        assert(zip_views(out@) =~= all);
    }
    Ok(out)
}

/// A single slash, as written between path components.
pub open spec fn slash_chars() -> Seq<char> {
    seq!['/']
}

/// A path component worth keeping: not empty, not `.`, not `..`.
pub open spec fn keep_component(c: Seq<char>) -> bool {
    c.len() > 0 && c != seq!['.'] && c != seq!['.', '.']
}

/// The sanitized form of an entry name: its slash-separated components
/// joined back with `/`, with empty, `.` and `..` components dropped.
/// `lemma_sanitize_no_escape` proves that the result can neither be
/// absolute nor climb out of the directory it is joined under.
pub open spec fn spec_sanitize(s: Seq<char>) -> Seq<char>
    decreases s.len(),
{
    let j = find_char(s, '/');
    if 0 <= j < s.len() {
        let head = s.take(j);
        let tail_clean = spec_sanitize(s.skip(j + 1));
        if keep_component(head) {
            if tail_clean.len() == 0 {
                head
            } else {
                head + slash_chars() + tail_clean
            }
        } else {
            tail_clean
        }
    } else {
        if keep_component(s) {
            s
        } else {
            Seq::empty()
        }
    }
}

/// A `..` path component stands at `i` in `p`: two dots bounded by
/// slashes or by the ends of the path.
pub open spec fn dotdot_at(p: Seq<char>, i: int) -> bool {
    &&& 0 <= i
    &&& i + 2 <= p.len()
    &&& p[i] == '.'
    &&& p[i + 1] == '.'
    &&& (i == 0 || p[i - 1] == '/')
    &&& (i + 2 == p.len() || p[i + 2] == '/')
}

/// `p` cannot leave the directory it is joined under: it is not
/// absolute and holds no `..` component.
pub open spec fn no_escape(p: Seq<char>) -> bool {
    &&& p.len() == 0 || p[0] != '/'
    &&& forall|i: int| !dotdot_at(p, i)
}

proof fn lemma_find_first(s: Seq<char>, c: char)
    ensures
        -1 <= find_char(s, c) < s.len(),
        find_char(s, c) == -1 ==> forall|k: int| 0 <= k < s.len() ==> s[k] != c,
        find_char(s, c) >= 0 ==> 0 <= find_char(s, c) < s.len() && s[find_char(s, c)] == c
            && forall|k: int| 0 <= k < find_char(s, c) ==> s[k] != c,
    decreases s.len(),
{
    if s.len() > 0 && s[0] != c {
        lemma_find_first(s.drop_first(), c);
        assert(forall|k: int| 0 <= k < s.drop_first().len() ==> s.drop_first()[k] == s[k + 1]);
        if find_char(s, c) >= 0 {
            assert forall|k: int| 0 <= k < find_char(s, c) implies s[k] != c by {
                if k > 0 {
                    assert(s.drop_first()[k - 1] == s[k]);
                }
            }
        } else {
            assert forall|k: int| 0 <= k < s.len() implies s[k] != c by {
                if k > 0 {
                    assert(s.drop_first()[k - 1] == s[k]);
                }
            }
        }
    }
}

/// No component of `component + "/" + tail` escapes when the component
/// is kept, holds no slash, and `tail` does not escape.
proof fn lemma_join_no_escape(head: Seq<char>, tail: Seq<char>)
    requires
        keep_component(head),
        forall|k: int| 0 <= k < head.len() ==> head[k] != '/',
        tail.len() > 0,
        no_escape(tail),
    ensures
        no_escape(head + slash_chars() + tail),
{
    let p = head + slash_chars() + tail;
    let h = head.len() as int;
    assert(p[0] == head[0]);
    assert forall|i: int| !dotdot_at(p, i) by {
        if dotdot_at(p, i) {
            if i + 2 <= h {
                if i > 0 {
                    assert(p[i - 1] == head[i - 1]);
                } else {
                    assert(i + 2 < p.len());
                    assert(p[i + 2] == '/');
                    assert(i + 2 == h);
                    assert(head =~= seq!['.', '.']);
                }
                assert(false);
            } else if i <= h {
                assert(p[h] == '/');
                assert(p[i] == '.' && p[i + 1] == '.');
                assert(i == h || i + 1 == h);
                assert(false);
            } else {
                let t = i - h - 1;
                assert(p[i] == tail[t]);
                assert(p[i + 1] == tail[t + 1]);
                assert(t == 0 || p[i - 1] == tail[t - 1]);
                assert(i + 2 == p.len() <==> t + 2 == tail.len());
                assert(i + 2 < p.len() ==> p[i + 2] == tail[t + 2]);
                assert(dotdot_at(tail, t));
                assert(false);
            }
        }
    }
}

/// A kept component that holds no slash does not escape on its own.
proof fn lemma_component_no_escape(head: Seq<char>)
    requires
        keep_component(head),
        forall|k: int| 0 <= k < head.len() ==> head[k] != '/',
    ensures
        no_escape(head),
{
    assert forall|i: int| !dotdot_at(head, i) by {
        if dotdot_at(head, i) {
            if i > 0 {
                assert(head[i - 1] == '/');
            } else if i + 2 < head.len() {
                assert(head[i + 2] == '/');
            } else {
                assert(head =~= seq!['.', '.']);
            }
            assert(false);
        }
    }
}

/// Whatever name an archive entry declares, its sanitized form cannot
/// leave the directory it is extracted under: it is never absolute and
/// never climbs through `..`.
pub proof fn lemma_sanitize_no_escape(s: Seq<char>)
    ensures
        no_escape(spec_sanitize(s)),
    decreases s.len(),
{
    let j = find_char(s, '/');
    lemma_find_first(s, '/');
    if 0 <= j < s.len() {
        let head = s.take(j);
        let tail = spec_sanitize(s.skip(j + 1));
        lemma_sanitize_no_escape(s.skip(j + 1));
        assert(forall|k: int| 0 <= k < head.len() ==> head[k] != '/');
        if keep_component(head) {
            if tail.len() == 0 {
                lemma_component_no_escape(head);
            } else {
                lemma_join_no_escape(head, tail);
            }
        }
    } else {
        if keep_component(s) {
            assert(forall|k: int| 0 <= k < s.len() ==> s[k] != '/');
            lemma_component_no_escape(s);
        }
    }
}

/// The last component of a path: what stands after the last `/`.
pub open spec fn base_name(s: Seq<char>) -> Seq<char>
    decreases s.len(),
{
    let j = find_char(s, '/');
    if 0 <= j < s.len() {
        base_name(s.skip(j + 1))
    } else {
        s
    }
}

/// `c` is a path component worth keeping.
fn keep_component_exec(c: &[char]) -> (b: bool)
    ensures
        b == keep_component(c@),
{
    if c.len() == 0 {
        return false;
    }
    if c.len() == 1 && *slice_index_get(c, 0) == '.' {
        proof {
            assert(c@ =~= seq!['.']);
        }
        return false;
    }
    if c.len() == 2 && *slice_index_get(c, 0) == '.' && *slice_index_get(c, 1) == '.' {
        proof {
            assert(c@ =~= seq!['.', '.']);
        }
        return false;
    }
    proof {
        if c@ == seq!['.'] {
            assert(c@.len() == 1 && c@[0] == '.');
        }
        if c@ == seq!['.', '.'] {
            assert(c@.len() == 2 && c@[0] == '.' && c@[1] == '.');
        }
    }
    true
}

/// The sanitized form of the characters of an entry name.
fn sanitize_chars(s: &[char]) -> (r: String)
    ensures
        r@ == spec_sanitize(s@),
    decreases s@.len(),
{
    let n = s.len();
    match find_pos(s, '/') {
        Some(j) => {
            let head = slice_subrange(s, 0, j);
            let tail_clean = sanitize_chars(slice_subrange(s, j + 1, n));
            proof {
                assert(head@ =~= s@.take(j as int));
            }
            if keep_component_exec(head) {
                if tail_clean.as_str().is_empty() {
                    chars_to_string(head)
                } else {
                    let mut out = chars_to_string(head);
                    out.append("/");
                    out.append(tail_clean.as_str());
                    proof {
                        reveal_strlit("/");
                        assert(out@ =~= spec_sanitize(s@));
                    }
                    out
                }
            } else {
                tail_clean
            }
        },
        None => {
            if keep_component_exec(s) {
                chars_to_string(s)
            } else {
                String::new()
            }
        },
    }
}

/// The sanitized form of an entry name.
pub fn sanitize_name(name: &str) -> (r: String)
    ensures
        r@ == spec_sanitize(name@),
{
    let chars = str_chars(name);
    sanitize_chars(chars.as_slice())
}

/// One step of carrying an extraction out on the filesystem.
pub enum FsAction {
    /// Create this directory and its missing parents.
    MkDirAll(String),
    /// Write a file at this path, parents included, with these bytes.
    WriteFile(String, Vec<u8>),
    /// Apply these POSIX permission bits to this path, on platforms
    /// that have them.
    SetMode(String, u32),
    /// Copy the file at the first path to the second.
    CopyFile(String, String),
    /// Remove the file at this path.
    RemoveFile(String),
}

/// The mathematical content of one filesystem step.
pub ghost enum FsStep {
    MkDirAll { path: Seq<char> },
    WriteFile { path: Seq<char>, data: Seq<u8> },
    SetMode { path: Seq<char>, mode: u32 },
    CopyFile { from: Seq<char>, to: Seq<char> },
    RemoveFile { path: Seq<char> },
}

impl View for FsAction {
    type V = FsStep;

    open spec fn view(&self) -> FsStep {
        match self {
            FsAction::MkDirAll(path) => FsStep::MkDirAll { path: path@ },
            FsAction::WriteFile(path, data) => FsStep::WriteFile { path: path@, data: data@ },
            FsAction::SetMode(path, mode) => FsStep::SetMode { path: path@, mode: *mode },
            FsAction::CopyFile(from, to) => FsStep::CopyFile { from: from@, to: to@ },
            FsAction::RemoveFile(path) => FsStep::RemoveFile { path: path@ },
        }
    }
}

/// The views of a sequence of steps, in order.
pub open spec fn action_views(s: Seq<FsAction>) -> Seq<FsStep> {
    Seq::new(s.len(), |i: int| s[i]@)
}

/// The entry's name marks a directory.
pub open spec fn is_dir_name(name: Seq<char>) -> bool {
    name.len() > 0 && name.last() == '/'
}

/// The steps taken for one entry: its directory or file appears at its
/// sanitized name under `dir`, and the stored permission bits, where
/// present, are applied to it.
pub open spec fn entry_steps(dir: Seq<char>, e: (Seq<char>, Seq<u8>, Option<u32>)) -> Seq<FsStep> {
    let path = dir + slash_chars() + spec_sanitize(e.0);
    let base: Seq<FsStep> = if is_dir_name(e.0) {
        seq![FsStep::MkDirAll { path }]
    } else {
        seq![FsStep::WriteFile { path, data: e.1 }]
    };
    match e.2 {
        Some(mode) => base + seq![FsStep::SetMode { path, mode }],
        None => base,
    }
}

/// The steps taken for a sequence of entries, in order.
pub open spec fn entries_steps(
    dir: Seq<char>,
    s: Seq<(Seq<char>, Seq<u8>, Option<u32>)>,
) -> Seq<FsStep>
    decreases s.len(),
{
    if s.len() == 0 {
        Seq::empty()
    } else {
        entry_steps(dir, s.first()) + entries_steps(dir, s.drop_first())
    }
}

/// The whole plan for extracting an archive at `source` into
/// `target_dir`: where the archive does not already sit in the target
/// directory it is first copied there and that copy removed at the
/// end; the archive at `source` itself is never removed.
pub open spec fn unzip_steps(
    source: Seq<char>,
    target_dir: Seq<char>,
    entries: Seq<(Seq<char>, Seq<u8>, Option<u32>)>,
) -> Seq<FsStep> {
    let copy_path = target_dir + slash_chars() + base_name(source);
    if copy_path == source {
        entries_steps(target_dir, entries)
    } else {
        seq![
            FsStep::MkDirAll { path: target_dir },
            FsStep::CopyFile { from: source, to: copy_path },
        ] + entries_steps(target_dir, entries) + seq![FsStep::RemoveFile { path: copy_path }]
    }
}

proof fn lemma_entries_steps_push(
    dir: Seq<char>,
    s: Seq<(Seq<char>, Seq<u8>, Option<u32>)>,
    e: (Seq<char>, Seq<u8>, Option<u32>),
)
    ensures
        entries_steps(dir, s.push(e)) == entries_steps(dir, s) + entry_steps(dir, e),
    decreases s.len(),
{
    if s.len() == 0 {
        assert(s.push(e).first() == e);
        assert(s.push(e).drop_first() =~= Seq::<(Seq<char>, Seq<u8>, Option<u32>)>::empty());
        assert(entries_steps(dir, Seq::<(Seq<char>, Seq<u8>, Option<u32>)>::empty())
            == Seq::<FsStep>::empty());
        assert(entries_steps(dir, s.push(e)) =~= entries_steps(dir, s) + entry_steps(dir, e));
    } else {
        assert(s.push(e).first() == s.first());
        assert(s.push(e).drop_first() =~= s.drop_first().push(e));
        lemma_entries_steps_push(dir, s.drop_first(), e);
        lemma_assoc(entry_steps(dir, s.first()), entries_steps(dir, s.drop_first()), entry_steps(dir, e));
    }
}

proof fn lemma_entries_steps_no_remove(dir: Seq<char>, s: Seq<(Seq<char>, Seq<u8>, Option<u32>)>)
    ensures
        forall|i: int|
            0 <= i < entries_steps(dir, s).len() ==> !(#[trigger] entries_steps(dir, s)[i]
                is RemoveFile),
    decreases s.len(),
{
    if s.len() > 0 {
        lemma_entries_steps_no_remove(dir, s.drop_first());
    }
}

/// Extracting an archive that already sits in its target directory
/// plans no removal at all: the source archive still exists afterwards.
pub proof fn lemma_same_location_keeps_source(
    source: Seq<char>,
    target_dir: Seq<char>,
    entries: Seq<(Seq<char>, Seq<u8>, Option<u32>)>,
)
    requires
        target_dir + slash_chars() + base_name(source) == source,
    ensures
        forall|i: int|
            0 <= i < unzip_steps(source, target_dir, entries).len() ==> !(#[trigger] unzip_steps(
                source,
                target_dir,
                entries,
            )[i] is RemoveFile),
{
    lemma_entries_steps_no_remove(target_dir, entries);
}

/// Plans the extraction of the archive `bytes`, found at
/// `source_file_path`, into `target_dir_path`: the entries are decoded
/// through the zip crate, the steps taken for them are all planned
/// here.  The plan comes out exactly when the archive decodes in full;
/// undecodable bytes surface their failure.
pub fn plan_unzip(source_file_path: &str, target_dir_path: &str, bytes: Vec<u8>) -> (r: Result<
    Vec<FsAction>,
    InstallError,
>)
    ensures
        r is Ok <==> zip_wf(bytes@),
        r is Ok ==> action_views(r.unwrap()@) == unzip_steps(
            source_file_path@,
            target_dir_path@,
            zip_entries(bytes@),
        ),
{
    let entries = match read_archive(bytes) {
        Ok(v) => v,
        Err(e) => {
            return Err(e);
        },
    };
    Ok(plan_actions(source_file_path, target_dir_path, &entries))
}

/// The filesystem steps that extract the decoded `entries` of the
/// archive at `source_file_path` into `target_dir_path`.
pub fn plan_actions(source_file_path: &str, target_dir_path: &str, entries: &Vec<ZipEntry>) -> (r:
    Vec<FsAction>)
    ensures
        action_views(r@) == unzip_steps(
            source_file_path@,
            target_dir_path@,
            zip_views(entries@),
        ),
{
    let ghost all = zip_views(entries@);
    let source_chars = str_chars(source_file_path);
    let file_name = base_name_exec(source_chars.as_slice());
    let mut copy_path = String::new();
    copy_path.append(target_dir_path);
    copy_path.append("/");
    copy_path.append(file_name.as_str());
    proof {
        reveal_strlit("/");
        assert(copy_path@ =~= target_dir_path@ + slash_chars() + base_name(source_file_path@));
    }
    let ghost cp = copy_path@;
    let same_location = str_eq(copy_path.as_str(), source_file_path);
    let mut actions: Vec<FsAction> = Vec::new();
    if !same_location {
        actions.push(FsAction::MkDirAll(target_dir_path.to_owned()));
        actions.push(FsAction::CopyFile(source_file_path.to_owned(), copy_path.clone()));
        proof {
            assert(action_views(actions@) =~= seq![
                FsStep::MkDirAll { path: target_dir_path@ },
                FsStep::CopyFile { from: source_file_path@, to: cp },
            ]);
        }
    }
    let ghost prefix = action_views(actions@);
    let n = entries.len();
    let mut i: usize = 0;
    while i < n
        invariant
            n == entries@.len(),
            zip_views(entries@) == all,
            i <= n,
            action_views(actions@) == prefix + entries_steps(
                target_dir_path@,
                all.take(i as int),
            ),
        decreases n - i,
    {
        push_entry_actions(&mut actions, target_dir_path, &entries[i]);
        proof {
            assert(entries@[i as int]@ == all[i as int]);
            lemma_entries_steps_push(target_dir_path@, all.take(i as int), all[i as int]);
            assert(all.take(i + 1 as int) =~= all.take(i as int).push(all[i as int]));
            lemma_assoc(
                prefix,
                entries_steps(target_dir_path@, all.take(i as int)),
                entry_steps(target_dir_path@, all[i as int]),
            );
        }
        i = i + 1;
    }
    proof {
        assert(all.take(n as int) =~= all);
    }
    let ghost body = entries_steps(target_dir_path@, all);
    if !same_location {
        let ghost before_rm = actions@;
        actions.push(FsAction::RemoveFile(copy_path));
        proof {
            assert(action_views(actions@) =~= action_views(before_rm) + seq![
                FsStep::RemoveFile { path: cp },
            ]);
            assert(action_views(actions@) =~= (prefix + body) + seq![
                FsStep::RemoveFile { path: cp },
            ]);
        }
    }
    proof {
        if same_location {
            assert(prefix =~= Seq::<FsStep>::empty());
            assert(action_views(actions@) =~= body);
        }
        assert(action_views(actions@) =~= unzip_steps(
            source_file_path@,
            target_dir_path@,
            all,
        ));
    }
    actions
}

/// The last component of the characters of a path.
fn base_name_exec(s: &[char]) -> (r: String)
    ensures
        r@ == base_name(s@),
    decreases s@.len(),
{
    let n = s.len();
    match find_pos(s, '/') {
        Some(j) => base_name_exec(slice_subrange(s, j + 1, n)),
        None => chars_to_string(s),
    }
}

/// Appends the steps for one entry.
fn push_entry_actions(actions: &mut Vec<FsAction>, target_dir_path: &str, entry: &ZipEntry)
    ensures
        action_views(final(actions)@) == action_views(old(actions)@) + entry_steps(
            target_dir_path@,
            entry@,
        ),
{
    let clean = sanitize_name(entry.name.as_str());
    let mut path = String::new();
    path.append(target_dir_path);
    path.append("/");
    path.append(clean.as_str());
    proof {
        reveal_strlit("/");
        assert(path@ =~= target_dir_path@ + slash_chars() + spec_sanitize(entry@.0));
    }
    let name_len = entry.name.as_str().unicode_len();
    let is_dir = name_len > 0 && entry.name.as_str().get_char(name_len - 1) == '/';
    if is_dir {
        actions.push(FsAction::MkDirAll(path.clone()));
    } else {
        actions.push(FsAction::WriteFile(path.clone(), clone_bytes(&entry.data)));
    }
    match entry.unix_mode {
        Some(mode) => {
            actions.push(FsAction::SetMode(path, mode));
        },
        None => {},
    }
    proof {
        assert(action_views(actions@) =~= action_views(old(actions)@) + entry_steps(
            target_dir_path@,
            entry@,
        ));
    }
}

/// A copy of a byte vector.
fn clone_bytes(v: &Vec<u8>) -> (r: Vec<u8>)
    ensures
        r@ == v@,
{
    let mut out: Vec<u8> = Vec::new();
    let n = v.len();
    let mut i: usize = 0;
    while i < n
        invariant
            n == v@.len(),
            i <= n,
            out@ == v@.subrange(0, i as int),
        decreases n - i,
    {
        out.push(v[i]);
        proof {
            assert(out@ =~= v@.subrange(0, i + 1 as int));
        }
        i = i + 1;
    }
    proof {
        assert(v@.subrange(0, n as int) =~= v@);
    }
    out
}

} // verus!
