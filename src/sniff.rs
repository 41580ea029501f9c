use vstd::prelude::*;
use vstd::slice::slice_subrange;

verus! {

/// How many leading bytes of a file the classifier looks at.
pub const SNIFF_LEN: usize = 1000;

/// What the leading bytes of a file say about its format.
#[derive(Clone, Copy, Debug, PartialEq, Eq, Structural)]
pub enum FileKind {
    /// A container format (tar, zip, gzip, ...): its content is more files.
    Archive,
    /// A recognised format that holds no further files.
    Other,
    /// No known signature matched.
    Unknown,
}

/// The file extension of the first `infer` matcher that accepts a byte
/// prefix, or `None` when none does.
pub uninterp spec fn extension_of(prefix: Seq<u8>) -> Option<Seq<char>>;

/// Relies on `infer::Infer::get` (the first matcher of its fixed table that
/// accepts the bytes) and `infer::Type::extension` (that matcher's file
/// extension). `Infer::new()` holds no custom matchers, so the answer
/// depends on the bytes alone.
#[verifier::external_body]
fn infer_extension(prefix: &[u8]) -> (r: Option<String>)
    ensures
        match r {
            None => extension_of(prefix@) is None,
            Some(e) => extension_of(prefix@) == Some(e@),
        },
{
    infer::Infer::new().get(prefix).map(|t| t.extension().to_string())
}

/// The extensions of the formats that are unpacked: archives and the
/// single-stream compressors that libarchive reads. This is a deliberate
/// choice over `infer`'s own archive class, which also holds documents and
/// databases (pdf, rtf, ps, sqlite, epub, ...): those are content to show,
/// and unpacking them could only fail and drop them from the file list.
pub open spec fn container_extension(e: Seq<char>) -> bool {
    e == "zip"@
        || e == "tar"@
        || e == "rar"@
        || e == "gz"@
        || e == "bz2"@
        || e == "7z"@
        || e == "xz"@
        || e == "cab"@
        || e == "deb"@
        || e == "ar"@
        || e == "Z"@
        || e == "lz"@
        || e == "rpm"@
        || e == "zst"@
        || e == "lz4"@
        || e == "cpio"@
}

/// The kind of a file whose signature has the extension `ext`, if any.
pub open spec fn kind_of_extension_spec(ext: Option<Seq<char>>) -> FileKind {
    match ext {
        None => FileKind::Unknown,
        Some(e) => if container_extension(e) {
            FileKind::Archive
        } else {
            FileKind::Other
        },
    }
}

/// Whether two texts are equal.
fn same_text(a: &str, b: &str) -> (r: bool)
    ensures
        r == (a@ == b@),
{
    let n = a.unicode_len();
    let m = b.unicode_len();
    if n != m {
        return false;
    }
    let r = crate::paths::starts_with(a, b);
    assert(a@.take(n as int) =~= a@);
    r
}

/// Whether `ext` names a format that is unpacked.
pub fn is_container_extension(ext: &str) -> (r: bool)
    ensures
        r == container_extension(ext@),
{
    same_text(ext, "zip")
        || same_text(ext, "tar")
        || same_text(ext, "rar")
        || same_text(ext, "gz")
        || same_text(ext, "bz2")
        || same_text(ext, "7z")
        || same_text(ext, "xz")
        || same_text(ext, "cab")
        || same_text(ext, "deb")
        || same_text(ext, "ar")
        || same_text(ext, "Z")
        || same_text(ext, "lz")
        || same_text(ext, "rpm")
        || same_text(ext, "zst")
        || same_text(ext, "lz4")
        || same_text(ext, "cpio")
}

/// Turns the extension of a matched signature into a [`FileKind`].
pub fn kind_of_extension(ext: &Option<String>) -> (r: FileKind)
    ensures
        r == kind_of_extension_spec(
            match ext {
                None => None,
                Some(e) => Some(e@),
            },
        ),
{
    match ext {
        None => FileKind::Unknown,
        Some(e) => if is_container_extension(e.as_str()) {
            FileKind::Archive
        } else {
            FileKind::Other
        },
    }
}

/// The part of `bytes` that the classifier reads.
pub open spec fn sniff_window(bytes: Seq<u8>) -> Seq<u8> {
    if bytes.len() <= SNIFF_LEN {
        bytes
    } else {
        bytes.take(SNIFF_LEN as int)
    }
}

/// The classification of a file whose content starts with `bytes`.
pub open spec fn classify_spec(bytes: Seq<u8>) -> FileKind {
    if bytes.len() == 0 {
        FileKind::Unknown
    } else {
        kind_of_extension_spec(extension_of(sniff_window(bytes)))
    }
}

/// Classifies a file from its leading bytes.
///
/// Only the first [`SNIFF_LEN`] bytes are read; a shorter input is taken
/// whole. An empty input is `Unknown`. Classification never fails: no match
/// is `Unknown`.
pub fn classify(bytes: &[u8]) -> (r: FileKind)
    ensures
        r == classify_spec(bytes@),
{
    if bytes.len() == 0 {
        return FileKind::Unknown;
    }
    let end: usize = if bytes.len() <= SNIFF_LEN { bytes.len() } else { SNIFF_LEN };
    let window = slice_subrange(bytes, 0, end);
    proof {
        assert(window@ =~= sniff_window(bytes@));
    }
    kind_of_extension(&infer_extension(window))
}

/// The kind of a file whose leading bytes were read (`Some`) or could not
/// be read (`None`). An unreadable file is `Unknown`, so that it is kept as a
/// leaf rather than dropped.
pub fn classify_read(read: Option<&[u8]>) -> (r: FileKind)
    ensures
        read is None ==> r == FileKind::Unknown,
        read is Some ==> r == classify_spec(read->0@),
{
    match read {
        None => FileKind::Unknown,
        Some(bytes) => classify(bytes),
    }
}

/// Classification is a function of the bytes: equal inputs get equal kinds,
/// so classifying the same bytes twice gives the same answer.
pub proof fn lemma_classify_deterministic(a: Seq<u8>, b: Seq<u8>)
    requires
        a == b,
    ensures
        classify_spec(a) == classify_spec(b),
{
}

} // verus!
