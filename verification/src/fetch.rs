//! Planning of an audio download: deriving the local file name from the
//! URL, deciding on the HTTP status, and building the storage path.
//!
//! The network transfer itself and the directory and file writes are I/O
//! and live outside this library; they hand plain values in and out.

use vstd::prelude::*;

verus! {

/// The byte value of `'/'`, the separator of URL path segments.
pub const SLASH: u8 = 47;

/// Why a download cannot proceed, as far as this library decides it.
/// Filesystem errors are raised by the caller that performs the I/O and
/// are surfaced verbatim, so they have no variant here.
#[derive(Clone, Copy, Debug, PartialEq, Eq, Structural)]
pub enum FetchError {
    /// The URL does not parse, has no slash-separated path, or its last
    /// path segment is empty, so no local file name can be derived.
    InvalidUrl,
    /// The remote endpoint answered with the carried non-2xx status code.
    TransferFailed(u16),
}

/// The percent-encoded path of the URL `s`, when `s` parses as an absolute
/// URL whose path is made of slash-separated segments; `None` otherwise.
pub uninterp spec fn url_path(s: Seq<char>) -> Option<Seq<u8>>;

/// The suffix of `p` after its last `'/'`; all of `p` when it holds none.
pub open spec fn last_segment(p: Seq<u8>) -> Seq<u8>
    decreases p.len(),
{
    if p.len() == 0 {
        Seq::empty()
    } else if p[p.len() - 1] == SLASH {
        Seq::empty()
    } else {
        last_segment(p.drop_last()).push(p[p.len() - 1])
    }
}

/// Relies on `url::Url::parse`, `url::Url::path_segments` and
/// `url::Url::path`: the parse outcome and the percent-encoded path depend
/// on the input string alone, and `path_segments` returns `Some` exactly
/// when the path begins with `'/'` (its body strips that prefix), so a
/// returned path is never empty and always starts with `'/'`.
#[verifier::external_body]
fn parse_url_path(url: &str) -> (r: Option<Vec<u8>>)
    ensures
        r is Some <==> url_path(url@) is Some,
        r matches Some(p) ==> url_path(url@) matches Some(q) && p@ == q,
        r matches Some(p) ==> p@.len() > 0 && p@[0] == SLASH,
{
    let parsed = match url::Url::parse(url) {
        Ok(u) => u,
        Err(_) => return None,
    };
    match parsed.path_segments() {
        Some(_) => Some(parsed.path().as_bytes().to_vec()),
        None => None,
    }
}

/// When `p` holds no `'/'` at or after position `i`, and `i` sits right
/// after a `'/'` (or at the very start), the last segment of `p` is exactly
/// the suffix of `p` from `i` on.
proof fn lemma_last_segment_suffix(p: Seq<u8>, i: int)
    requires
        0 <= i <= p.len(),
        i == 0 || p[i - 1] == SLASH,
        forall |j: int| i <= j < p.len() ==> p[j] != SLASH,
    ensures
        last_segment(p) == p.subrange(i, p.len() as int),
    decreases p.len(),
{
    if p.len() == 0 {
        assert(last_segment(p) =~= p.subrange(i, p.len() as int));
    } else if i == p.len() {
        assert(p[p.len() - 1] == SLASH);
        assert(last_segment(p) =~= p.subrange(i, p.len() as int));
    } else {
        assert(p[p.len() - 1] != SLASH);
        lemma_last_segment_suffix(p.drop_last(), i);
        assert(p.drop_last().subrange(i, p.len() - 1) =~= p.subrange(i, p.len() - 1));
        assert(p.subrange(i, p.len() - 1).push(p[p.len() - 1]) =~= p.subrange(i, p.len() as int));
    }
}

/// Law: when a path is some prefix, then a `'/'`, then a non-empty segment
/// holding no `'/'`, the derived file name is exactly that segment.
pub proof fn lemma_last_segment_of_appended(prefix: Seq<u8>, name: Seq<u8>)
    requires
        name.len() > 0,
        forall |j: int| 0 <= j < name.len() ==> name[j] != SLASH,
    ensures
        last_segment(prefix + seq![SLASH] + name) == name,
{
    let p = prefix + seq![SLASH] + name;
    let i = prefix.len() + 1;
    assert(p[i - 1] == SLASH);
    assert forall |j: int| i <= j < p.len() implies p[j] != SLASH by {
        assert(p[j] == name[j - i]);
    }
    lemma_last_segment_suffix(p, i as int);
    assert(p.subrange(i as int, p.len() as int) =~= name);
}

/// Copies out the suffix of `p` that follows its last `'/'`.
fn tail_after_last_slash(p: &Vec<u8>) -> (r: Vec<u8>)
    ensures
        r@ == last_segment(p@),
{
    let mut i: usize = p.len();
    while i > 0 && p[i - 1] != SLASH
        invariant
            i <= p@.len(),
            forall |j: int| i <= j < p@.len() ==> p@[j] != SLASH,
        decreases i,
    {
        i = i - 1;
    }
    proof {
        lemma_last_segment_suffix(p@, i as int);
    }
    let mut out: Vec<u8> = Vec::new();
    let mut j: usize = i;
    while j < p.len()
        invariant
            i <= j <= p@.len(),
            out@ == p@.subrange(i as int, j as int),
        decreases p@.len() - j,
    {
        out.push(p[j]);
        assert(out@ =~= p@.subrange(i as int, j + 1));
        j = j + 1;
    }
    out
}

/// Derives the local file name for a fetched resource: the last
/// slash-separated segment of the URL's path. Fails with `InvalidUrl` when
/// the URL does not parse, has no slash-separated path, or its last
/// segment is empty.
pub fn audio_file_name(url: &str) -> (r: Result<Vec<u8>, FetchError>)
    ensures
        r is Ok <==> (url_path(url@) matches Some(p) && last_segment(p).len() > 0),
        r matches Ok(name) ==> url_path(url@) matches Some(p) && name@ == last_segment(p),
        r is Err ==> r == Err::<Vec<u8>, FetchError>(FetchError::InvalidUrl),
{
    match parse_url_path(url) {
        None => Err(FetchError::InvalidUrl),
        Some(path) => {
            let name = tail_after_last_slash(&path);
            if name.len() == 0 {
                Err(FetchError::InvalidUrl)
            } else {
                Ok(name)
            }
        },
    }
}

/// Decides whether an HTTP status code counts as a successful transfer:
/// exactly the 2xx family succeeds, and every other status is reported as
/// a transfer failure carrying that status.
pub fn check_status(status: u16) -> (r: Result<(), FetchError>)
    ensures
        r is Ok <==> 200 <= status <= 299,
        !(200 <= status <= 299) ==> r == Err::<(), FetchError>(FetchError::TransferFailed(status)),
{
    if 200 <= status && status <= 299 {
        Ok(())
    } else {
        Err(FetchError::TransferFailed(status))
    }
}

/// The fixed subdirectory for downloaded audio, as the bytes of
/// `"/data/audio/"`.
pub open spec fn audio_dir_suffix() -> Seq<u8> {
    seq![SLASH, 100u8, 97u8, 116u8, 97u8, SLASH, 97u8, 117u8, 100u8, 105u8, 111u8, SLASH]
}

/// Joins the storage root, the fixed `data/audio` subdirectory and a file
/// name into one `'/'`-separated path.
pub fn audio_storage_path(base: &Vec<u8>, name: &Vec<u8>) -> (r: Vec<u8>)
    ensures
        r@ == base@ + audio_dir_suffix() + name@,
{
    let mut out: Vec<u8> = Vec::new();
    let mut k: usize = 0;
    while k < base.len()
        invariant
            k <= base@.len(),
            out@ == base@.subrange(0, k as int),
        decreases base@.len() - k,
    {
        out.push(base[k]);
        assert(out@ =~= base@.subrange(0, k + 1));
        k = k + 1;
    }
    assert(out@ =~= base@);
    out.push(SLASH);
    out.push(100);
    out.push(97);
    out.push(116);
    out.push(97);
    out.push(SLASH);
    out.push(97);
    out.push(117);
    out.push(100);
    out.push(105);
    out.push(111);
    out.push(SLASH);
    assert(out@ =~= base@ + audio_dir_suffix());
    let mut k: usize = 0;
    while k < name.len()
        invariant
            k <= name@.len(),
            out@ == base@ + audio_dir_suffix() + name@.subrange(0, k as int),
        decreases name@.len() - k,
    {
        out.push(name[k]);
        assert(out@ =~= base@ + audio_dir_suffix() + name@.subrange(0, k + 1));
        k = k + 1;
    }
    assert(name@.subrange(0, name@.len() as int) =~= name@);
    out
}

} // verus!
