//! Upload preparation: content fingerprinting, the upload record, the
//! ingestion endpoints, and the outcome of an ingestion response.
//!
//! Reading the file and carrying the record over the network are the
//! caller's business; everything here is computed from the file's path
//! and bytes. The SHA-256 digest itself is the hashing crate's work and
//! only named here; the block-by-block feeding loop, the hex rendering
//! and the path handling around it are verified.

use vstd::prelude::*;

use sha2::Digest;

use crate::paths::basename;
use crate::paths::basename_of;
use crate::paths::has_unc_prefix;
use crate::paths::lemma_upload_path_portable;
use crate::paths::normalize_upload_path;
use crate::paths::rel_to_root;
use crate::paths::relative_to_root;
use crate::paths::starts_with;
use crate::paths::trim_trailing;
use crate::paths::trim_trailing_slashes;
use crate::paths::upload_path_of;

verus! {

/// Why one upload failed; the pipeline logs it, skips the file, and
/// continues.
#[derive(PartialEq, Eq, Structural, Clone, Copy, Debug)]
pub enum UploadError {
    /// The file could not be read at upload time.
    Read,
    /// The request failed or the server answered outside the 2xx range.
    Network,
}

#[verifier::external_type_specification]
#[verifier::external_body]
pub struct ExSha256(sha2::Sha256);

/// The bytes fed so far to a running SHA-256 hasher.
pub uninterp spec fn sha_fed(h: sha2::Sha256) -> Seq<u8>;

/// The SHA-256 digest of a byte sequence.
pub uninterp spec fn sha256_of(bytes: Seq<u8>) -> Seq<u8>;

/// Relies on `sha2::Sha256::new` (`Digest::new`): a fresh hasher has
/// been fed nothing.
#[verifier::external_body]
fn sha_new() -> (h: sha2::Sha256)
    ensures
        sha_fed(h) == Seq::<u8>::empty(),
{
    sha2::Sha256::new()
}

/// Relies on `sha2::Sha256::update` (`Digest::update`): feeding appends
/// the block to the bytes fed so far.
#[verifier::external_body]
fn sha_update(h: &mut sha2::Sha256, block: &[u8])
    ensures
        sha_fed(*final(h)) == sha_fed(*old(h)) + block@,
{
    h.update(block);
}

/// Relies on `sha2::Sha256::finalize` (`Digest::finalize`): the result
/// is the 32-byte SHA-256 digest of the fed bytes, and of those alone.
#[verifier::external_body]
fn sha_finalize(h: sha2::Sha256) -> (r: Vec<u8>)
    ensures
        r@ == sha256_of(sha_fed(h)),
        r@.len() == 32,
{
    h.finalize().to_vec()
}

/// The lower-case hex digit for a value below sixteen.
pub open spec fn hex_digit(n: int) -> char {
    if n == 0 {
        '0'
    } else if n == 1 {
        '1'
    } else if n == 2 {
        '2'
    } else if n == 3 {
        '3'
    } else if n == 4 {
        '4'
    } else if n == 5 {
        '5'
    } else if n == 6 {
        '6'
    } else if n == 7 {
        '7'
    } else if n == 8 {
        '8'
    } else if n == 9 {
        '9'
    } else if n == 10 {
        'a'
    } else if n == 11 {
        'b'
    } else if n == 12 {
        'c'
    } else if n == 13 {
        'd'
    } else if n == 14 {
        'e'
    } else {
        'f'
    }
}

/// The lower-case hex rendering of a byte sequence, two digits per byte.
pub open spec fn spec_hex(bytes: Seq<u8>) -> Seq<char>
    decreases bytes.len(),
{
    if bytes.len() == 0 {
        Seq::empty()
    } else {
        spec_hex(bytes.drop_last()) + seq![
            hex_digit(bytes.last() as int / 16),
            hex_digit(bytes.last() as int % 16),
        ]
    }
}

/// The hex rendering is two characters per byte.
pub proof fn lemma_spec_hex_len(bytes: Seq<u8>)
    ensures
        spec_hex(bytes).len() == 2 * bytes.len(),
    decreases bytes.len(),
{
    if bytes.len() == 0 {
    } else {
        lemma_spec_hex_len(bytes.drop_last());
    }
}

/// Relies on `hex::encode`: two lower-case hex digits per byte, in byte
/// order.
#[verifier::external_body]
fn hex_encode(b: &[u8]) -> (r: String)
    ensures
        r@ == spec_hex(b@),
{
    hex::encode(b)
}

/// The lower-case hex SHA-256 fingerprint of a file's full content. The
/// content is fed to the hasher in fixed-size blocks rather than in one
/// piece.
pub fn fingerprint_bytes(bytes: &[u8]) -> (r: String)
    ensures
        r@ == spec_hex(sha256_of(bytes@)),
        r@.len() == 64,
{
    let n = bytes.len();
    let mut h = sha_new();
    let mut i: usize = 0;
    while i < n
        invariant
            n == bytes@.len(),
            i <= n,
            sha_fed(h) =~= bytes@.take(i as int),
        decreases n - i,
    {
        let end = if n - i < 8192 {
            n
        } else {
            i + 8192
        };
        let block = vstd::slice::slice_subrange(bytes, i, end);
        sha_update(&mut h, block);
        proof {
            assert(sha_fed(h) =~= bytes@.take(end as int));
        }
        i = end;
    }
    proof {
        assert(bytes@.take(n as int) =~= bytes@);
    }
    let d = sha_finalize(h);
    let r = hex_encode(d.as_slice());
    proof {
        lemma_spec_hex_len(sha256_of(bytes@));
    }
    r
}

/// The short fingerprint prefix used in log lines.
pub fn hash_prefix(hash: &str) -> (r: String)
    requires
        hash@.len() >= 8,
    ensures
        r@ == hash@.subrange(0, 8),
{
    String::from_str(hash.substring_char(0, 8))
}

/// The health endpoint of a backend.
pub fn health_url(base: &str) -> (r: String)
    ensures
        r@ == base@ + "/healthz"@,
{
    let mut s = String::from_str(base);
    s.append("/healthz");
    s
}

/// The ingestion endpoint of a backend.
pub fn ingest_url(base: &str) -> (r: String)
    ensures
        r@ == base@ + "/api/v1/ingest/file"@,
{
    let mut s = String::from_str(base);
    s.append("/api/v1/ingest/file");
    s
}

/// The search endpoint of a backend.
pub fn search_url(base: &str) -> (r: String)
    ensures
        r@ == base@ + "/api/v1/search/query"@,
{
    let mut s = String::from_str(base);
    s.append("/api/v1/search/query");
    s
}

/// The upload-relative form of a file's path: both the watch root and
/// the path are normalized (forward slashes, no platform prefix), the
/// root loses trailing slashes, and the root prefix is stripped, so the
/// remote side sees a root-relative, forward-slash path.
pub open spec fn upload_rel_path(root: Seq<char>, abs: Seq<char>) -> Seq<char> {
    rel_to_root(trim_trailing(upload_path_of(root)), upload_path_of(abs))
}

/// The upload-relative path never contains a backslash and never
/// retains the extended-length prefix, whichever separator style either
/// input used.
pub proof fn lemma_upload_rel_path_portable(root: Seq<char>, abs: Seq<char>)
    ensures
        forall|i: int|
            0 <= i < upload_rel_path(root, abs).len() ==> upload_rel_path(root, abs)[i] != '\\',
        !has_unc_prefix(upload_rel_path(root, abs)),
{
    lemma_upload_path_portable(abs);
    let p = upload_path_of(abs);
    let r = trim_trailing(upload_path_of(root));
    let u = upload_rel_path(root, abs);
    assert forall|i: int| 0 <= i < u.len() implies u[i] != '\\' by {
        if r.len() == 0 {
            assert(u[i] == p[i]);
        } else if p == r {
            assert(u.len() == 0);
        } else if starts_with(p, r.push('/')) {
            assert(u[i] == p[i + r.len() + 1]);
        } else {
            assert(u[i] == p[i]);
        }
    }
    if u.len() >= 4 {
        assert(u[0] != '\\');
    }
}

/// What one upload carries: the file's path as the local system gave
/// it, the root-relative path the remote side sees, the multipart file
/// name, the content fingerprint, and the scope identifier.
pub struct FileRecord {
    pub abs_path: String,
    pub upload_path: String,
    pub file_name: String,
    pub fingerprint: String,
    pub org_id: String,
}

/// Builds the upload record for a file from the watch root, the file's
/// path and its content: the upload path is root-relative and
/// normalized (forward slashes, no platform prefix), the multipart file
/// name is its basename, and the fingerprint is the content's SHA-256
/// in lower-case hex.
pub fn make_record(root: &str, abs_path: &str, content: &[u8], org_id: &str) -> (r: FileRecord)
    ensures
        r.abs_path@ == abs_path@,
        r.upload_path@ == upload_rel_path(root@, abs_path@),
        r.file_name@ == basename_of(upload_rel_path(root@, abs_path@)),
        r.fingerprint@ == spec_hex(sha256_of(content@)),
        r.fingerprint@.len() == 64,
        r.org_id@ == org_id@,
{
    let nroot = trim_trailing_slashes(normalize_upload_path(root).as_str());
    let up = relative_to_root(nroot.as_str(), normalize_upload_path(abs_path).as_str());
    let name = basename(up.as_str());
    FileRecord {
        abs_path: String::from_str(abs_path),
        upload_path: up,
        file_name: name,
        fingerprint: fingerprint_bytes(content),
        org_id: String::from_str(org_id),
    }
}

/// Whether a health-check response status means the backend is
/// healthy: any 2xx status does.
pub fn health_outcome(status: u16) -> (r: bool)
    ensures
        r == (200 <= status < 300),
{
    200 <= status && status < 300
}

/// Classifies an ingestion response status: any 2xx status is success,
/// everything else is a network-level upload failure.
pub fn upload_outcome(status: u16) -> (r: Result<(), UploadError>)
    ensures
        r is Ok <==> 200 <= status < 300,
        r is Err ==> r->Err_0 == UploadError::Network,
{
    if 200 <= status && status < 300 {
        Ok(())
    } else {
        Err(UploadError::Network)
    }
}

} // verus!
