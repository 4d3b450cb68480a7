//! Decisions of the content store: which names are safe on disk, blob
//! descriptions, and download ranges.

use vstd::prelude::*;

use crate::common::{Blob, StashError};
use crate::digest::{is_hash, is_hex_char};

verus! {

/// A staging blob name that stays inside the blob directory: non-empty,
/// neither `.` nor `..`, and free of `/`, `\` and NUL.
pub open spec fn is_safe_blob_name(s: Seq<char>) -> bool {
    &&& s.len() > 0
    &&& s != seq!['.']
    &&& s != seq!['.', '.']
    &&& forall|i: int| 0 <= i < s.len() ==> #[trigger] s[i] != '/' && s[i] != '\\' && s[i] != '\0'
}

/// The shape of a hyphenated UUID in lowercase.
pub open spec fn is_uuid_text(s: Seq<char>) -> bool {
    &&& s.len() == 36
    &&& forall|i: int| 0 <= i < s.len() ==> #[trigger] is_hex_char(s[i]) || s[i] == '-'
}

/// Tests a blob name by `is_safe_blob_name`.
pub fn safe_blob_name(name: &str) -> (r: bool)
    ensures
        r == is_safe_blob_name(name@),
{
    let n = name.unicode_len();
    if n == 0 {
        return false;
    }
    let mut i: usize = 0;
    while i < n
        invariant
            n == name@.len(),
            i <= n,
            forall|j: int| 0 <= j < i ==> #[trigger] name@[j] != '/' && name@[j] != '\\' && name@[j] != '\0',
        decreases n - i,
    {
        let c = name.get_char(i);
        if c == '/' || c == '\\' || c == '\0' {
            return false;
        }
        i = i + 1;
    }
    if n <= 2 && name.get_char(0) == '.' && (n == 1 || name.get_char(1) == '.') {
        proof {
            if n == 1 {
                assert(name@ =~= seq!['.']);
            } else {
                assert(name@ =~= seq!['.', '.']);
            }
        }
        return false;
    }
    proof {
        if n == 1 {
            assert(name@[0] != '.');
        }
        if n == 2 {
            assert(name@[0] != '.' || name@[1] != '.');
        }
    }
    true
}

/// Tests a content hash by `is_hash`.
pub fn valid_hash(s: &str) -> (r: bool)
    ensures
        r == is_hash(s@),
{
    let n = s.unicode_len();
    if n != 64 {
        return false;
    }
    let mut i: usize = 0;
    while i < n
        invariant
            n == s@.len(),
            i <= n,
            forall|j: int| 0 <= j < i ==> #[trigger] is_hex_char(s@[j]),
        decreases n - i,
    {
        let c = s.get_char(i);
        if !(('0' <= c && c <= '9') || ('a' <= c && c <= 'f')) {
            proof {
                assert(!is_hex_char(s@[i as int]));
            }
            return false;
        }
        i = i + 1;
    }
    true
}

/// Relies on `uuid::Uuid::new_v4` and its `Display`, which writes the
/// hyphenated form: 32 lowercase hex digits and 4 hyphens.
#[verifier::external_body]
fn fresh_uuid() -> (r: String)
    ensures
        is_uuid_text(r@),
{
    uuid::Uuid::new_v4().to_string()
}

/// A new, empty staging blob under a fresh random name.
pub fn create_blob() -> (r: Blob)
    ensures
        r.size == 0,
        is_uuid_text(r.name@),
        is_safe_blob_name(r.name@),
{
    let name = fresh_uuid();
    proof {
        assert(name@.len() == 36);
        assert(is_hex_char(name@[0]) || name@[0] == '-');
        assert forall|i: int| 0 <= i < name@.len() implies #[trigger] name@[i] != '/' && name@[i] != '\\'
            && name@[i] != '\0' by {
            assert(is_hex_char(name@[i]) || name@[i] == '-');
        }
    }
    Blob { name, size: 0 }
}

/// The blob `name` given its size on disk (`None` when there is no such
/// file); a name that could leave the blob directory is no blob.
pub fn describe_blob(name: &str, size: Option<u64>) -> (r: Result<Blob, StashError>)
    ensures
        r is Err <==> !is_safe_blob_name(name@) || size is None,
        r is Err ==> r == Err::<Blob, StashError>(StashError::NoSuchBlob),
        r matches Ok(b) ==> b.name@ == name@ && size == Some(b.size),
{
    if !safe_blob_name(name) {
        return Err(StashError::NoSuchBlob);
    }
    match size {
        None => Err(StashError::NoSuchBlob),
        Some(n) => Ok(Blob { name: String::from_str(name), size: n }),
    }
}

/// Checks a download of `len` bytes from `start` of content of `size`
/// bytes: out of bounds exactly when the range runs past the end.
pub fn check_range(size: u64, start: u64, len: u64) -> (r: Result<(), StashError>)
    ensures
        r == check_range_result(size, start, len),
{
    if start > size || len > size - start {
        Err(StashError::OutOfBounds)
    } else {
        Ok(())
    }
}

/// Checks a download from the content `hash`, given the size of its stored
/// file (`None` when there is none): a hash that is not 64 lowercase hex
/// digits names no file, so it never reaches the disk.
pub fn check_download(hash: &str, size: Option<u64>, start: u64, len: u64) -> (r: Result<(), StashError>)
    ensures
        !is_hash(hash@) || size is None ==> r == Err::<(), StashError>(StashError::NoSuchFile),
        is_hash(hash@) && size is Some ==> r == check_range_result(size->Some_0, start, len),
{
    if !valid_hash(hash) {
        return Err(StashError::NoSuchFile);
    }
    match size {
        None => Err(StashError::NoSuchFile),
        Some(n) => check_range(n, start, len),
    }
}

/// The outcome of `check_range`.
pub open spec fn check_range_result(size: u64, start: u64, len: u64) -> Result<(), StashError> {
    if start + len > size {
        Err(StashError::OutOfBounds)
    } else {
        Ok(())
    }
}

/// Whether a staging blob last written at `modified` is older than `ttl`
/// seconds at time `now`.
pub fn is_stale(modified: i64, now: i64, ttl: i64) -> (r: bool)
    ensures
        r == (now - modified > ttl),
{
    (now as i128) - (modified as i128) > ttl as i128
}

/// The ranges `(start, len)` in which a client fetches content of `size`
/// bytes, `chunk` bytes at a time: in order, from the start, each as long
/// as `chunk` but the last, which ends at `size`; none for empty content.
pub fn download_plan(size: u64, chunk: u64) -> (r: Vec<(u64, u64)>)
    requires
        chunk > 0,
    ensures
        r@.len() * chunk >= size,
        forall|i: int|
            0 <= i < r@.len() ==> {
                &&& (#[trigger] r@[i]).0 == i * chunk
                &&& r@[i].0 < size
                &&& r@[i].1 == if size - r@[i].0 < chunk {
                    (size - r@[i].0) as u64
                } else {
                    chunk
                }
            },
{
    let mut out: Vec<(u64, u64)> = Vec::new();
    let mut cursor: u64 = 0;
    proof {
        assert(out@.len() * chunk == 0) by (nonlinear_arith)
            requires
                out@.len() == 0,
        ;
    }
    while cursor < size
        invariant
            chunk > 0,
            cursor <= size,
            cursor == out@.len() * chunk,
            forall|i: int|
                0 <= i < out@.len() ==> {
                    &&& (#[trigger] out@[i]).0 == i * chunk
                    &&& out@[i].0 < size
                    &&& out@[i].1 == if size - out@[i].0 < chunk {
                        (size - out@[i].0) as u64
                    } else {
                        chunk
                    }
                },
        decreases size - cursor,
    {
        let len = if size - cursor < chunk {
            size - cursor
        } else {
            chunk
        };
        let ghost n = out@.len();
        out.push((cursor, len));
        proof {
            assert((n + 1) * chunk == n * chunk + chunk) by (nonlinear_arith);
        }
        if len < chunk {
            proof {
                assert(size < (n + 1) * chunk);
            }
            return out;
        }
        cursor = cursor + len;
    }
    out
}

} // verus!
