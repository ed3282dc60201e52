//! Remote build cache rules: key validation, write authorization, and the
//! reconciliation of the cache index with the files on disk.

use vstd::prelude::*;
use vstd::string::StringSliceAdditionalSpecFns;
use vstd::utf8::{decode_utf8, valid_utf8};
use base64::Engine;
use crate::github::{find_char, index_of};
use crate::text::{chars_of, chars_starts_with, has_prefix, str_eq, string_from, trim, trim_spec};

verus! {

/// A lowercase hexadecimal digit.
pub open spec fn is_lower_hex(b: u8) -> bool {
    (0x30 <= b <= 0x39) || (0x61 <= b <= 0x66)
}

/// A Gradle build cache key: 32 to 64 bytes, all lowercase hexadecimal.
pub open spec fn valid_key_bytes(bytes: Seq<u8>) -> bool {
    &&& 32 <= bytes.len() <= 64
    &&& forall|i: int| 0 <= i < bytes.len() ==> is_lower_hex(#[trigger] bytes[i])
}

/// Gradle build cache keys: lowercase hex, 32–64 chars. Valid keys are safe
/// file names.
pub fn valid_key(key: &str) -> (r: bool)
    ensures
        r == valid_key_bytes(key.spec_bytes()),
{
    let bytes = key.as_bytes();
    let n = bytes.len();
    if n < 32 || n > 64 {
        return false;
    }
    let mut i: usize = 0;
    while i < n
        invariant
            n == bytes@.len(),
            bytes@ == key.spec_bytes(),
            i <= n,
            forall|j: int| 0 <= j < i ==> is_lower_hex(#[trigger] bytes@[j]),
        decreases n - i,
    {
        let b = bytes[i];
        if !((b >= 0x30 && b <= 0x39) || (b >= 0x61 && b <= 0x66)) {
            return false;
        }
        i += 1;
    }
    true
}

/// The cache's directory.
#[verifier::external_type_specification]
#[verifier::external_body]
pub struct ExPathBuf(std::path::PathBuf);

/// The remote build cache's settings.
pub struct CacheConfig {
    pub dir: std::path::PathBuf,
    pub max_artifact_bytes: u64,
    pub max_total_bytes: i64,
    pub retention_days: u32,
    /// Shared token protecting writes (HTTP Basic password); None = open.
    pub token: Option<String>,
}

/// Bytes in a MiB.
pub const MIB: u64 = 1048576;

impl CacheConfig {
    /// The settings for sizes given in MiB.
    pub fn new(
        dir: std::path::PathBuf,
        max_artifact_mb: u64,
        max_size_mb: u64,
        retention_days: u32,
        token: Option<String>,
    ) -> (r: CacheConfig)
        requires
            max_artifact_mb * MIB <= u64::MAX,
            max_size_mb * MIB <= u64::MAX,
        ensures
            r.dir == dir,
            r.max_artifact_bytes == max_artifact_mb * MIB,
            r.max_total_bytes == (max_size_mb * MIB) as i64,
            r.retention_days == retention_days,
            r.token == token,
    {
        let artifact = max_artifact_mb * MIB;
        let total = max_size_mb * MIB;
        CacheConfig {
            dir,
            max_artifact_bytes: artifact,
            max_total_bytes: total as i64,
            retention_days,
            token,
        }
    }
}

/// The bytes standard base64 (with padding) decodes `text` to, if it is
/// valid base64.
pub uninterp spec fn base64_decoded(text: Seq<char>) -> Option<Seq<u8>>;

/// base64's `STANDARD` engine `decode`: the decoded bytes, or nothing for
/// input that is not valid padded standard base64 (named, not stated).
#[verifier::external_body]
fn base64_decode(text: &str) -> (r: Option<Vec<u8>>)
    ensures
        match r {
            Some(v) => base64_decoded(text@) == Some(v@),
            None => base64_decoded(text@) is None,
        },
{
    base64::engine::general_purpose::STANDARD.decode(text).ok()
}

/// std `String::from_utf8`: the text the bytes encode when they are valid
/// UTF-8, else nothing.
#[verifier::external_body]
fn utf8_text(bytes: Vec<u8>) -> (r: Option<String>)
    ensures
        r is Some <==> valid_utf8(bytes@),
        r matches Some(s) ==> s@ == decode_utf8(bytes@),
{
    String::from_utf8(bytes).ok()
}

/// The scheme prefix of a Basic authorization header.
pub const BASIC: &'static str = "Basic ";

/// Decoded Basic credentials `user:password` (UTF-8) carry the token as
/// their password: everything after the first `:`.
pub open spec fn credentials_spec(token: Seq<char>, decoded: Option<Seq<u8>>) -> bool {
    match decoded {
        None => false,
        Some(bytes) => valid_utf8(bytes) && match index_of(decode_utf8(bytes), ':') {
            None => false,
            Some(k) => decode_utf8(bytes).skip(k + 1) == token,
        },
    }
}

/// Whether decoded Basic credentials carry `token` as their password; the
/// user name is ignored.
pub fn credentials_match(token: &str, decoded: Option<Vec<u8>>) -> (r: bool)
    ensures
        r == credentials_spec(
            token@,
            match decoded {
                Some(v) => Some(v@),
                None => None,
            },
        ),
{
    let bytes = match decoded {
        Some(d) => d,
        None => return false,
    };
    let text = match utf8_text(bytes) {
        Some(s) => s,
        None => return false,
    };
    let tc = chars_of(text.as_str());
    let tn = tc.len();
    match find_char(tc.as_slice(), ':') {
        None => false,
        Some(k) => {
            let password = string_from(tc.as_slice(), k + 1);
            str_eq(password.as_str(), token)
        },
    }
}

/// A write is authorized: there is no token, or the `Authorization` header
/// is `Basic` with credentials `user:password` whose password (after the
/// first `:`) is the token. The user name is ignored.
pub open spec fn basic_auth_spec(token: Option<Seq<char>>, authorization: Option<Seq<char>>) -> bool {
    match token {
        None => true,
        Some(t) => match authorization {
            None => false,
            Some(h) => has_prefix(h, BASIC@) && credentials_spec(
                t,
                base64_decoded(trim_spec(h.skip(BASIC@.len() as int))),
            ),
        },
    }
}

/// The view of an optional string slice.
pub open spec fn opt_str(o: Option<&str>) -> Option<Seq<char>> {
    match o {
        Some(s) => Some(s@),
        None => None,
    }
}

/// Whether a cache write is authorized by the `Authorization` header value
/// (absent when missing or not visible ASCII). Gradle sends
/// "username:password"; the username is ignored.
pub fn basic_auth_ok(token: Option<&str>, authorization: Option<&str>) -> (r: bool)
    ensures
        r == basic_auth_spec(opt_str(token), opt_str(authorization)),
{
    let t = match token {
        None => return true,
        Some(t) => t,
    };
    let value = match authorization {
        None => return false,
        Some(v) => v,
    };
    let vc = chars_of(value);
    let pc = chars_of(BASIC);
    if !chars_starts_with(vc.as_slice(), pc.as_slice()) {
        return false;
    }
    let encoded = string_from(vc.as_slice(), pc.len());
    let trimmed = trim(encoded.as_str());
    credentials_match(t, base64_decode(trimmed.as_str()))
}

/// What a cache write gets: 400 for an invalid key, 401 when not
/// authorized, 413 when the artifact is too large, else it is stored.
#[derive(Debug, Clone, Copy, PartialEq, Eq, Structural)]
pub enum PutCheck {
    BadRequest,
    Unauthorized,
    TooLarge,
    Store,
}

/// The checks before a `PUT /cache/{key}` is stored, in order: key, then
/// authorization, then size.
pub fn put_check(
    key: &str,
    token: Option<&str>,
    authorization: Option<&str>,
    body_len: u64,
    max_artifact_bytes: u64,
) -> (r: PutCheck)
    ensures
        r == (if !valid_key_bytes(key.spec_bytes()) {
            PutCheck::BadRequest
        } else if !basic_auth_spec(opt_str(token), opt_str(authorization)) {
            PutCheck::Unauthorized
        } else if body_len > max_artifact_bytes {
            PutCheck::TooLarge
        } else {
            PutCheck::Store
        }),
{
    if !valid_key(key) {
        PutCheck::BadRequest
    } else if !basic_auth_ok(token, authorization) {
        PutCheck::Unauthorized
    } else if body_len > max_artifact_bytes {
        PutCheck::TooLarge
    } else {
        PutCheck::Store
    }
}

/// One entry of the cache directory.
pub struct DirEntry {
    pub name: String,
    pub is_file: bool,
}

/// The entry is a cache artifact: a file named by a valid key.
pub open spec fn is_artifact(e: DirEntry) -> bool {
    e.is_file && valid_key_bytes(vstd::utf8::encode_utf8(e.name@))
}

/// Some artifact on disk has this name.
pub open spec fn on_disk(entries: Seq<DirEntry>, name: Seq<char>) -> bool {
    exists|i: int| 0 <= i < entries.len() && is_artifact(#[trigger] entries[i]) && entries[i].name@ == name
}

/// The index row at `i` is dropped: no artifact backs it (a key listed
/// twice is backed once, at its first row).
pub open spec fn dropped(entries: Seq<DirEntry>, keys: Seq<String>, i: int) -> bool {
    !on_disk(entries, keys[i]@) || exists|j: int| 0 <= j < i && #[trigger] keys[j]@ == keys[i]@
}

/// The file is deleted: it is not an artifact, or no index row names it.
pub open spec fn deleted(entries: Seq<DirEntry>, keys: Seq<String>, name: Seq<char>) -> bool {
    (exists|i: int| 0 <= i < entries.len() && !is_artifact(#[trigger] entries[i]) && entries[i].name@ == name)
        || (on_disk(entries, name) && !indexed(keys, name))
}

/// Some index row names `name`.
pub open spec fn indexed(keys: Seq<String>, name: Seq<char>) -> bool {
    exists|j: int| 0 <= j < keys.len() && #[trigger] keys[j]@ == name
}

/// The directory entry at `i` is removed.
pub open spec fn removed(entries: Seq<DirEntry>, keys: Seq<String>, i: int) -> bool {
    !is_artifact(entries[i]) || !indexed(keys, entries[i].name@)
}

/// The index rows among the first `n` that are dropped, in order.
pub open spec fn dropped_keys(entries: Seq<DirEntry>, keys: Seq<String>, n: int) -> Seq<Seq<char>>
    decreases n,
{
    if n <= 0 {
        Seq::<Seq<char>>::empty()
    } else if dropped(entries, keys, n - 1) {
        dropped_keys(entries, keys, n - 1).push(keys[n - 1]@)
    } else {
        dropped_keys(entries, keys, n - 1)
    }
}

/// How to bring index and directory into agreement.
pub struct ReconcilePlan {
    /// Files to remove: non-artifacts (leftover temp files) and artifacts
    /// without an index row.
    pub delete_files: Vec<String>,
    /// Index rows without a file, in index order.
    pub drop_keys: Vec<String>,
}

/// Whether some artifact on disk is named `name`.
fn artifact_named(entries: &Vec<DirEntry>, name: &str) -> (r: bool)
    ensures
        r == on_disk(entries@, name@),
{
    let n = entries.len();
    let mut i: usize = 0;
    while i < n
        invariant
            n == entries@.len(),
            i <= n,
            forall|j: int|
                0 <= j < i ==> !(is_artifact(#[trigger] entries@[j]) && entries@[j].name@ == name@),
        decreases n - i,
    {
        let e = &entries[i];
        if e.is_file && valid_key(e.name.as_str()) && str_eq(e.name.as_str(), name) {
            return true;
        }
        i += 1;
    }
    false
}

/// Whether some of the first `upto` keys is `name`.
fn key_listed(keys: &Vec<String>, upto: usize, name: &str) -> (r: bool)
    requires
        upto <= keys@.len(),
    ensures
        r == exists|j: int| 0 <= j < upto && #[trigger] keys@[j]@ == name@,
{
    let mut i: usize = 0;
    while i < upto
        invariant
            upto <= keys@.len(),
            i <= upto,
            forall|j: int| 0 <= j < i ==> #[trigger] keys@[j]@ != name@,
        decreases upto - i,
    {
        if str_eq(keys[i].as_str(), name) {
            return true;
        }
        i += 1;
    }
    false
}

/// The names of a list of strings.
pub open spec fn names(v: Seq<String>) -> Seq<Seq<char>> {
    v.map_values(|f: String| f@)
}

/// Reconciles the index and the directory in both directions: index rows
/// without a file are dropped, files without an index row (including
/// leftover temp files) are deleted. The index is authoritative.
pub fn reconcile_plan(entries: &Vec<DirEntry>, index_keys: &Vec<String>) -> (r: ReconcilePlan)
    ensures
        forall|name: Seq<char>|
            #[trigger] names(r.delete_files@).contains(name) <==> deleted(entries@, index_keys@, name),
        names(r.drop_keys@) == dropped_keys(entries@, index_keys@, index_keys@.len() as int),
{
    let mut delete_files: Vec<String> = Vec::new();
    let n = entries.len();
    let mut i: usize = 0;
    while i < n
        invariant
            n == entries@.len(),
            i <= n,
            forall|name: Seq<char>|
                #[trigger] names(delete_files@).contains(name) <==> (exists|j: int|
                    0 <= j < i && removed(entries@, index_keys@, j) && #[trigger] entries@[j].name@
                        == name),
        decreases n - i,
    {
        let e = &entries[i];
        let artifact = e.is_file && valid_key(e.name.as_str());
        let remove = if !artifact {
            true
        } else {
            !key_listed(index_keys, index_keys.len(), e.name.as_str())
        };
        assert(remove == removed(entries@, index_keys@, i as int));
        let ghost before = names(delete_files@);
        if remove {
            delete_files.push(e.name.clone());
        }
        proof {
            assert forall|name: Seq<char>|
                #[trigger] names(delete_files@).contains(name) <==> (exists|j: int|
                    0 <= j < i + 1 && removed(entries@, index_keys@, j) && #[trigger] entries@[j].name@
                        == name) by {
                if remove {
                    assert(names(delete_files@) =~= before.push(e.name@));
                    vstd::seq_lib::lemma_seq_contains_after_push(before, e.name@, name);
                } else {
                    assert(names(delete_files@) =~= before);
                }
                if names(delete_files@).contains(name) && !before.contains(name) {
                    assert(removed(entries@, index_keys@, i as int) && entries@[i as int].name@ == name);
                }
            }
        }
        i += 1;
    }
    proof {
        assert forall|name: Seq<char>|
            #[trigger] names(delete_files@).contains(name) <==> deleted(entries@, index_keys@, name) by {
            if names(delete_files@).contains(name) {
                let j = choose|j: int|
                    0 <= j < n && removed(entries@, index_keys@, j) && #[trigger] entries@[j].name@
                        == name;
                if is_artifact(entries@[j]) {
                    assert(on_disk(entries@, name));
                }
            }
            if deleted(entries@, index_keys@, name) {
                if exists|k: int|
                    0 <= k < entries@.len() && !is_artifact(#[trigger] entries@[k]) && entries@[k].name@
                        == name {
                    let k = choose|k: int|
                        0 <= k < entries@.len() && !is_artifact(#[trigger] entries@[k])
                            && entries@[k].name@ == name;
                    assert(removed(entries@, index_keys@, k));
                } else {
                    let k = choose|k: int|
                        0 <= k < entries@.len() && is_artifact(#[trigger] entries@[k]) && entries@[k].name@
                            == name;
                    assert(removed(entries@, index_keys@, k));
                }
            }
        }
    }
    let mut drop_keys: Vec<String> = Vec::new();
    let m = index_keys.len();
    let mut k: usize = 0;
    while k < m
        invariant
            m == index_keys@.len(),
            k <= m,
            names(drop_keys@) == dropped_keys(entries@, index_keys@, k as int),
        decreases m - k,
    {
        let key = index_keys[k].as_str();
        let drop = !artifact_named(entries, key) || key_listed(index_keys, k, key);
        assert(drop == dropped(entries@, index_keys@, k as int));
        if drop {
            let ghost before = names(drop_keys@);
            drop_keys.push(index_keys[k].clone());
            assert(names(drop_keys@) =~= before.push(index_keys@[k as int]@));
        }
        k += 1;
    }
    ReconcilePlan { delete_files, drop_keys }
}

/// Some index row naming `name` is its first.
proof fn lemma_first_row(keys: Seq<String>, i: int)
    requires
        0 <= i < keys.len(),
    ensures
        exists|f: int|
            0 <= f <= i && #[trigger] keys[f]@ == keys[i]@ && !exists|j: int|
                0 <= j < f && #[trigger] keys[j]@ == keys[f]@,
    decreases i,
{
    if exists|j: int| 0 <= j < i && #[trigger] keys[j]@ == keys[i]@ {
        let j = choose|j: int| 0 <= j < i && #[trigger] keys[j]@ == keys[i]@;
        lemma_first_row(keys, j);
    } else {
        assert(keys[i]@ == keys[i]@);
    }
}

/// Some index row of this name is kept.
pub open spec fn kept_in_index(entries: Seq<DirEntry>, keys: Seq<String>, name: Seq<char>) -> bool {
    exists|i: int| 0 <= i < keys.len() && #[trigger] keys[i]@ == name && !dropped(entries, keys, i)
}

/// Some file of this name is kept.
pub open spec fn kept_on_disk(entries: Seq<DirEntry>, keys: Seq<String>, name: Seq<char>) -> bool {
    exists|j: int| 0 <= j < entries.len() && #[trigger] entries[j].name@ == name && !deleted(entries, keys, name)
}

/// After the plan is carried out, index and directory agree: a name keeps
/// an index row exactly when a file of that name is kept, and every kept
/// file is an artifact. (Directory entries have distinct names.)
pub proof fn law_reconcile_leaves_index_and_disk_in_agreement(entries: Seq<DirEntry>, keys: Seq<String>)
    requires
        forall|i: int, j: int|
            0 <= i < j < entries.len() ==> #[trigger] entries[i].name@ != #[trigger] entries[j].name@,
    ensures
        forall|name: Seq<char>|
            #[trigger] kept_in_index(entries, keys, name) <==> kept_on_disk(entries, keys, name),
        forall|j: int|
            0 <= j < entries.len() && !deleted(entries, keys, #[trigger] entries[j].name@) ==> is_artifact(
                entries[j],
            ),
{
    assert forall|j: int|
        0 <= j < entries.len() && !deleted(entries, keys, #[trigger] entries[j].name@) implies is_artifact(
        entries[j],
    ) by {
        if !is_artifact(entries[j]) {
            assert(deleted(entries, keys, entries[j].name@));
        }
    }
    assert forall|name: Seq<char>|
        #[trigger] kept_in_index(entries, keys, name) <==> kept_on_disk(entries, keys, name) by {
        if exists|i: int| 0 <= i < keys.len() && #[trigger] keys[i]@ == name && !dropped(entries, keys, i) {
            let i = choose|i: int| 0 <= i < keys.len() && #[trigger] keys[i]@ == name && !dropped(entries, keys, i);
            assert(on_disk(entries, name));
            let j = choose|j: int| 0 <= j < entries.len() && is_artifact(#[trigger] entries[j]) && entries[j].name@ == name;
            assert(indexed(keys, name));
            if exists|k: int| 0 <= k < entries.len() && !is_artifact(#[trigger] entries[k]) && entries[k].name@ == name {
                let k = choose|k: int| 0 <= k < entries.len() && !is_artifact(#[trigger] entries[k]) && entries[k].name@ == name;
                if k < j {
                    assert(entries[k].name@ != entries[j].name@);
                } else if j < k {
                    assert(entries[j].name@ != entries[k].name@);
                }
            }
            assert(!deleted(entries, keys, name));
        }
        if exists|j: int| 0 <= j < entries.len() && #[trigger] entries[j].name@ == name && !deleted(entries, keys, name) {
            let j = choose|j: int| 0 <= j < entries.len() && #[trigger] entries[j].name@ == name && !deleted(entries, keys, name);
            if !is_artifact(entries[j]) {
                assert(deleted(entries, keys, name));
            }
            assert(on_disk(entries, name));
            assert(indexed(keys, name));
            let i = choose|i: int| 0 <= i < keys.len() && #[trigger] keys[i]@ == name;
            lemma_first_row(keys, i);
            let f = choose|f: int|
                0 <= f <= i && #[trigger] keys[f]@ == keys[i]@ && !exists|j: int|
                    0 <= j < f && #[trigger] keys[j]@ == keys[f]@;
            assert(!dropped(entries, keys, f));
        }
    }
}

/// Valid keys are safe file names: they hold no path separator and no dot.
pub proof fn law_valid_keys_are_plain_file_names(bytes: Seq<u8>)
    requires
        valid_key_bytes(bytes),
    ensures
        forall|i: int| 0 <= i < bytes.len() ==> #[trigger] bytes[i] != 0x2f && bytes[i] != 0x2e && bytes[i] != 0x5c,
        bytes.len() > 0,
{
    assert forall|i: int| 0 <= i < bytes.len() implies #[trigger] bytes[i] != 0x2f && bytes[i] != 0x2e
        && bytes[i] != 0x5c by {
        assert(is_lower_hex(bytes[i]));
    }
}

/// Without a token the cache is open: every write is authorized, whatever
/// the request carries.
pub proof fn law_writes_are_open_without_token(authorization: Option<Seq<char>>)
    ensures
        basic_auth_spec(None, authorization),
{
}

/// Exactly the Gradle cache keys are valid: 32 to 64 bytes, each a digit
/// `0`..=`9` (bytes 48..=57) or a letter `a`..=`f` (bytes 97..=102).
pub proof fn law_valid_keys_are_lowercase_hex(bytes: Seq<u8>)
    ensures
        valid_key_bytes(bytes) <==> (32 <= bytes.len() <= 64 && forall|i: int|
            0 <= i < bytes.len() ==> (48u8 <= #[trigger] bytes[i] && bytes[i] <= 57u8) || (97u8
                <= bytes[i] && bytes[i] <= 102u8)),
{
}

} // verus!
