//! Package loading from ZIP archives with manifest support.
//!
//! A package is an archive of CP/M files plus an optional `manifest.mf` JSON
//! file describing metadata, file entries and actions. The archive walking
//! and JSON parsing go through the zip and serde_json crates behind trusted
//! wrappers; everything the engine decides from the extracted values is
//! verified.

use vstd::prelude::*;
use vstd::slice::slice_to_vec;
use vstd::string::{StrSliceExecFns, StringSliceAdditionalSpecFns};

use crate::drive_fs::{normalize_83, to_8_3, DriveFS};
use crate::error::{CpmError, CpmResult};
use crate::fcb::upper_byte;
use crate::memory_drive::{byte_map, distinct_keys, find_entry, find_name, insert_entry,
    lemma_byte_map_contains, lemma_byte_map_lookup, lemma_upsert_absent, lemma_upsert_members,
    pairs_view, upsert};

verus! {

#[verifier::external_type_specification]
#[verifier::external_body]
pub struct ExValue(serde_json::Value);

#[verifier::external_type_specification]
#[verifier::external_body]
#[verifier::reject_recursive_types(R)]
pub struct ExZipArchive<R>(zip::ZipArchive<R>);

#[verifier::external_type_specification]
#[verifier::external_body]
#[verifier::reject_recursive_types(T)]
pub struct ExCursor<T>(std::io::Cursor<T>);

/// Whether the bytes parse as a ZIP archive; a function of the bytes alone.
pub uninterp spec fn zip_parses(data: Seq<u8>) -> bool;

/// The members of the ZIP archive the bytes hold, in central-directory
/// order: each member's path, whether it is a directory, and its
/// decompressed contents. A function of the bytes alone.
pub uninterp spec fn zip_entries_of(data: Seq<u8>) -> Seq<(Seq<char>, bool, Seq<u8>)>;

/// Whether every member of the archive the bytes hold decompresses
/// cleanly (no unsupported compression, encryption or corrupt stream).
/// A function of the bytes alone.
pub uninterp spec fn zip_entries_readable(data: Seq<u8>) -> bool;

/// What an open archive holds: the same member list, named on the archive
/// value so the reading wrappers can speak about it.
pub uninterp spec fn zip_members(a: zip::ZipArchive<std::io::Cursor<Vec<u8>>>) -> Seq<
    (Seq<char>, bool, Seq<u8>),
>;

/// Whether every member of an open archive reads cleanly; the second name
/// the archive's wrappers need.
pub uninterp spec fn zip_all_readable(a: zip::ZipArchive<std::io::Cursor<Vec<u8>>>) -> bool;

/// Relies on zip::ZipArchive::new reading the central directory of the
/// archive held in an in-memory cursor: success depends on the bytes alone,
/// and the archive then holds exactly the members the bytes describe. None
/// when the bytes are not a ZIP archive.
#[verifier::external_body]
fn zip_open(data: &[u8]) -> (r: Option<zip::ZipArchive<std::io::Cursor<Vec<u8>>>>)
    ensures
        r is Some <==> zip_parses(data@),
        r matches Some(a) ==> zip_members(a) == zip_entries_of(data@) && zip_all_readable(a)
            == zip_entries_readable(data@),
{
    zip::ZipArchive::new(std::io::Cursor::new(data.to_vec())).ok()
}

/// Relies on zip::ZipArchive::len: the number of members in the archive.
#[verifier::external_body]
fn zip_len(archive: &zip::ZipArchive<std::io::Cursor<Vec<u8>>>) -> (r: usize)
    ensures
        r == zip_members(*archive).len(),
{
    archive.len()
}

/// Relies on zip::ZipArchive::by_index and ZipFile's name, is_dir and Read:
/// on success, member `i`'s path, directory flag and decompressed bytes,
/// exactly as the archive holds them. The member borrows the archive, so
/// one wrapper makes all four calls; reading moves the cursor but the
/// members stay the same.
#[verifier::external_body]
fn zip_entry(archive: &mut zip::ZipArchive<std::io::Cursor<Vec<u8>>>, i: usize) -> (r: Option<
    (String, bool, Vec<u8>),
>)
    ensures
        zip_members(*final(archive)) == zip_members(*old(archive)),
        zip_all_readable(*final(archive)) == zip_all_readable(*old(archive)),
        zip_all_readable(*old(archive)) && i < zip_members(*old(archive)).len() ==> r is Some,
        r matches Some(t) ==> i < zip_members(*old(archive)).len() && t.0@ == zip_members(
            *old(archive),
        )[i as int].0 && t.1 == zip_members(*old(archive))[i as int].1 && t.2@ == zip_members(
            *old(archive),
        )[i as int].2,
{
    match archive.by_index(i) {
        Ok(mut f) => {
            let name = f.name().to_string();
            let dir = f.is_dir();
            let mut buf = Vec::new();
            match std::io::Read::read_to_end(&mut f, &mut buf) {
                Ok(_) => Some((name, dir, buf)),
                Err(_) => None,
            }
        },
        Err(_) => None,
    }
}

/// Relies on serde_json::from_slice: the JSON value the bytes parse to, or
/// None when they are not valid JSON.
#[verifier::external_body]
fn json_parse(bytes: &[u8]) -> (r: Option<serde_json::Value>) {
    serde_json::from_slice(bytes).ok()
}

/// Relies on serde_json::Value::get: the named field of a JSON object.
#[verifier::external_body]
fn json_get<'a>(v: &'a serde_json::Value, key: &str) -> (r: Option<&'a serde_json::Value>) {
    v.get(key)
}

/// Relies on serde_json::Value::as_str.
#[verifier::external_body]
fn json_as_str<'a>(v: &'a serde_json::Value) -> (r: Option<&'a str>) {
    v.as_str()
}

/// Relies on serde_json::Value::as_bool.
#[verifier::external_body]
fn json_as_bool(v: &serde_json::Value) -> (r: Option<bool>) {
    v.as_bool()
}

/// Relies on serde_json::Value::as_array.
#[verifier::external_body]
fn json_as_array<'a>(v: &'a serde_json::Value) -> (r: Option<&'a Vec<serde_json::Value>>) {
    v.as_array()
}

/// Relies on serde_json::Value::is_null.
#[verifier::external_body]
fn json_is_null(v: &serde_json::Value) -> (r: bool) {
    v.is_null()
}

/// Relies on serde_json::Value's Clone.
#[verifier::external_body]
fn json_clone(v: &serde_json::Value) -> (r: serde_json::Value) {
    v.clone()
}

/// Builds serde_json::Value::Null.
#[verifier::external_body]
fn json_null() -> (r: serde_json::Value) {
    serde_json::Value::Null
}

/// Builds serde_json::Value::String.
#[verifier::external_body]
fn json_string(s: String) -> (r: serde_json::Value) {
    serde_json::Value::String(s)
}

/// Builds serde_json::Value::Bool.
#[verifier::external_body]
fn json_bool(b: bool) -> (r: serde_json::Value) {
    serde_json::Value::Bool(b)
}

/// Builds serde_json::Value::Array.
#[verifier::external_body]
fn json_array(items: Vec<serde_json::Value>) -> (r: serde_json::Value) {
    serde_json::Value::Array(items)
}

/// Builds serde_json::Value::Object from field/value pairs.
#[verifier::external_body]
fn json_object(pairs: Vec<(String, serde_json::Value)>) -> (r: serde_json::Value) {
    serde_json::Value::Object(pairs.into_iter().collect())
}

/// Relies on serde_json::to_string_pretty, which cannot fail on a Value.
#[verifier::external_body]
fn json_to_string_pretty(v: &serde_json::Value) -> (r: String) {
    serde_json::to_string_pretty(v).unwrap_or_default()
}

/// Action defined in a package manifest.
#[derive(Clone)]
pub struct PackageAction {
    pub id: String,
    pub name: String,
    pub command: String,
    pub patterns: Vec<String>,
    pub output_exts: Vec<String>,
    pub submit: Option<String>,
    pub interactive_script: Option<Vec<InteractiveStep>>,
    /// Package that provides this action (filled at load time).
    pub package: Option<String>,
}

/// Interactive script step for menu-driven tools.
#[derive(Clone)]
pub struct InteractiveStep {
    pub wait: String,
    pub send: String,
}

/// File entry in a package manifest.
#[derive(Clone)]
pub struct FileEntry {
    pub src: String,
    pub dst: Option<String>,
    pub required: Option<bool>,
    pub load_address: Option<String>,
    pub file_type: Option<String>,
}

/// Package manifest schema.
#[derive(Clone)]
pub struct PackageManifest {
    pub id: Option<String>,
    pub name: String,
    pub version: Option<String>,
    pub description: Option<String>,
    pub output_dir: Option<String>,
    pub files: Vec<FileEntry>,
    pub meta: Option<serde_json::Value>,
    pub actions: Vec<PackageAction>,
}

/// A loaded package: its manifest, its files keyed by normalized 8.3 name,
/// and its actions.
#[derive(Clone)]
pub struct LoadedPackage {
    pub manifest: PackageManifest,
    pub files: Vec<(String, Vec<u8>)>,
    pub actions: Vec<PackageAction>,
}


/// Relies on Iterator::collect for String: a vector of characters collects
/// into the string of exactly those characters.
#[verifier::external_body]
pub fn string_from_chars(chars: Vec<char>) -> (r: String)
    ensures
        r@ == chars@,
{
    chars.into_iter().collect()
}

/// The characters of a string, as a vector.
pub fn str_chars(s: &str) -> (r: Vec<char>)
    ensures
        r@ == s@,
{
    let n = s.unicode_len();
    let mut r: Vec<char> = Vec::new();
    let mut i: usize = 0;
    while i < n
        invariant
            i <= n,
            n == s@.len(),
            r@ =~= s@.take(i as int),
        decreases n - i,
    {
        r.push(s.get_char(i));
        proof {
            assert(r@ =~= s@.take(i as int + 1));
        }
        i += 1;
    }
    proof {
        assert(s@.take(n as int) =~= s@);
    }
    r
}

/// ASCII-uppercased copy of a byte string.
fn upper_bytes_vec(s: &[u8]) -> (r: Vec<u8>)
    ensures
        r@ == s@.map_values(|b: u8| upper_byte(b)),
{
    let mut r: Vec<u8> = Vec::new();
    let mut i: usize = 0;
    while i < s.len()
        invariant
            i <= s@.len(),
            r@ =~= s@.take(i as int).map_values(|b: u8| upper_byte(b)),
        decreases s@.len() - i,
    {
        let b = s[i];
        let u: u8 = if 97 <= b && b <= 122 {
            b - 32
        } else {
            b
        };
        r.push(u);
        proof {
            assert(r@ =~= s@.take(i as int + 1).map_values(|x: u8| upper_byte(x)));
        }
        i += 1;
    }
    proof {
        assert(s@.take(s@.len() as int) =~= s@);
    }
    r
}

/// Whether `a` ends with `suffix`.
fn bytes_end_with(a: &Vec<u8>, suffix: &Vec<u8>) -> (r: bool)
    ensures
        r == (a@.len() >= suffix@.len() && a@.skip(a@.len() - suffix@.len()) == suffix@),
{
    if a.len() < suffix.len() {
        return false;
    }
    let start = a.len() - suffix.len();
    let mut i: usize = 0;
    while i < suffix.len()
        invariant
            i <= suffix@.len(),
            start == a@.len() - suffix@.len(),
            start + suffix@.len() == a@.len(),
            a@.len() >= suffix@.len(),
            a@.len() <= usize::MAX,
            forall|j: int| 0 <= j < i ==> a@[start + j] == suffix@[j],
        decreases suffix@.len() - i,
    {
        if a[start + i] != suffix[i] {
            proof {
                assert(a@.skip(a@.len() - suffix@.len())[i as int] != suffix@[i as int]);
            }
            return false;
        }
        i += 1;
    }
    proof {
        assert(a@.skip(a@.len() - suffix@.len()) =~= suffix@);
    }
    true
}

/// Whether two character vectors hold the same characters.
pub(crate) fn chars_eq(a: &Vec<char>, b: &Vec<char>) -> (r: bool)
    ensures
        r == (a@ == b@),
{
    if a.len() != b.len() {
        proof {
            assert(a@ != b@);
        }
        return false;
    }
    let mut i: usize = 0;
    while i < a.len()
        invariant
            i <= a@.len(),
            a@.len() == b@.len(),
            forall|j: int| 0 <= j < i ==> a@[j] == b@[j],
        decreases a@.len() - i,
    {
        if a[i] != b[i] {
            return false;
        }
        i += 1;
    }
    proof {
        assert(a@ =~= b@);
    }
    true
}

/// Whether two byte vectors hold the same bytes.
pub(crate) fn bytes_eq(a: &Vec<u8>, b: &Vec<u8>) -> (r: bool)
    ensures
        r == (a@ == b@),
{
    if a.len() != b.len() {
        proof {
            assert(a@ != b@);
        }
        return false;
    }
    let mut i: usize = 0;
    while i < a.len()
        invariant
            i <= a@.len(),
            a@.len() == b@.len(),
            forall|j: int| 0 <= j < i ==> a@[j] == b@[j],
        decreases a@.len() - i,
    {
        if a[i] != b[i] {
            return false;
        }
        i += 1;
    }
    proof {
        assert(a@ =~= b@);
    }
    true
}

/// Optional string field of a JSON object: absent or null is None; a string
/// is Some; any other type fails like the manifest schema does.
fn opt_string_field(v: &serde_json::Value, key: &str) -> (r: Option<Option<String>>) {
    match json_get(v, key) {
        None => Some(None),
        Some(x) => {
            if json_is_null(x) {
                Some(None)
            } else {
                match json_as_str(x) {
                    Some(s) => Some(Some(s.to_owned())),
                    None => None,
                }
            }
        },
    }
}

/// A file entry per the manifest schema: `src` required, the rest optional.
fn file_entry_from_value(v: &serde_json::Value) -> (r: Option<FileEntry>) {
    let src = match json_get(v, "src") {
        Some(x) => match json_as_str(x) {
            Some(s) => s.to_owned(),
            None => {
                return None;
            },
        },
        None => {
            return None;
        },
    };
    let dst = match opt_string_field(v, "dst") {
        Some(o) => o,
        None => {
            return None;
        },
    };
    let required = match json_get(v, "required") {
        None => None,
        Some(x) => {
            if json_is_null(x) {
                None
            } else {
                match json_as_bool(x) {
                    Some(b) => Some(b),
                    None => {
                        return None;
                    },
                }
            }
        },
    };
    let load_address = match opt_string_field(v, "loadAddress") {
        Some(o) => o,
        None => {
            return None;
        },
    };
    let file_type = match opt_string_field(v, "type") {
        Some(o) => o,
        None => {
            return None;
        },
    };
    Some(FileEntry { src, dst, required, load_address, file_type })
}

/// A list of strings; an absent field is the empty list.
fn string_list_field(v: &serde_json::Value, key: &str) -> (r: Option<Vec<String>>) {
    match json_get(v, key) {
        None => Some(Vec::new()),
        Some(x) => match json_as_array(x) {
            Some(items) => {
                let mut out: Vec<String> = Vec::new();
                let mut i: usize = 0;
                while i < items.len()
                    invariant
                        i <= items@.len(),
                    decreases items@.len() - i,
                {
                    match json_as_str(&items[i]) {
                        Some(s) => out.push(s.to_owned()),
                        None => {
                            return None;
                        },
                    }
                    i += 1;
                }
                Some(out)
            },
            None => None,
        },
    }
}

/// An action per the manifest schema.
fn action_from_value(v: &serde_json::Value) -> (r: Option<PackageAction>) {
    let id = match json_get(v, "id") {
        Some(x) => match json_as_str(x) {
            Some(s) => s.to_owned(),
            None => {
                return None;
            },
        },
        None => {
            return None;
        },
    };
    let name = match json_get(v, "name") {
        Some(x) => match json_as_str(x) {
            Some(s) => s.to_owned(),
            None => {
                return None;
            },
        },
        None => {
            return None;
        },
    };
    let command = match json_get(v, "command") {
        Some(x) => match json_as_str(x) {
            Some(s) => s.to_owned(),
            None => {
                return None;
            },
        },
        None => {
            return None;
        },
    };
    let patterns = match string_list_field(v, "patterns") {
        Some(p) => p,
        None => {
            return None;
        },
    };
    let output_exts = match string_list_field(v, "outputExts") {
        Some(p) => p,
        None => {
            return None;
        },
    };
    let submit = match opt_string_field(v, "submit") {
        Some(o) => o,
        None => {
            return None;
        },
    };
    let interactive_script = match json_get(v, "interactiveScript") {
        None => None,
        Some(x) => {
            if json_is_null(x) {
                None
            } else {
                match json_as_array(x) {
                    Some(items) => {
                        let mut steps: Vec<InteractiveStep> = Vec::new();
                        let mut i: usize = 0;
                        while i < items.len()
                            invariant
                                i <= items@.len(),
                            decreases items@.len() - i,
                        {
                            let wait = match json_get(&items[i], "wait") {
                                Some(w) => match json_as_str(w) {
                                    Some(s) => s.to_owned(),
                                    None => {
                                        return None;
                                    },
                                },
                                None => {
                                    return None;
                                },
                            };
                            let send = match json_get(&items[i], "send") {
                                Some(w) => match json_as_str(w) {
                                    Some(s) => s.to_owned(),
                                    None => {
                                        return None;
                                    },
                                },
                                None => {
                                    return None;
                                },
                            };
                            steps.push(InteractiveStep { wait, send });
                            i += 1;
                        }
                        Some(steps)
                    },
                    None => {
                        return None;
                    },
                }
            }
        },
    };
    Some(
        PackageAction {
            id,
            name,
            command,
            patterns,
            output_exts,
            submit,
            interactive_script,
            package: None,
        },
    )
}

/// A manifest per the schema: `name` required, everything else optional.
fn manifest_from_value(v: &serde_json::Value) -> (r: Option<PackageManifest>) {
    let name = match json_get(v, "name") {
        Some(x) => match json_as_str(x) {
            Some(s) => s.to_owned(),
            None => {
                return None;
            },
        },
        None => {
            return None;
        },
    };
    let id = match opt_string_field(v, "id") {
        Some(o) => o,
        None => {
            return None;
        },
    };
    let version = match opt_string_field(v, "version") {
        Some(o) => o,
        None => {
            return None;
        },
    };
    let description = match opt_string_field(v, "description") {
        Some(o) => o,
        None => {
            return None;
        },
    };
    let output_dir = match opt_string_field(v, "outputDir") {
        Some(o) => o,
        None => {
            return None;
        },
    };
    let files = match json_get(v, "files") {
        None => Vec::new(),
        Some(x) => match json_as_array(x) {
            Some(items) => {
                let mut out: Vec<FileEntry> = Vec::new();
                let mut i: usize = 0;
                while i < items.len()
                    invariant
                        i <= items@.len(),
                    decreases items@.len() - i,
                {
                    match file_entry_from_value(&items[i]) {
                        Some(fe) => out.push(fe),
                        None => {
                            return None;
                        },
                    }
                    i += 1;
                }
                out
            },
            None => {
                return None;
            },
        },
    };
    let meta = match json_get(v, "meta") {
        None => None,
        Some(x) => Some(json_clone(x)),
    };
    let actions = match json_get(v, "actions") {
        None => Vec::new(),
        Some(x) => match json_as_array(x) {
            Some(items) => {
                let mut out: Vec<PackageAction> = Vec::new();
                let mut i: usize = 0;
                while i < items.len()
                    invariant
                        i <= items@.len(),
                    decreases items@.len() - i,
                {
                    match action_from_value(&items[i]) {
                        Some(a) => out.push(a),
                        None => {
                            return None;
                        },
                    }
                    i += 1;
                }
                out
            },
            None => {
                return None;
            },
        },
    };
    Some(PackageManifest { id, name, version, description, output_dir, files, meta, actions })
}

/// Manifest data normalized to a list: a JSON array yields one manifest per
/// element (all must parse), a single object yields one, anything else none.
fn manifests_from_value(v: &serde_json::Value) -> (r: Vec<PackageManifest>) {
    match json_as_array(v) {
        Some(items) => {
            let mut out: Vec<PackageManifest> = Vec::new();
            let mut i: usize = 0;
            while i < items.len()
                invariant
                    i <= items@.len(),
                decreases items@.len() - i,
            {
                match manifest_from_value(&items[i]) {
                    Some(m) => out.push(m),
                    None => {
                        return Vec::new();
                    },
                }
                i += 1;
            }
            out
        },
        None => {
            match manifest_from_value(v) {
                Some(m) => {
                    let mut out: Vec<PackageManifest> = Vec::new();
                    out.push(m);
                    out
                },
                None => Vec::new(),
            }
        },
    }
}


/// Index of the last `/` in `s`, or -1 if there is none.
pub open spec fn last_slash(s: Seq<char>) -> int
    decreases s.len(),
{
    if s.len() == 0 {
        -1
    } else if s.last() == '/' {
        s.len() - 1
    } else {
        last_slash(s.drop_last())
    }
}

proof fn lemma_last_slash_at(s: Seq<char>, k: int)
    requires
        0 <= k < s.len(),
        s[k] == '/',
        forall|j: int| k < j < s.len() ==> s[j] != '/',
    ensures
        last_slash(s) == k,
    decreases s.len(),
{
    if k < s.len() - 1 {
        assert(s.drop_last()[k] == '/');
        lemma_last_slash_at(s.drop_last(), k);
    }
}

proof fn lemma_last_slash_none(s: Seq<char>)
    requires
        forall|j: int| 0 <= j < s.len() ==> s[j] != '/',
    ensures
        last_slash(s) == -1,
    decreases s.len(),
{
    if s.len() > 0 {
        lemma_last_slash_none(s.drop_last());
    }
}

/// The last path segment of a member name: everything after the final `/`.
pub open spec fn spec_basename(s: Seq<char>) -> Seq<char> {
    if last_slash(s) < 0 {
        s
    } else {
        s.skip(last_slash(s) + 1)
    }
}

/// The last path segment of an archive member name (after the final `/`).
fn basename_chars(name: &str) -> (r: Vec<char>)
    ensures
        r@ == spec_basename(name@),
{
    let chars = str_chars(name);
    let mut cut: usize = 0;
    let mut i: usize = 0;
    while i < chars.len()
        invariant
            i <= chars@.len(),
            chars@ == name@,
            cut <= i,
            cut == 0 ==> forall|j: int| 0 <= j < i ==> chars@[j] != '/',
            cut > 0 ==> chars@[cut - 1] == '/' && forall|j: int| cut <= j < i ==> chars@[j] != '/',
        decreases chars@.len() - i,
    {
        if chars[i] == '/' {
            cut = i + 1;
        }
        i += 1;
    }
    proof {
        if cut == 0 {
            lemma_last_slash_none(name@);
        } else {
            lemma_last_slash_at(name@, cut - 1);
        }
    }
    let mut out: Vec<char> = Vec::new();
    let mut j: usize = cut;
    while j < chars.len()
        invariant
            cut <= j <= chars@.len(),
            chars@ == name@,
            out@ =~= chars@.subrange(cut as int, j as int),
        decreases chars@.len() - j,
    {
        out.push(chars[j]);
        proof {
            assert(out@ =~= chars@.subrange(cut as int, j as int + 1));
        }
        j += 1;
    }
    proof {
        if cut == 0 {
            assert(out@ =~= name@);
        } else {
            assert(out@ =~= name@.skip(cut as int));
        }
    }
    out
}

/// ASCII uppercase of a byte sequence.
pub open spec fn upper_byte_seq(s: Seq<u8>) -> Seq<u8> {
    s.map_values(|b: u8| upper_byte(b))
}

/// Whether an archive member name is the manifest file: its uppercased
/// bytes equal `MANIFEST.MF` or end with `/MANIFEST.MF`.
pub open spec fn is_manifest_member(name: Seq<char>) -> bool {
    let ub = upper_byte_seq(vstd::utf8::encode_utf8(name));
    let mf = vstd::utf8::encode_utf8("MANIFEST.MF"@);
    let mfs = vstd::utf8::encode_utf8("/MANIFEST.MF"@);
    ub == mf || (ub.len() >= mfs.len() && ub.skip(ub.len() - mfs.len()) == mfs)
}

/// Whether any member of the archive is a (non-directory) manifest file.
pub open spec fn has_manifest_member(entries: Seq<(Seq<char>, bool, Seq<u8>)>) -> bool {
    exists|i: int|
        0 <= i < entries.len() && !(#[trigger] entries[i]).1 && is_manifest_member(entries[i].0)
}

/// The files gathered from archive members, in order: every non-directory
/// member that is not the manifest, stored under the 8.3 form of its last
/// path segment, a later member overriding an earlier one of the same name.
pub open spec fn gather_files(entries: Seq<(Seq<char>, bool, Seq<u8>)>) -> Seq<
    (Seq<char>, Seq<u8>),
>
    decreases entries.len(),
{
    if entries.len() == 0 {
        Seq::empty()
    } else {
        let rest = gather_files(entries.drop_last());
        let e = entries.last();
        if !e.1 && !is_manifest_member(e.0) {
            upsert(rest, normalize_83(spec_basename(e.0)), e.2)
        } else {
            rest
        }
    }
}

/// Whether the pair appears among the gathered archive files.
pub open spec fn assoc_has(s: Seq<(Seq<char>, Seq<u8>)>, k: Seq<char>, v: Seq<u8>) -> bool {
    exists|i: int| 0 <= i < s.len() && (#[trigger] s[i]) == (k, v)
}

/// Load packages from the bytes of a ZIP archive. A member named
/// `manifest.mf` (at any depth, case-insensitively) is parsed as JSON: an
/// array yields several manifests, an object one, a parse failure none.
/// Every other member is stored under the 8.3 form of its last path
/// segment. With no manifest, one is synthesized naming every file. Each
/// manifest takes the files it lists; files no manifest lists go to the
/// first package.
#[verifier::rlimit(80)]
pub fn load_packages(data: &[u8]) -> (r: CpmResult<Vec<LoadedPackage>>)
    ensures
        r matches Err(e) ==> e == CpmError::ArchiveFormat,
        zip_parses(data@) && zip_entries_readable(data@) ==> r is Ok,
        r matches Ok(pkgs) ==> ({
            let entries = zip_entries_of(data@);
            let avail = gather_files(entries);
            &&& zip_parses(data@)
            &&& pkgs@.len() >= 1
            &&& (forall|p: int, k: int|
                0 <= p < pkgs@.len() && 0 <= k < pkgs@[p].files@.len() ==> assoc_has(
                    avail,
                    (#[trigger] pkgs@[p].files@[k]).0@,
                    pkgs@[p].files@[k].1@,
                ))
            &&& (forall|p: int|
                0 <= p < pkgs@.len() ==> (#[trigger] pkgs@[p]).actions@.len()
                    == pkgs@[p].manifest.actions@.len())
            &&& (forall|p: int, k: int|
                0 <= p < pkgs@.len() && 0 <= k < pkgs@[p].actions@.len() ==> ({
                    let tag = (#[trigger] pkgs@[p].actions@[k]).package;
                    &&& tag is Some
                    &&& (pkgs@[p].manifest.id matches Some(idv) ==> tag->0@ == idv@)
                    &&& (pkgs@[p].manifest.id is None ==> tag->0@ == pkgs@[p].manifest.name@)
                }))
            &&& (!has_manifest_member(entries) ==> {
                &&& pkgs@.len() == 1
                &&& pairs_view(pkgs@[0].files@) == avail
                &&& pkgs@[0].manifest.name@ == "Unknown Package"@
                &&& pkgs@[0].manifest.id is None
                &&& pkgs@[0].manifest.files@.len() == avail.len()
                &&& (forall|j: int|
                    0 <= j < avail.len() ==> ({
                        let fe = #[trigger] pkgs@[0].manifest.files@[j];
                        fe.src@ == avail[j].0 && fe.dst is None && fe.required is None
                            && fe.load_address is None && fe.file_type is None
                    }))
                &&& pkgs@[0].manifest.actions@.len() == 0
                &&& pkgs@[0].actions@.len() == 0
            })
        }),
{
    let ghost entries = zip_entries_of(data@);
    let mut archive = match zip_open(data) {
        Some(a) => a,
        None => {
            return Err(CpmError::ArchiveFormat);
        },
    };
    let n = zip_len(&archive);
    let mut all_files: Vec<(String, Vec<u8>)> = Vec::new();
    let mut manifests: Vec<PackageManifest> = Vec::new();
    let mut i: usize = 0;
    proof {
        assert(entries.take(0) =~= Seq::<(Seq<char>, bool, Seq<u8>)>::empty());
        assert(pairs_view(all_files@) =~= gather_files(entries.take(0)));
    }
    while i < n
        invariant
            i <= n,
            n == entries.len(),
            zip_members(archive) == entries,
            zip_all_readable(archive) == zip_entries_readable(data@),
            distinct_keys(all_files@),
            pairs_view(all_files@) == gather_files(entries.take(i as int)),
            forall|k: int|
                0 <= k < all_files@.len() ==> normalize_83((#[trigger] all_files@[k]).0@)
                    == all_files@[k].0@,
            !has_manifest_member(entries.take(i as int)) ==> manifests@.len() == 0,
        decreases n - i,
    {
        let entry = match zip_entry(&mut archive, i) {
            Some(e) => e,
            None => {
                proof {
                    assert(!zip_entries_readable(data@));
                }
                return Err(CpmError::ArchiveFormat);
            },
        };
        let (name, is_dir, content) = entry;
        proof {
            assert(name@ == entries[i as int].0);
            assert(is_dir == entries[i as int].1);
            assert(content@ == entries[i as int].2);
            assert(entries.take(i as int + 1).drop_last() =~= entries.take(i as int));
            assert(entries.take(i as int + 1).last() == entries[i as int]);
        }
        if !is_dir {
            let upper = upper_bytes_vec(name.as_str().as_bytes());
            let mf = slice_to_vec("MANIFEST.MF".as_bytes());
            let mf_slash = slice_to_vec("/MANIFEST.MF".as_bytes());
            let is_mf = bytes_eq(&upper, &mf) || bytes_end_with(&upper, &mf_slash);
            proof {
                assert(upper@ == upper_byte_seq(vstd::utf8::encode_utf8(entries[i as int].0)));
                assert(mf@ == vstd::utf8::encode_utf8("MANIFEST.MF"@));
                assert(mf_slash@ == vstd::utf8::encode_utf8("/MANIFEST.MF"@));
                assert(is_mf == is_manifest_member(entries[i as int].0));
            }
            if is_mf {
                match json_parse(content.as_slice()) {
                    Some(v) => {
                        manifests = manifests_from_value(&v);
                    },
                    None => {},
                }
                proof {
                    assert(has_manifest_member(entries.take(i as int + 1))) by {
                        assert(!entries.take(i as int + 1)[i as int].1 && is_manifest_member(
                            entries.take(i as int + 1)[i as int].0,
                        ));
                    }
                }
            } else {
                let base = string_from_chars(basename_chars(name.as_str()));
                let key = to_8_3(base.as_str());
                let ghost pre_files = all_files@;
                proof {
                    crate::drive_fs::lemma_normalize_idempotent(spec_basename(
                        entries[i as int].0,
                    ));
                }
                insert_entry(&mut all_files, key, content);
                proof {
                    assert(pairs_view(all_files@) == upsert(
                        pairs_view(pre_files),
                        normalize_83(spec_basename(entries[i as int].0)),
                        entries[i as int].2,
                    ));
                    lemma_upsert_members(
                        pairs_view(pre_files),
                        normalize_83(spec_basename(entries[i as int].0)),
                        entries[i as int].2,
                    );
                    assert forall|k: int| 0 <= k < all_files@.len() implies normalize_83(
                        (#[trigger] all_files@[k]).0@,
                    ) == all_files@[k].0@ by {
                        assert(pairs_view(all_files@)[k] == (all_files@[k].0@, all_files@[k].1@));
                        if pairs_view(all_files@)[k] != (
                            normalize_83(spec_basename(entries[i as int].0)),
                            entries[i as int].2,
                        ) {
                            let j = choose|j: int|
                                0 <= j < pre_files.len() && (#[trigger] pairs_view(pre_files)[j])
                                    == pairs_view(all_files@)[k];
                            assert(pairs_view(pre_files)[j] == (pre_files[j].0@, pre_files[j].1@));
                        }
                    }
                    if !has_manifest_member(entries.take(i as int + 1)) {
                        assert(!has_manifest_member(entries.take(i as int))) by {
                            if has_manifest_member(entries.take(i as int)) {
                                let t = choose|t: int|
                                    0 <= t < i as int && !(#[trigger] entries.take(
                                        i as int,
                                    )[t]).1 && is_manifest_member(entries.take(i as int)[t].0);
                                assert(!entries.take(i as int + 1)[t].1 && is_manifest_member(
                                    entries.take(i as int + 1)[t].0,
                                ));
                            }
                        }
                    }
                }
            }
        } else {
            proof {
                if !has_manifest_member(entries.take(i as int + 1)) {
                    if has_manifest_member(entries.take(i as int)) {
                        let t = choose|t: int|
                            0 <= t < i as int && !(#[trigger] entries.take(i as int)[t]).1
                                && is_manifest_member(entries.take(i as int)[t].0);
                        assert(!entries.take(i as int + 1)[t].1 && is_manifest_member(
                            entries.take(i as int + 1)[t].0,
                        ));
                    }
                }
            }
        }
        proof {
            if !has_manifest_member(entries.take(i as int + 1)) && has_manifest_member(
                entries.take(i as int),
            ) {
                let t = choose|t: int|
                    0 <= t < i as int && !(#[trigger] entries.take(i as int)[t]).1
                        && is_manifest_member(entries.take(i as int)[t].0);
                assert(!entries.take(i as int + 1)[t].1 && is_manifest_member(
                    entries.take(i as int + 1)[t].0,
                ));
            }
        }
        i += 1;
    }
    proof {
        assert(entries.take(n as int) =~= entries);
    }
    let ghost avail = pairs_view(all_files@);
    let ghost nm = !has_manifest_member(entries);
    proof {
        if nm {
            assert(manifests@.len() == 0);
        }
    }
    if manifests.len() == 0 {
        let mut file_list: Vec<FileEntry> = Vec::new();
        let mut j: usize = 0;
        while j < all_files.len()
            invariant
                j <= all_files@.len(),
                file_list@.len() == j,
                forall|t: int|
                    0 <= t < j ==> ({
                        let fe = #[trigger] file_list@[t];
                        fe.src@ == all_files@[t].0@ && fe.dst is None && fe.required is None
                            && fe.load_address is None && fe.file_type is None
                    }),
            decreases all_files@.len() - j,
        {
            file_list.push(
                FileEntry {
                    src: all_files[j].0.clone(),
                    dst: None,
                    required: None,
                    load_address: None,
                    file_type: None,
                },
            );
            j += 1;
        }
        manifests.push(
            PackageManifest {
                id: None,
                name: String::from_str("Unknown Package"),
                version: None,
                description: None,
                output_dir: None,
                files: file_list,
                meta: None,
                actions: Vec::new(),
            },
        );
    }
    let ghost synth = manifests@.len() == 1 && manifests@[0].id is None && manifests@[0].name@
        == "Unknown Package"@ && manifests@[0].files@.len() == avail.len() && (forall|t: int|
        0 <= t < avail.len() ==> ({
            let fe = #[trigger] manifests@[0].files@[t];
            fe.src@ == avail[t].0 && fe.dst is None && fe.required is None && fe.load_address
                is None && fe.file_type is None
        })) && manifests@[0].actions@.len() == 0;
    proof {
        if nm {
            assert forall|t: int| 0 <= t < avail.len() implies ({
                let fe = #[trigger] manifests@[0].files@[t];
                fe.src@ == avail[t].0 && fe.dst is None && fe.required is None && fe.load_address
                    is None && fe.file_type is None
            }) by {
                assert(avail[t] == (all_files@[t].0@, all_files@[t].1@));
            }
            assert(synth);
        }
    }
    let ghost m_count = manifests@.len();
    let mut packages: Vec<LoadedPackage> = Vec::new();
    let mut assigned: Vec<String> = Vec::new();
    let mut done: usize = 0;
    let m_total: usize = manifests.len();
    while manifests.len() > 0
        invariant
            done + manifests@.len() == m_total,
            m_total == m_count,
            m_count >= 1,
            synth ==> m_count == 1,
            packages@.len() == done,
            avail == pairs_view(all_files@),
            distinct_keys(all_files@),
            forall|k: int|
                0 <= k < all_files@.len() ==> normalize_83((#[trigger] all_files@[k]).0@)
                    == all_files@[k].0@,
            synth ==> (done == 0 ==> manifests@.len() == 1 && manifests@[0].id is None
                && manifests@[0].name@ == "Unknown Package"@ && manifests@[0].files@.len()
                == avail.len() && (forall|t: int|
                0 <= t < avail.len() ==> ({
                    let fe = #[trigger] manifests@[0].files@[t];
                    fe.src@ == avail[t].0 && fe.dst is None && fe.required is None
                        && fe.load_address is None && fe.file_type is None
                })) && manifests@[0].actions@.len() == 0),
            forall|p: int|
                0 <= p < packages@.len() ==> distinct_keys((#[trigger] packages@[p]).files@),
            forall|p: int, k: int|
                0 <= p < packages@.len() && 0 <= k < packages@[p].files@.len() ==> assoc_has(
                    avail,
                    (#[trigger] packages@[p].files@[k]).0@,
                    packages@[p].files@[k].1@,
                ),
            forall|p: int|
                0 <= p < packages@.len() ==> (#[trigger] packages@[p]).actions@.len()
                    == packages@[p].manifest.actions@.len(),
            forall|p: int, k: int|
                0 <= p < packages@.len() && 0 <= k < packages@[p].actions@.len() ==> ({
                    let tag = (#[trigger] packages@[p].actions@[k]).package;
                    &&& tag is Some
                    &&& (packages@[p].manifest.id matches Some(idv) ==> tag->0@ == idv@)
                    &&& (packages@[p].manifest.id is None ==> tag->0@
                        == packages@[p].manifest.name@)
                }),
            synth ==> (done == 1 ==> pairs_view(packages@[0].files@) == avail
                && packages@[0].manifest.id is None && packages@[0].manifest.name@
                == "Unknown Package"@ && packages@[0].manifest.files@.len() == avail.len() && (
            forall|t: int|
                0 <= t < avail.len() ==> ({
                    let fe = #[trigger] packages@[0].manifest.files@[t];
                    fe.src@ == avail[t].0 && fe.dst is None && fe.required is None
                        && fe.load_address is None && fe.file_type is None
                })) && packages@[0].manifest.actions@.len() == 0 && packages@[0].actions@.len()
                == 0),
            synth ==> (done == 0 ==> assigned@.len() == 0),
            synth ==> (done == 1 ==> assigned@.len() == avail.len() && (forall|t: int|
                0 <= t < avail.len() ==> (#[trigger] assigned@[t])@ == avail[t].0)),
        decreases manifests@.len(),
    {
        let manifest = manifests.remove(0);
        let mut pkg_files: Vec<(String, Vec<u8>)> = Vec::new();
        let mut j: usize = 0;
        let f_total: usize = manifest.files.len();
        while j < f_total
            invariant
                j <= f_total,
                f_total == manifest.files@.len(),
                synth ==> done == 0,
                distinct_keys(pkg_files@),
                avail == pairs_view(all_files@),
                distinct_keys(all_files@),
                forall|k: int|
                    0 <= k < all_files@.len() ==> normalize_83((#[trigger] all_files@[k]).0@)
                        == all_files@[k].0@,
                forall|k: int|
                    0 <= k < pkg_files@.len() ==> assoc_has(
                        avail,
                        (#[trigger] pkg_files@[k]).0@,
                        pkg_files@[k].1@,
                    ),
                synth && done == 0 ==> (manifest.files@.len() == avail.len() && (forall|t: int|
                    0 <= t < avail.len() ==> (#[trigger] manifest.files@[t]).src@ == avail[t].0)
                    && pairs_view(pkg_files@) == avail.take(j as int)),
                synth && done == 0 ==> (assigned@.len() == j && (forall|t: int|
                    0 <= t < j ==> (#[trigger] assigned@[t])@ == avail[t].0)),
            decreases f_total - j,
        {
            let fname = to_8_3(manifest.files[j].src.as_str());
            proof {
                if synth && done == 0 {
                    assert(manifest.files@[j as int].src@ == avail[j as int].0);
                    assert(normalize_83(avail[j as int].0) == avail[j as int].0) by {
                        assert(avail[j as int] == (all_files@[j as int].0@, all_files@[j as int].1@));
                    }
                    assert(fname@ == avail[j as int].0);
                }
            }
            match find_entry(&all_files, &fname) {
                Some(k) => {
                    let content = slice_to_vec(all_files[k].1.as_slice());
                    let key2 = fname.clone();
                    let ghost pre_pkg = pkg_files@;
                    proof {
                        assert(assoc_has(avail, fname@, content@)) by {
                            assert(avail[k as int] == (all_files@[k as int].0@, all_files@[k as int].1@));
                        }
                    }
                    insert_entry(&mut pkg_files, fname, content);
                    proof {
                        lemma_upsert_members(pairs_view(pre_pkg), key2@, content@);
                        assert forall|t: int| 0 <= t < pkg_files@.len() implies assoc_has(
                            avail,
                            (#[trigger] pkg_files@[t]).0@,
                            pkg_files@[t].1@,
                        ) by {
                            assert(pairs_view(pkg_files@)[t] == (pkg_files@[t].0@, pkg_files@[t].1@));
                            if pairs_view(pkg_files@)[t] != (key2@, content@) {
                                let u = choose|u: int|
                                    0 <= u < pre_pkg.len() && (#[trigger] pairs_view(pre_pkg)[u])
                                        == pairs_view(pkg_files@)[t];
                                assert(pairs_view(pre_pkg)[u] == (pre_pkg[u].0@, pre_pkg[u].1@));
                                assert(assoc_has(avail, pre_pkg[u].0@, pre_pkg[u].1@));
                            }
                        }
                        if synth && done == 0 {
                            // the looked-up entry is exactly entry j
                            assert(all_files@[k as int].0@ == avail[k as int].0);
                            assert(avail[j as int].0 == avail[k as int].0);
                            assert(k as int == j as int) by {
                                if k as int != j as int {
                                    assert(all_files@[k as int].0@ == all_files@[j as int].0@);
                                }
                            }
                            assert(content@ == avail[j as int].1) by {
                                assert(avail[j as int] == (all_files@[j as int].0@, all_files@[j as int].1@));
                            }
                            assert(forall|t: int|
                                0 <= t < pre_pkg.len() ==> (#[trigger] pairs_view(pre_pkg)[t]).0
                                    == avail.take(j as int)[t].0);
                            assert forall|t: int| 0 <= t < pre_pkg.len() implies (
                            #[trigger] pre_pkg[t]).0@ != fname@ by {
                                assert(pairs_view(pre_pkg)[t].0 == pre_pkg[t].0@);
                                assert(avail.take(j as int)[t].0 == avail[t].0);
                                if avail[t].0 == avail[j as int].0 {
                                    assert(all_files@[t].0@ == all_files@[j as int].0@);
                                }
                            }
                            lemma_upsert_absent(pairs_view(pre_pkg), fname@, content@);
                            assert(pairs_view(pkg_files@) =~= avail.take(j as int).push(
                                avail[j as int],
                            ));
                            assert(pairs_view(pkg_files@) =~= avail.take(j as int + 1));
                        }
                    }
                    let ghost pre_assigned = assigned@;
                    let found_name = find_name(&assigned, &key2);
                    match found_name {
                        Some(w) => {
                            proof {
                                if synth && done == 0 {
                                    // the key is new: the recorded keys are the
                                    // earlier distinct archive names
                                    assert(pre_assigned[w as int]@ == avail[j as int].0);
                                    assert(avail[w as int].0 == avail[j as int].0);
                                    assert(all_files@[w as int].0@ == all_files@[j as int].0@);
                                    assert(false);
                                }
                            }
                        },
                        None => {
                            assigned.push(key2);
                            proof {
                                if synth && done == 0 {
                                    assert(assigned@.len() == j + 1);
                                    assert forall|t: int| 0 <= t < j + 1 implies (
                                    #[trigger] assigned@[t])@ == avail[t].0 by {
                                        if t < j {
                                            assert(assigned@[t] == pre_assigned[t]);
                                        } else {
                                            assert(assigned@[t]@ == fname@);
                                        }
                                    }
                                }
                            }
                        },
                    }
                },
                None => {
                    proof {
                        if synth && done == 0 {
                            assert(all_files@[j as int].0@ == fname@);
                            assert(false);
                        }
                    }
                },
            }
            j += 1;
        }
        let mut actions: Vec<PackageAction> = Vec::new();
        let mut j: usize = 0;
        let a_total: usize = manifest.actions.len();
        while j < a_total
            invariant
                j <= a_total,
                a_total == manifest.actions@.len(),
                actions@.len() == j,
                forall|k: int|
                    0 <= k < j ==> ({
                        let tag = (#[trigger] actions@[k]).package;
                        &&& tag is Some
                        &&& (manifest.id matches Some(idv) ==> tag->0@ == idv@)
                        &&& (manifest.id is None ==> tag->0@ == manifest.name@)
                    }),
                distinct_keys(pkg_files@),
                avail == pairs_view(all_files@),
                distinct_keys(all_files@),
                forall|k: int|
                    0 <= k < pkg_files@.len() ==> assoc_has(
                        avail,
                        (#[trigger] pkg_files@[k]).0@,
                        pkg_files@[k].1@,
                    ),
                synth && done == 0 ==> pairs_view(pkg_files@) == avail,
                synth && done == 0 ==> (assigned@.len() == avail.len() && (forall|t: int|
                    0 <= t < avail.len() ==> (#[trigger] assigned@[t])@ == avail[t].0)),
            decreases a_total - j,
        {
            let mut action = manifest.actions[j].clone();
            action.package = Some(
                match &manifest.id {
                    Some(s) => s.clone(),
                    None => manifest.name.clone(),
                },
            );
            actions.push(action);
            j += 1;
        }
        packages.push(LoadedPackage { manifest, files: pkg_files, actions });
        done += 1;
    }
    proof {
        if synth {
            assert(done == 1);
        }
    }
    if packages.len() > 0 {
        let mut first = packages.remove(0);
        let ghost first0 = first;
        let mut j: usize = 0;
        let l_total: usize = all_files.len();
        while j < l_total
            invariant
                j <= l_total,
                l_total == all_files@.len(),
                avail == pairs_view(all_files@),
                distinct_keys(first.files@),
                first.manifest == first0.manifest,
                first.actions == first0.actions,
                forall|k: int|
                    0 <= k < first.files@.len() ==> assoc_has(
                        avail,
                        (#[trigger] first.files@[k]).0@,
                        first.files@[k].1@,
                    ),
                forall|k: int|
                    0 <= k < first0.files@.len() ==> assoc_has(
                        avail,
                        (#[trigger] first0.files@[k]).0@,
                        first0.files@[k].1@,
                    ),
                synth ==> (assigned@.len() == avail.len() && (forall|t: int|
                    0 <= t < avail.len() ==> (#[trigger] assigned@[t])@ == avail[t].0)),
                synth ==> first.files == first0.files,
            decreases l_total - j,
        {
            let key = all_files[j].0.clone();
            match find_name(&assigned, &key) {
                Some(_) => {},
                None => {
                    proof {
                        if synth {
                            assert(avail[j as int].0 == key@) by {
                                assert(avail[j as int] == (all_files@[j as int].0@, all_files@[j as int].1@));
                            }
                            assert(assigned@[j as int]@ == key@);
                            assert(false);
                        }
                    }
                    let content = slice_to_vec(all_files[j].1.as_slice());
                    let ghost pre_first = first.files@;
                    proof {
                        assert(assoc_has(avail, key@, content@)) by {
                            assert(avail[j as int] == (all_files@[j as int].0@, all_files@[j as int].1@));
                        }
                    }
                    insert_entry(&mut first.files, key, content);
                    proof {
                        lemma_upsert_members(
                            pairs_view(pre_first),
                            all_files@[j as int].0@,
                            content@,
                        );
                        assert forall|t: int| 0 <= t < first.files@.len() implies assoc_has(
                            avail,
                            (#[trigger] first.files@[t]).0@,
                            first.files@[t].1@,
                        ) by {
                            assert(pairs_view(first.files@)[t] == (first.files@[t].0@,
                            first.files@[t].1@));
                            if pairs_view(first.files@)[t] != (
                                all_files@[j as int].0@,
                                content@,
                            ) {
                                let u = choose|u: int|
                                    0 <= u < pre_first.len() && (#[trigger] pairs_view(
                                        pre_first,
                                    )[u]) == pairs_view(first.files@)[t];
                                assert(pairs_view(pre_first)[u] == (pre_first[u].0@, pre_first[u].1@));
                                assert(assoc_has(avail, pre_first[u].0@, pre_first[u].1@));
                            }
                        }
                    }
                },
            }
            j += 1;
        }
        packages.insert(0, first);
    }
    Ok(packages)
}

/// Load a single package: the packages of the archive merged into one
/// (later files override earlier), or an empty package for an empty archive.
pub fn load_package(data: &[u8]) -> (r: CpmResult<LoadedPackage>)
    ensures
        r matches Err(e) ==> e == CpmError::ArchiveFormat,
        zip_parses(data@) && zip_entries_readable(data@) ==> r is Ok,
        r matches Ok(p) ==> ({
            let entries = zip_entries_of(data@);
            let avail = gather_files(entries);
            &&& zip_parses(data@)
            &&& (forall|k: int|
                0 <= k < p.files@.len() ==> assoc_has(
                    avail,
                    (#[trigger] p.files@[k]).0@,
                    p.files@[k].1@,
                ))
            &&& (!has_manifest_member(entries) ==> {
                &&& pairs_view(p.files@) == avail
                &&& p.manifest.name@ == "Unknown Package"@
                &&& p.manifest.id is None
                &&& p.manifest.files@.len() == avail.len()
                &&& (forall|j: int|
                    0 <= j < avail.len() ==> (#[trigger] p.manifest.files@[j]).src@ == avail[j].0)
                &&& p.actions@.len() == 0
            })
        }),
{
    let ghost avail = gather_files(zip_entries_of(data@));
    let mut packages = match load_packages(data) {
        Ok(p) => p,
        Err(e) => {
            return Err(e);
        },
    };
    if packages.len() == 0 {
        return Ok(
            LoadedPackage {
                manifest: PackageManifest {
                    id: None,
                    name: String::from_str("Empty Package"),
                    version: None,
                    description: None,
                    output_dir: None,
                    files: Vec::new(),
                    meta: None,
                    actions: Vec::new(),
                },
                files: Vec::new(),
                actions: Vec::new(),
            },
        );
    }
    if packages.len() == 1 {
        let pkg = packages.remove(0);
        return Ok(pkg);
    }
    let first = packages.remove(0);
    let mut merged = LoadedPackage {
        manifest: first.manifest,
        files: Vec::new(),
        actions: Vec::new(),
    };
    let mut rest: Vec<LoadedPackage> = Vec::new();
    rest.push(
        LoadedPackage {
            manifest: merged.manifest.clone(),
            files: first.files,
            actions: first.actions,
        },
    );
    let ghost pkgs0 = packages@;
    while packages.len() > 0
        invariant
            forall|p: int, k: int|
                0 <= p < rest@.len() && 0 <= k < rest@[p].files@.len() ==> assoc_has(
                    avail,
                    (#[trigger] rest@[p].files@[k]).0@,
                    rest@[p].files@[k].1@,
                ),
            forall|p: int, k: int|
                0 <= p < packages@.len() && 0 <= k < packages@[p].files@.len() ==> assoc_has(
                    avail,
                    (#[trigger] packages@[p].files@[k]).0@,
                    packages@[p].files@[k].1@,
                ),
        decreases packages@.len(),
    {
        let ghost pre = packages@;
        let moved = packages.remove(0);
        proof {
            assert(moved == pre[0]);
            assert(forall|p: int|
                0 <= p < packages@.len() ==> #[trigger] packages@[p] == pre[p + 1]);
        }
        rest.push(moved);
    }
    let mut p: usize = 0;
    let r_total: usize = rest.len();
    while p < r_total
        invariant
            p <= r_total,
            r_total == rest@.len(),
            distinct_keys(merged.files@),
            forall|q: int, k: int|
                0 <= q < rest@.len() && 0 <= k < rest@[q].files@.len() ==> assoc_has(
                    avail,
                    (#[trigger] rest@[q].files@[k]).0@,
                    rest@[q].files@[k].1@,
                ),
            forall|k: int|
                0 <= k < merged.files@.len() ==> assoc_has(
                    avail,
                    (#[trigger] merged.files@[k]).0@,
                    merged.files@[k].1@,
                ),
        decreases r_total - p,
    {
        let mut j: usize = 0;
        let f_total: usize = rest[p].files.len();
        while j < f_total
            invariant
                p < rest@.len(),
                j <= f_total,
                f_total == rest@[p as int].files@.len(),
                distinct_keys(merged.files@),
                forall|q: int, k: int|
                    0 <= q < rest@.len() && 0 <= k < rest@[q].files@.len() ==> assoc_has(
                        avail,
                        (#[trigger] rest@[q].files@[k]).0@,
                        rest@[q].files@[k].1@,
                    ),
                forall|k: int|
                    0 <= k < merged.files@.len() ==> assoc_has(
                        avail,
                        (#[trigger] merged.files@[k]).0@,
                        merged.files@[k].1@,
                    ),
            decreases f_total - j,
        {
            let key = rest[p].files[j].0.clone();
            let content = slice_to_vec(rest[p].files[j].1.as_slice());
            let ghost pre_merged = merged.files@;
            proof {
                assert(assoc_has(avail, rest@[p as int].files@[j as int].0@, rest@[p as int].files@[j as int].1@));
            }
            insert_entry(&mut merged.files, key, content);
            proof {
                lemma_upsert_members(
                    pairs_view(pre_merged),
                    rest@[p as int].files@[j as int].0@,
                    content@,
                );
                assert forall|k: int| 0 <= k < merged.files@.len() implies assoc_has(
                    avail,
                    (#[trigger] merged.files@[k]).0@,
                    merged.files@[k].1@,
                ) by {
                    assert(pairs_view(merged.files@)[k] == (merged.files@[k].0@, merged.files@[k].1@));
                    if pairs_view(merged.files@)[k] != (
                        rest@[p as int].files@[j as int].0@,
                        content@,
                    ) {
                        let u = choose|u: int|
                            0 <= u < pre_merged.len() && (#[trigger] pairs_view(pre_merged)[u])
                                == pairs_view(merged.files@)[k];
                        assert(pairs_view(pre_merged)[u] == (pre_merged[u].0@, pre_merged[u].1@));
                        assert(assoc_has(avail, pre_merged[u].0@, pre_merged[u].1@));
                    }
                }
            }
            j += 1;
        }
        let mut j: usize = 0;
        let a_total: usize = rest[p].actions.len();
        while j < a_total
            invariant
                p < rest@.len(),
                j <= a_total,
                a_total == rest@[p as int].actions@.len(),
                distinct_keys(merged.files@),
                forall|q: int, k: int|
                    0 <= q < rest@.len() && 0 <= k < rest@[q].files@.len() ==> assoc_has(
                        avail,
                        (#[trigger] rest@[q].files@[k]).0@,
                        rest@[q].files@[k].1@,
                    ),
                forall|k: int|
                    0 <= k < merged.files@.len() ==> assoc_has(
                        avail,
                        (#[trigger] merged.files@[k]).0@,
                        merged.files@[k].1@,
                    ),
            decreases a_total - j,
        {
            merged.actions.push(rest[p].actions[j].clone());
            j += 1;
        }
        p += 1;
    }
    Ok(merged)
}

/// Whether an uppercased name matches an uppercased pattern: `*EXT` matches
/// any name ending in `EXT`; anything else matches exactly.
pub open spec fn spec_pattern_matches(pat: Seq<u8>, name: Seq<u8>) -> bool {
    if pat.len() > 0 && pat[0] == 42 {
        let ext = pat.skip(1);
        name.len() >= ext.len() && name.skip(name.len() - ext.len()) == ext
    } else {
        name == pat
    }
}

/// Whether a filename matches any of an action's patterns, both sides
/// ASCII-uppercased.
pub open spec fn spec_action_matches(patterns: Seq<String>, fname: Seq<u8>) -> bool {
    exists|i: int|
        0 <= i < patterns.len() && spec_pattern_matches(
            crate::emulator::str_bytes(#[trigger] patterns[i]).map_values(|b: u8| upper_byte(b)),
            fname.map_values(|b: u8| upper_byte(b)),
        )
}

/// Whether `filename` matches one of the action's patterns,
/// case-insensitively: `*.EXT` patterns match by suffix, others exactly.
pub fn action_matches_file(action: &PackageAction, filename: &str) -> (r: bool)
    ensures
        r == spec_action_matches(action.patterns@, filename.spec_bytes()),
{
    let upper = upper_bytes_vec(filename.as_bytes());
    let mut i: usize = 0;
    while i < action.patterns.len()
        invariant
            i <= action.patterns@.len(),
            upper@ == filename.spec_bytes().map_values(|b: u8| upper_byte(b)),
            forall|k: int|
                0 <= k < i ==> !spec_pattern_matches(
                    crate::emulator::str_bytes(#[trigger] action.patterns@[k]).map_values(
                        |b: u8| upper_byte(b),
                    ),
                    filename.spec_bytes().map_values(|b: u8| upper_byte(b)),
                ),
        decreases action.patterns@.len() - i,
    {
        let pb = upper_bytes_vec(action.patterns[i].as_str().as_bytes());
        proof {
            assert(pb@ == crate::emulator::str_bytes(action.patterns@[i as int]).map_values(
                |b: u8| upper_byte(b),
            ));
        }
        let matched: bool = if pb.len() > 0 && pb[0] == 42 {
            let mut ext: Vec<u8> = Vec::new();
            let mut k: usize = 1;
            while k < pb.len()
                invariant
                    1 <= k <= pb@.len(),
                    ext@ =~= pb@.subrange(1, k as int),
                decreases pb@.len() - k,
            {
                ext.push(pb[k]);
                proof {
                    assert(ext@ =~= pb@.subrange(1, k as int + 1));
                }
                k += 1;
            }
            proof {
                assert(ext@ =~= pb@.skip(1));
            }
            bytes_end_with(&upper, &ext)
        } else {
            bytes_eq(&upper, &pb)
        };
        if matched {
            proof {
                assert(spec_pattern_matches(
                    crate::emulator::str_bytes(action.patterns@[i as int]).map_values(
                        |b: u8| upper_byte(b),
                    ),
                    filename.spec_bytes().map_values(|b: u8| upper_byte(b)),
                ));
            }
            return true;
        }
        i += 1;
    }
    false
}

/// `s` with every non-overlapping occurrence of `pat` replaced by `sub`,
/// scanning left to right.
pub open spec fn replace_chars(s: Seq<char>, pat: Seq<char>, sub: Seq<char>) -> Seq<char>
    decreases s.len(),
{
    if pat.len() == 0 || s.len() < pat.len() {
        s
    } else if s.take(pat.len() as int) == pat {
        sub + replace_chars(s.skip(pat.len() as int), pat, sub)
    } else {
        seq![s.first()] + replace_chars(s.drop_first(), pat, sub)
    }
}

/// Whether `s[at .. at + pat.len())` equals `pat`.
fn chars_match_at(s: &Vec<char>, at: usize, pat: &Vec<char>) -> (r: bool)
    requires
        at + pat@.len() <= s@.len(),
    ensures
        r == (s@.subrange(at as int, at as int + pat@.len() as int) == pat@),
{
    let n = s.len();
    let mut k: usize = 0;
    while k < pat.len()
        invariant
            k <= pat@.len(),
            n == s@.len(),
            at + pat@.len() <= n,
            forall|j: int| 0 <= j < k ==> s@[at + j] == pat@[j],
        decreases pat@.len() - k,
    {
        if s[at + k] != pat[k] {
            proof {
                assert(s@.subrange(at as int, at as int + pat@.len() as int)[k as int]
                    != pat@[k as int]);
            }
            return false;
        }
        k += 1;
    }
    proof {
        assert(s@.subrange(at as int, at as int + pat@.len() as int) =~= pat@);
    }
    true
}

/// Replace every occurrence of `pat` in `s` by `sub`, left to right.
fn replace_all(s: &Vec<char>, pat: &Vec<char>, sub: &Vec<char>) -> (r: Vec<char>)
    requires
        pat@.len() > 0,
    ensures
        r@ == replace_chars(s@, pat@, sub@),
{
    let mut out: Vec<char> = Vec::new();
    let mut i: usize = 0;
    proof {
        assert(s@.skip(0) =~= s@);
        assert(out@ + replace_chars(s@, pat@, sub@) =~= replace_chars(s@, pat@, sub@));
    }
    while i < s.len()
        invariant
            i <= s@.len(),
            pat@.len() > 0,
            replace_chars(s@, pat@, sub@) == out@ + replace_chars(s@.skip(i as int), pat@, sub@),
        decreases s@.len() - i,
    {
        let ghost rest = s@.skip(i as int);
        if s.len() - i >= pat.len() && chars_match_at(s, i, pat) {
            proof {
                assert(rest.take(pat@.len() as int) =~= s@.subrange(
                    i as int,
                    i as int + pat@.len() as int,
                ));
                assert(rest.skip(pat@.len() as int) =~= s@.skip(i as int + pat@.len() as int));
            }
            let mut k: usize = 0;
            let ghost out_pre = out@;
            while k < sub.len()
                invariant
                    k <= sub@.len(),
                    out@ =~= out_pre + sub@.take(k as int),
                decreases sub@.len() - k,
            {
                out.push(sub[k]);
                proof {
                    assert(out@ =~= out_pre + sub@.take(k as int + 1));
                }
                k += 1;
            }
            proof {
                assert(out@ =~= out_pre + sub@);
                assert(out_pre + (sub@ + replace_chars(
                    s@.skip(i as int + pat@.len() as int),
                    pat@,
                    sub@,
                )) =~= (out_pre + sub@) + replace_chars(
                    s@.skip(i as int + pat@.len() as int),
                    pat@,
                    sub@,
                ));
            }
            i += pat.len();
        } else {
            proof {
                assert(rest.first() == s@[i as int]);
                assert(rest.drop_first() =~= s@.skip(i as int + 1));
                if s@.len() - i >= pat@.len() {
                    assert(rest.take(pat@.len() as int) =~= s@.subrange(
                        i as int,
                        i as int + pat@.len() as int,
                    ));
                }
                assert(out@ + (seq![s@[i as int]] + replace_chars(
                    s@.skip(i as int + 1),
                    pat@,
                    sub@,
                )) =~= out@.push(s@[i as int]) + replace_chars(s@.skip(i as int + 1), pat@, sub@));
            }
            out.push(s[i]);
            i += 1;
        }
    }
    proof {
        assert(s@.skip(s@.len() as int) =~= Seq::<char>::empty());
        assert(out@ + Seq::<char>::empty() =~= out@);
    }
    out
}

/// Expand an action's submit template for a base name and optional drive:
/// `{command}` becomes the action's command, `{name}` the base name, and
/// `{drive}` the drive letter when one is given. Without a template the
/// default is `{command} {name}` followed by a carriage return.
pub fn expand_submit_template(action: &PackageAction, base_name: &str, drive: Option<char>) -> (r:
    String)
    ensures
        ({
            let template = match action.submit {
                Some(s) => s@,
                None => "{command} {name}\r"@,
            };
            let step1 = replace_chars(template, "{command}"@, action.command@);
            let step2 = replace_chars(step1, "{name}"@, base_name@);
            r@ == match drive {
                Some(d) => replace_chars(step2, "{drive}"@, seq![d]),
                None => step2,
            }
        }),
{
    proof {
        reveal_strlit("{command}");
        reveal_strlit("{name}");
        reveal_strlit("{drive}");
    }
    let template: Vec<char> = match &action.submit {
        Some(s) => str_chars(s.as_str()),
        None => str_chars("{command} {name}\r"),
    };
    let pat_command = str_chars("{command}");
    let pat_name = str_chars("{name}");
    let sub_command = str_chars(action.command.as_str());
    let step1 = replace_all(&template, &pat_command, &sub_command);
    let sub_name = str_chars(base_name);
    let step2 = replace_all(&step1, &pat_name, &sub_name);
    let step3: Vec<char> = match drive {
        Some(d) => {
            let pat_drive = str_chars("{drive}");
            let mut dv: Vec<char> = Vec::new();
            dv.push(d);
            replace_all(&step2, &pat_drive, &dv)
        },
        None => step2,
    };
    string_from_chars(step3)
}


/// A JSON value for an optional string: null when absent.
fn opt_string_value(o: &Option<String>) -> (r: serde_json::Value) {
    match o {
        Some(s) => json_string(s.clone()),
        None => json_null(),
    }
}

/// The manifest serialized back to a JSON value, fields in schema order;
/// optional fields come out as null, the load-time `package` tag of an
/// action is not serialized.
fn manifest_to_value(m: &PackageManifest) -> (r: serde_json::Value) {
    let mut pairs: Vec<(String, serde_json::Value)> = Vec::new();
    pairs.push((String::from_str("id"), opt_string_value(&m.id)));
    pairs.push((String::from_str("name"), json_string(m.name.clone())));
    pairs.push((String::from_str("version"), opt_string_value(&m.version)));
    pairs.push((String::from_str("description"), opt_string_value(&m.description)));
    pairs.push((String::from_str("outputDir"), opt_string_value(&m.output_dir)));
    let mut files: Vec<serde_json::Value> = Vec::new();
    let mut i: usize = 0;
    while i < m.files.len()
        invariant
            i <= m.files@.len(),
        decreases m.files@.len() - i,
    {
        let fe = &m.files[i];
        let mut fp: Vec<(String, serde_json::Value)> = Vec::new();
        fp.push((String::from_str("src"), json_string(fe.src.clone())));
        fp.push((String::from_str("dst"), opt_string_value(&fe.dst)));
        fp.push(
            (
                String::from_str("required"),
                match fe.required {
                    Some(b) => json_bool(b),
                    None => json_null(),
                },
            ),
        );
        fp.push((String::from_str("loadAddress"), opt_string_value(&fe.load_address)));
        fp.push((String::from_str("type"), opt_string_value(&fe.file_type)));
        files.push(json_object(fp));
        i += 1;
    }
    pairs.push((String::from_str("files"), json_array(files)));
    pairs.push(
        (
            String::from_str("meta"),
            match &m.meta {
                Some(v) => json_clone(v),
                None => json_null(),
            },
        ),
    );
    let mut actions: Vec<serde_json::Value> = Vec::new();
    let mut i: usize = 0;
    while i < m.actions.len()
        invariant
            i <= m.actions@.len(),
        decreases m.actions@.len() - i,
    {
        let a = &m.actions[i];
        let mut ap: Vec<(String, serde_json::Value)> = Vec::new();
        ap.push((String::from_str("id"), json_string(a.id.clone())));
        ap.push((String::from_str("name"), json_string(a.name.clone())));
        ap.push((String::from_str("command"), json_string(a.command.clone())));
        let mut pats: Vec<serde_json::Value> = Vec::new();
        let mut k: usize = 0;
        while k < a.patterns.len()
            invariant
                k <= a.patterns@.len(),
                i < m.actions@.len(),
            decreases a.patterns@.len() - k,
        {
            pats.push(json_string(a.patterns[k].clone()));
            k += 1;
        }
        ap.push((String::from_str("patterns"), json_array(pats)));
        let mut exts: Vec<serde_json::Value> = Vec::new();
        let mut k: usize = 0;
        while k < a.output_exts.len()
            invariant
                k <= a.output_exts@.len(),
                i < m.actions@.len(),
            decreases a.output_exts@.len() - k,
        {
            exts.push(json_string(a.output_exts[k].clone()));
            k += 1;
        }
        ap.push((String::from_str("outputExts"), json_array(exts)));
        ap.push((String::from_str("submit"), opt_string_value(&a.submit)));
        ap.push(
            (
                String::from_str("interactiveScript"),
                match &a.interactive_script {
                    Some(steps) => {
                        let mut sv: Vec<serde_json::Value> = Vec::new();
                        let mut k: usize = 0;
                        while k < steps.len()
                            invariant
                                k <= steps@.len(),
                            decreases steps@.len() - k,
                        {
                            let mut sp: Vec<(String, serde_json::Value)> = Vec::new();
                            sp.push((String::from_str("wait"), json_string(steps[k].wait.clone())));
                            sp.push((String::from_str("send"), json_string(steps[k].send.clone())));
                            sv.push(json_object(sp));
                            k += 1;
                        }
                        json_array(sv)
                    },
                    None => json_null(),
                },
            ),
        );
        actions.push(json_object(ap));
        i += 1;
    }
    pairs.push((String::from_str("actions"), json_array(actions)));
    json_object(pairs)
}

/// Read-only filesystem backed by loaded packages; later packages override
/// earlier ones on duplicate names, and a virtual `MANIFEST.MF` presents the
/// held manifests as pretty JSON.
pub struct PackageDriveFS {
    files: Vec<(String, Vec<u8>)>,
    file_origins: Vec<(String, String)>,
    packages: Vec<LoadedPackage>,
    all_actions: Vec<PackageAction>,
}

impl PackageDriveFS {
    /// The name of the virtual manifest file.
    pub open spec fn manifest_name() -> Seq<char> {
        "MANIFEST.MF"@
    }

    /// How many packages the drive holds.
    pub closed spec fn package_count(&self) -> int {
        self.packages@.len() as int
    }

    /// The held packages, in order.
    pub closed spec fn packages_view(&self) -> Seq<LoadedPackage> {
        self.packages@
    }

    /// The first held package with the given manifest name, at or after `p`.
    pub open spec fn first_pkg_named(pkgs: Seq<LoadedPackage>, name: Seq<char>, p: int) -> Option<
        int,
    >
        decreases pkgs.len() - p,
    {
        if p < 0 || p >= pkgs.len() {
            None
        } else if pkgs[p].manifest.name@ == name {
            Some(p)
        } else {
            Self::first_pkg_named(pkgs, name, p + 1)
        }
    }

    pub fn new() -> (r: Self)
        ensures
            r.wf(),
            r.read_only(),
            r.files() == Map::<Seq<char>, Seq<u8>>::empty(),
            r.virtual_names() == Set::<Seq<char>>::empty(),
            r.package_count() == 0,
    {
        let r = PackageDriveFS {
            files: Vec::new(),
            file_origins: Vec::new(),
            packages: Vec::new(),
            all_actions: Vec::new(),
        };
        proof {
            assert(r.virtual_names() =~= Set::<Seq<char>>::empty());
        }
        r
    }

    /// The contents after a package's files land on top of `base`: each
    /// pair stored under its normalized name, in order, later pairs
    /// overriding earlier ones.
    pub open spec fn merge_pkg_files(
        base: Map<Seq<char>, Seq<u8>>,
        pairs: Seq<(String, Vec<u8>)>,
    ) -> Map<Seq<char>, Seq<u8>>
        decreases pairs.len(),
    {
        if pairs.len() == 0 {
            base
        } else {
            Self::merge_pkg_files(base, pairs.drop_last()).insert(
                normalize_83(pairs.last().0@),
                pairs.last().1@,
            )
        }
    }

    /// The contents of a drive built from a package list, in order.
    pub open spec fn files_of_packages(pkgs: Seq<LoadedPackage>) -> Map<Seq<char>, Seq<u8>>
        decreases pkgs.len(),
    {
        if pkgs.len() == 0 {
            Map::empty()
        } else {
            Self::merge_pkg_files(
                Self::files_of_packages(pkgs.drop_last()),
                pkgs.last().files@,
            )
        }
    }

    /// Add a package: its files override earlier ones of the same name, and
    /// the virtual manifest exists from the first package on.
    pub fn add_package(&mut self, pkg: LoadedPackage)
        requires
            old(self).wf(),
        ensures
            final(self).wf(),
            final(self).read_only(),
            final(self).package_count() == old(self).package_count() + 1,
            final(self).packages_view() == old(self).packages_view().push(pkg),
            final(self).files() == Self::merge_pkg_files(old(self).files(), pkg.files@),
    {
        let ghost all = pkg.files@;
        let pkg_name = pkg.manifest.name.clone();
        let mut i: usize = 0;
        let n = pkg.files.len();
        proof {
            assert(all.take(0) =~= Seq::<(String, Vec<u8>)>::empty());
            assert(self.files() == Self::merge_pkg_files(old(self).files(), all.take(0)));
        }
        while i < n
            invariant
                i <= n,
                n == all.len(),
                pkg.files@ == all,
                distinct_keys(self.files@),
                byte_map(self.files@) == Self::merge_pkg_files(
                    byte_map(old(self).files@),
                    all.take(i as int),
                ),
                self.packages@ == old(self).packages@,
            decreases n - i,
        {
            let fname = to_8_3(pkg.files[i].0.as_str());
            let data = slice_to_vec(pkg.files[i].1.as_slice());
            let fname2 = fname.clone();
            insert_entry(&mut self.files, fname, data);
            set_origin(&mut self.file_origins, fname2, pkg_name.clone());
            proof {
                assert(all.take(i as int + 1).drop_last() =~= all.take(i as int));
                assert(all.take(i as int + 1).last() == all[i as int]);
            }
            i += 1;
        }
        proof {
            assert(all.take(n as int) =~= all);
        }
        let mut i: usize = 0;
        while i < pkg.actions.len()
            invariant
                i <= pkg.actions@.len(),
                pkg.files@ == all,
                distinct_keys(self.files@),
                byte_map(self.files@) == Self::merge_pkg_files(byte_map(old(self).files@), all),
                self.packages@ == old(self).packages@,
            decreases pkg.actions@.len() - i,
        {
            self.all_actions.push(pkg.actions[i].clone());
            i += 1;
        }
        self.packages.push(pkg);
    }

    /// Build a drive from packages, in order: its contents are the merged
    /// files of every package, later packages overriding earlier ones.
    pub fn from_packages(packages: Vec<LoadedPackage>) -> (r: Self)
        ensures
            r.wf(),
            r.read_only(),
            r.files() == Self::files_of_packages(packages@),
            r.package_count() == packages@.len(),
    {
        let ghost all = packages@;
        let mut fs = PackageDriveFS::new();
        let mut packages = packages;
        let n0 = packages.len();
        let mut done: usize = 0;
        proof {
            assert(all.len() == n0);
            assert(all.take(0) =~= Seq::<LoadedPackage>::empty());
            assert(fs.files() == Self::files_of_packages(all.take(0)));
        }
        while packages.len() > 0
            invariant
                fs.wf(),
                fs.read_only(),
                done + packages@.len() == all.len(),
                all.len() <= usize::MAX,
                packages@ =~= all.skip(done as int),
                fs.files() == Self::files_of_packages(all.take(done as int)),
                fs.package_count() == done,
            decreases packages@.len(),
        {
            let pkg = packages.remove(0);
            proof {
                assert(pkg == all[done as int]);
                assert(packages@ =~= all.skip(done as int + 1));
                assert(all.take(done as int + 1).drop_last() =~= all.take(done as int));
                assert(all.take(done as int + 1).last() == pkg);
            }
            fs.add_package(pkg);
            done += 1;
        }
        proof {
            assert(all.take(done as int) =~= all);
        }
        fs
    }

    /// Remove the first package with the given manifest name, rebuilding
    /// the merged file view from the survivors; false when no package has
    /// that name.
    pub fn remove_package(&mut self, name: &str) -> (r: bool)
        requires
            old(self).wf(),
        ensures
            final(self).wf(),
            final(self).read_only(),
            match Self::first_pkg_named(old(self).packages_view(), name@, 0) {
                Some(idx) => r == true && final(self).packages_view() == old(
                    self,
                ).packages_view().remove(idx) && final(self).files() == Self::files_of_packages(
                    final(self).packages_view(),
                ) && final(self).package_count() == old(self).package_count() - 1,
                None => r == false && final(self).packages_view() == old(self).packages_view()
                    && final(self).files() == old(self).files(),
            },
    {
        let name_chars = str_chars(name);
        let mut idx_opt: Option<usize> = None;
        let mut i: usize = 0;
        while i < self.packages.len()
            invariant
                i <= self.packages@.len(),
                name_chars@ == name@,
                match idx_opt {
                    Some(k) => Self::first_pkg_named(self.packages@, name@, 0) == Some(k as int)
                        && k < self.packages@.len(),
                    None => Self::first_pkg_named(self.packages@, name@, 0)
                        == Self::first_pkg_named(self.packages@, name@, i as int),
                },
            decreases self.packages@.len() - i,
        {
            if idx_opt.is_none() {
                let pc = str_chars(self.packages[i].manifest.name.as_str());
                if chars_eq(&pc, &name_chars) {
                    idx_opt = Some(i);
                }
            }
            i += 1;
        }
        match idx_opt {
            Some(idx) => {
                self.packages.remove(idx);
                let ghost survivors = self.packages@;
                self.files.clear();
                self.file_origins.clear();
                self.all_actions.clear();
                let mut rest: Vec<LoadedPackage> = Vec::new();
                while self.packages.len() > 0
                    invariant
                        distinct_keys(self.files@),
                        self.files@.len() == 0,
                        rest@ + self.packages@ =~= survivors,
                    decreases self.packages@.len(),
                {
                    let p = self.packages.remove(0);
                    rest.push(p);
                    proof {
                        assert(rest@ + self.packages@ =~= survivors);
                    }
                }
                proof {
                    assert(rest@ =~= survivors);
                    assert(self.packages@ =~= Seq::<LoadedPackage>::empty());
                    assert(self.files() =~= Self::files_of_packages(self.packages@));
                }
                let ghost all = rest@;
                let mut done: usize = 0;
                let n0 = rest.len();
                proof {
                    assert(all.len() == n0);
                    assert(all.take(0) =~= Seq::<LoadedPackage>::empty());
                    assert(self.packages@ =~= all.take(0));
                }
                while rest.len() > 0
                    invariant
                        self.wf(),
                        done + rest@.len() == all.len(),
                        all.len() <= usize::MAX,
                        rest@ =~= all.skip(done as int),
                        self.packages@ == all.take(done as int),
                        self.files() == Self::files_of_packages(all.take(done as int)),
                    decreases rest@.len(),
                {
                    let p = rest.remove(0);
                    proof {
                        assert(p == all[done as int]);
                        assert(rest@ =~= all.skip(done as int + 1));
                        assert(all.take(done as int + 1).drop_last() =~= all.take(done as int));
                        assert(all.take(done as int + 1).last() == p);
                    }
                    self.add_package(p);
                    done += 1;
                }
                proof {
                    assert(all.take(done as int) =~= all);
                }
                true
            },
            None => false,
        }
    }

    /// Every action across the held packages.
    pub fn get_actions(&self) -> (r: &Vec<PackageAction>)
        ensures
            r == self.spec_actions(),
    {
        &self.all_actions
    }

    pub closed spec fn spec_actions(&self) -> &Vec<PackageAction> {
        &self.all_actions
    }

    /// The held packages.
    pub fn get_packages(&self) -> (r: &Vec<LoadedPackage>)
        ensures
            r@.len() == self.package_count(),
    {
        &self.packages
    }

    /// The recorded (normalized name, package name) origins, in order.
    pub closed spec fn origins(&self) -> Seq<(String, String)> {
        self.file_origins@
    }

    /// Which package a file came from: the first origin recorded under the
    /// normalized name.
    pub fn get_file_origin(&self, name: &str) -> (r: Option<&str>)
        ensures
            match r {
                Some(o) => exists|c: int|
                    0 <= c < self.origins().len() && (#[trigger] self.origins()[c]).0@
                        == normalize_83(name@) && o@ == self.origins()[c].1@ && (forall|d: int|
                        0 <= d < c ==> (#[trigger] self.origins()[d]).0@ != normalize_83(name@)),
                None => forall|c: int|
                    0 <= c < self.origins().len() ==> (#[trigger] self.origins()[c]).0@
                        != normalize_83(name@),
            },
    {
        let key = to_8_3(name);
        let mut i: usize = 0;
        while i < self.file_origins.len()
            invariant
                i <= self.file_origins@.len(),
                key@ == normalize_83(name@),
                forall|c: int|
                    0 <= c < i ==> (#[trigger] self.origins()[c]).0@ != normalize_83(name@),
            decreases self.file_origins@.len() - i,
        {
            if self.file_origins[i].0 == key {
                proof {
                    assert(self.origins()[i as int].0@ == normalize_83(name@));
                }
                return Some(self.file_origins[i].1.as_str());
            }
            i += 1;
        }
        None
    }

    /// The virtual MANIFEST.MF bytes: the pretty JSON of the held manifests,
    /// a single object for one package, an array otherwise. The serializer's
    /// output is not modeled (the manifests carry an opaque `meta` value),
    /// so only the file's existence is part of the drive contract; the
    /// content is checked at run time.
    fn get_manifest_content(&self) -> (r: Vec<u8>) {
        let json: String = if self.packages.len() == 1 {
            json_to_string_pretty(&manifest_to_value(&self.packages[0].manifest))
        } else {
            let mut items: Vec<serde_json::Value> = Vec::new();
            let mut i: usize = 0;
            while i < self.packages.len()
                invariant
                    i <= self.packages@.len(),
                decreases self.packages@.len() - i,
            {
                items.push(manifest_to_value(&self.packages[i].manifest));
                i += 1;
            }
            json_to_string_pretty(&json_array(items))
        };
        json.as_str().as_bytes_vec()
    }
}

/// Record which package a (normalized) file name came from, replacing any
/// earlier record.
fn set_origin(origins: &mut Vec<(String, String)>, key: String, pkg: String) {
    let mut i: usize = 0;
    let n = origins.len();
    while i < n
        invariant
            i <= n,
            n == origins@.len(),
        decreases n - i,
    {
        if origins[i].0 == key {
            origins.remove(i);
            origins.push((key, pkg));
            return ;
        }
        i += 1;
    }
    origins.push((key, pkg));
}

impl DriveFS for PackageDriveFS {
    closed spec fn files(&self) -> Map<Seq<char>, Seq<u8>> {
        byte_map(self.files@)
    }

    open spec fn virtual_names(&self) -> Set<Seq<char>> {
        if self.package_count() > 0 {
            Set::new(|k: Seq<char>| k == Self::manifest_name())
        } else {
            Set::empty()
        }
    }

    open spec fn read_only(&self) -> bool {
        true
    }

    closed spec fn wf(&self) -> bool {
        distinct_keys(self.files@)
    }

    fn read_file(&self, name: &str) -> (r: Option<Vec<u8>>) {
        let key = to_8_3(name);
        if self.packages.len() > 0 {
            let mname = String::from_str("MANIFEST.MF");
            if key == mname {
                proof {
                    assert(self.virtual_names().contains(normalize_83(name@)));
                }
                return Some(self.get_manifest_content());
            }
        }
        proof {
            assert(!self.virtual_names().contains(normalize_83(name@)));
        }
        match find_entry(&self.files, &key) {
            Some(i) => {
                proof {
                    lemma_byte_map_lookup(self.files@, i as int);
                }
                Some(slice_to_vec(self.files[i].1.as_slice()))
            },
            None => {
                proof {
                    lemma_byte_map_contains(self.files@, key@);
                }
                None
            },
        }
    }

    /// Package drives are read-only: every write is refused with the
    /// read-only error and nothing changes.
    fn write_file(&mut self, name: &str, data: &[u8]) -> (r: CpmResult<()>)
        ensures
            r == Err::<(), CpmError>(CpmError::ReadOnly),
    {
        Err(CpmError::ReadOnly)
    }

    /// Package drives are read-only: a delete refuses and answers false.
    fn delete_file(&mut self, name: &str) -> (r: bool)
        ensures
            r == false,
    {
        false
    }

    fn list_files(&self) -> (r: Vec<String>)
        ensures
            crate::emulator::sorted_names(r@),
    {
        let mut r: Vec<String> = Vec::new();
        let mut i: usize = 0;
        while i < self.files.len()
            invariant
                i <= self.files@.len(),
                r@.len() == i,
                forall|j: int| 0 <= j < i ==> (#[trigger] r@[j])@ == self.files@[j].0@,
            decreases self.files@.len() - i,
        {
            r.push(self.files[i].0.clone());
            i += 1;
        }
        let ghost base_views = r@.map_values(|s: String| s@);
        proof {
            assert(base_views =~= crate::memory_drive::entry_keys(self.files@));
            assert forall|key: Seq<char>| #[trigger]
                base_views.to_set().contains(key) == self.files().contains_key(key) by {
                lemma_byte_map_contains(self.files@, key);
                if base_views.to_set().contains(key) {
                    let j = choose|j: int| 0 <= j < base_views.len() && base_views[j] == key;
                    assert(self.files@[j].0@ == key);
                }
                if self.files().contains_key(key) {
                    let j = choose|j: int|
                        0 <= j < self.files@.len() && (#[trigger] self.files@[j]).0@ == key;
                    assert(base_views[j] == key);
                    assert(base_views.contains(key));
                }
            }
        }
        if self.packages.len() > 0 {
            let mname = String::from_str("MANIFEST.MF");
            match find_name(&r, &mname) {
                Some(i) => {
                    proof {
                        let views = r@.map_values(|s: String| s@);
                        assert(views[i as int] == Self::manifest_name());
                        assert(views.to_set().contains(Self::manifest_name())) by {
                            assert(views.contains(Self::manifest_name()));
                        }
                        assert(views.to_set() =~= self.files().dom().union(self.virtual_names()));
                    }
                },
                None => {
                    let ghost pre = r@;
                    r.push(mname);
                    proof {
                        let views = r@.map_values(|s: String| s@);
                        let pviews = pre.map_values(|s: String| s@);
                        assert(views =~= pviews.push(Self::manifest_name()));
                        assert(forall|p: int|
                            0 <= p < pviews.len() ==> pviews[p] != Self::manifest_name());
                        assert(views.no_duplicates());
                        assert forall|x: Seq<char>| #[trigger]
                            views.to_set().contains(x) == self.files().dom().union(
                                self.virtual_names(),
                            ).contains(x) by {
                            if views.to_set().contains(x) {
                                let p = choose|p: int|
                                    0 <= p < views.len() && (#[trigger] views[p]) == x;
                                if p < pviews.len() {
                                    assert(pviews[p] == x);
                                    assert(pviews.contains(x));
                                    assert(pviews.to_set().contains(x));
                                }
                            }
                            if self.files().dom().union(self.virtual_names()).contains(x) {
                                if self.files().contains_key(x) {
                                    assert(pviews.to_set().contains(x));
                                    let p = choose|p: int|
                                        0 <= p < pviews.len() && (#[trigger] pviews[p]) == x;
                                    assert(views[p] == x);
                                    assert(views.contains(x));
                                } else {
                                    assert(x == Self::manifest_name());
                                    assert(views[views.len() - 1] == x);
                                    assert(views.contains(x));
                                }
                            }
                        }
                        assert(views.to_set() =~= self.files().dom().union(self.virtual_names()));
                    }
                },
            }
        } else {
            proof {
                assert(r@.map_values(|s: String| s@).to_set() =~= self.files().dom().union(
                    self.virtual_names(),
                ));
            }
        }
        let sorted = crate::emulator::sort_names(r);
        proof {
            assert(sorted@.map_values(|s: String| s@).to_set() =~= self.files().dom().union(
                self.virtual_names(),
            ));
        }
        sorted
    }

    fn has_file(&self, name: &str) -> (r: bool) {
        let key = to_8_3(name);
        if self.packages.len() > 0 {
            let mname = String::from_str("MANIFEST.MF");
            if key == mname {
                proof {
                    assert(self.virtual_names().contains(normalize_83(name@)));
                }
                return true;
            }
        }
        proof {
            assert(!self.virtual_names().contains(normalize_83(name@)));
            lemma_byte_map_contains(self.files@, normalize_83(name@));
        }
        match find_entry(&self.files, &key) {
            Some(_) => true,
            None => false,
        }
    }
}

} // verus!
