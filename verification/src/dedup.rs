//! The byte-level parts of de-duplication: where a card's appended
//! character data starts, how a hash is written down, which index column a
//! mode groups by, and the bookkeeping around a store's rows.

use vstd::prelude::*;
use crate::msgpack::be_uint;
use crate::text::{hex_digits, push_hex, str_eq};
use crate::paths::{components, file_name, join, joined, path_components, path_file_name, path_strip_prefix, strip_prefix};
use crate::organize::{is_png, spec_is_png};

verus! {

/// The first `HEAD` bytes of a file form its cheap first-tier hash.
pub const HEAD: u64 = 1048576;

/// The index column that a mode groups duplicates by: `char_hash` for the
/// character-data mode, `full_hash` for every other mode.
pub open spec fn spec_group_col(mode: Seq<char>) -> Seq<char> {
    if mode == "char"@ {
        "char_hash"@
    } else {
        "full_hash"@
    }
}

pub fn group_col(mode: &str) -> (c: &'static str)
    ensures
        c@ == spec_group_col(mode@),
{
    if crate::text::str_eq(mode, "char") {
        "char_hash"
    } else {
        "full_hash"
    }
}

/// The eight bytes every PNG file starts with.
pub open spec fn png_signature() -> Seq<u8> {
    seq![0x89u8, 0x50u8, 0x4Eu8, 0x47u8, 0x0Du8, 0x0Au8, 0x1Au8, 0x0Au8]
}

/// The type of the chunk that ends a PNG image.
pub open spec fn iend() -> Seq<u8> {
    seq![0x49u8, 0x45u8, 0x4Eu8, 0x44u8]
}

/// Walks PNG chunks (length, type, data, CRC) from `off` to the end of
/// IEND. Gives the offset just past IEND and how many bytes follow it
/// (zero when IEND's declared end lies past the end of the file), or `None`
/// when a chunk header is cut off or a chunk runs past the end.
pub open spec fn chunk_walk(data: Seq<u8>, off: nat) -> Option<(nat, nat)>
    decreases data.len() - off,
{
    if off + 8 > data.len() {
        None
    } else {
        let ln = be_uint(data.subrange(off as int, off + 4int));
        let next = off + 12 + ln;
        if data.subrange(off + 4int, off + 8int) == iend() {
            Some((next, if data.len() >= next { (data.len() - next) as nat } else { 0 }))
        } else if next > data.len() {
            None
        } else {
            chunk_walk(data, next)
        }
    }
}

/// Offset and length of the character data appended after a PNG image:
/// everything after the end of its IEND chunk. `None` when the data is not
/// a PNG or its chunk chain is malformed.
pub open spec fn spec_png_char_block(data: Seq<u8>) -> Option<(nat, nat)> {
    if data.len() < 8 || data.subrange(0, 8) != png_signature() {
        None
    } else {
        chunk_walk(data, 8)
    }
}

/// Walks the leading PNG's chunks to the end of IEND. Everything after that
/// is the appended Koikatsu character data (the cover image is ignored).
/// Byte-level only: the embedded name is never decoded, so non-UTF-8 or
/// special characters in the card data cannot affect the result.
pub fn png_char_block(data: &[u8]) -> (r: Option<(u64, u64)>)
    ensures
        match spec_png_char_block(data@) {
            Some((off, len)) => r == Some((off as u64, len as u64)),
            None => r is None,
        },
        spec_png_char_block(data@) matches Some((o, l)) ==> o <= u64::MAX && l <= data@.len() && (l
            > 0 ==> o + l == data@.len()),
{
    let len = crate::text::slice_len(data);
    if len < 8 {
        return None;
    }
    if !(data[0] == 0x89 && data[1] == 0x50 && data[2] == 0x4E && data[3] == 0x47 && data[4] == 0x0D
        && data[5] == 0x0A && data[6] == 0x1A && data[7] == 0x0A) {
        proof {
            assert(data@.subrange(0, 8) != png_signature()) by {
                if data@.subrange(0, 8) == png_signature() {
                    assert(data@.subrange(0, 8)[0] == data@[0]);
                    assert(data@.subrange(0, 8)[1] == data@[1]);
                    assert(data@.subrange(0, 8)[2] == data@[2]);
                    assert(data@.subrange(0, 8)[3] == data@[3]);
                    assert(data@.subrange(0, 8)[4] == data@[4]);
                    assert(data@.subrange(0, 8)[5] == data@[5]);
                    assert(data@.subrange(0, 8)[6] == data@[6]);
                    assert(data@.subrange(0, 8)[7] == data@[7]);
                }
            }
        }
        return None;
    }
    assert(data@.subrange(0, 8) =~= png_signature());
    let mut off: usize = 8;
    loop
        invariant
            len == data@.len(),
            len <= isize::MAX,
            8 <= off <= len,
            spec_png_char_block(data@) == chunk_walk(data@, off as nat),
        decreases len - off,
    {
        if off + 8 > len {
            return None;
        }
        let ln: u64 = ((data[off] as u64 * 256 + data[off + 1] as u64) * 256 + data[off + 2] as u64)
            * 256 + data[off + 3] as u64;
        proof {
            let h = data@.subrange(off as int, off + 4);
            assert(h.drop_last() =~= data@.subrange(off as int, off + 3));
            assert(h.drop_last().drop_last() =~= data@.subrange(off as int, off + 2));
            assert(h.drop_last().drop_last().drop_last() =~= data@.subrange(off as int, off + 1));
            assert(h.drop_last().drop_last().drop_last().drop_last() =~= Seq::<u8>::empty());
            reveal_with_fuel(be_uint, 5);
            assert(ln == be_uint(h));
        }
        let is_iend = data[off + 4] == 0x49 && data[off + 5] == 0x45 && data[off + 6] == 0x4E
            && data[off + 7] == 0x44;
        proof {
            let t = data@.subrange(off + 4, off + 8);
            if is_iend {
                assert(t =~= iend());
            } else {
                assert(t != iend()) by {
                    if t == iend() {
                        assert(t[0] == data@[off + 4]);
                        assert(t[1] == data@[off + 5]);
                        assert(t[2] == data@[off + 6]);
                        assert(t[3] == data@[off + 7]);
                    }
                }
            }
        }
        let next: u64 = off as u64 + 12 + ln;
        if is_iend {
            let rest: u64 = if len as u64 >= next {
                len as u64 - next
            } else {
                0
            };
            return Some((next, rest));
        }
        if next > len as u64 {
            return None;
        }
        off = next as usize;
    }
}


// ---------------------------------------------------------------------------
// Hashing.
// ---------------------------------------------------------------------------

/// What xxHash64 gives for `data` with `seed`.
pub uninterp spec fn xxh64(seed: u64, data: Seq<u8>) -> u64;

/// Calls `twox_hash::XxHash64::oneshot`. Claimed: the 64-bit hash depends
/// on the seed and the bytes alone; the algorithm itself is left to the name.
#[verifier::external_body]
fn xxhash64(seed: u64, data: &[u8]) -> (h: u64)
    ensures
        h == xxh64(seed, data@),
{
    twox_hash::XxHash64::oneshot(seed, data)
}

/// Writes a hash as sixteen lower-case hex digits, zero-padded.
fn hex16(v: u64) -> (s: String)
    ensures
        s@ == hex_digits(v as nat, 16, false),
{
    let mut s = String::new();
    push_hex(&mut s, v, 8, false);
    assert(s@ =~= hex_digits(v as nat, 16, false));
    s
}

/// How a hash is written in the store: xxHash64 with seed 0, as sixteen
/// lower-case hex digits.
pub open spec fn hash_text(data: Seq<u8>) -> Seq<char> {
    hex_digits(xxh64(0, data) as nat, 16, false)
}

/// The bytes that a hash with an optional byte limit covers.
pub open spec fn limited(data: Seq<u8>, max: Option<u64>) -> Seq<u8> {
    match max {
        Some(m) => if m < data.len() { data.take(m as int) } else { data },
        None => data,
    }
}

/// Hash of a file's contents, of at most its first `max` bytes when a limit
/// is given (the first tier hashes the first `HEAD` bytes).
pub fn hash_file(data: &[u8], max: Option<u64>) -> (h: String)
    ensures
        h@ == hash_text(limited(data@, max)),
{
    let len = crate::text::slice_len(data);
    let part: &[u8] = match max {
        Some(m) => if m < len as u64 {
            vstd::slice::slice_subrange(data, 0, m as usize)
        } else {
            data
        },
        None => data,
    };
    proof {
        if let Some(m) = max {
            if m < len as u64 {
                assert(part@ =~= data@.take(m as int));
            }
        }
    }
    hex16(xxhash64(0, part))
}

/// The bytes from `offset` to the end (nothing when `offset` lies past the
/// end: reading there yields no bytes).
pub open spec fn from_offset(data: Seq<u8>, offset: nat) -> Seq<u8> {
    if offset <= data.len() {
        data.skip(offset as int)
    } else {
        Seq::empty()
    }
}

/// Hash of the character block: every byte from `offset` to the end.
pub fn hash_char_block(data: &[u8], offset: u64) -> (h: String)
    ensures
        h@ == hash_text(from_offset(data@, offset as nat)),
{
    let len = crate::text::slice_len(data);
    let part: &[u8] = if offset <= len as u64 {
        vstd::slice::slice_subrange(data, offset as usize, len)
    } else {
        vstd::slice::slice_subrange(data, len, len)
    };
    proof {
        if offset <= len as u64 {
            assert(part@ =~= data@.skip(offset as int));
        } else {
            assert(part@ =~= Seq::<u8>::empty());
        }
    }
    hex16(xxhash64(0, part))
}

/// The `char_len` recorded for a file: the length of its appended character
/// block, 0 when it has none (not a PNG, or a malformed chunk chain).
pub open spec fn spec_char_len(data: Seq<u8>) -> int {
    match spec_png_char_block(data) {
        Some((_, l)) => l as int,
        None => 0,
    }
}

pub fn char_len(data: &[u8]) -> (r: i64)
    ensures
        r == spec_char_len(data@),
{
    let len = crate::text::slice_len(data);
    match png_char_block(data) {
        Some((_, l)) => {
            assert(l <= len);
            l as i64
        },
        None => 0,
    }
}

/// The `char_hash` recorded for a file: the hash of its character block, or
/// nothing when the file is not a well-formed PNG.
pub open spec fn spec_char_hash(data: Seq<u8>) -> Option<Seq<char>> {
    match spec_png_char_block(data) {
        Some((off, _)) => Some(hash_text(from_offset(data, off))),
        None => None,
    }
}

pub fn char_hash(data: &[u8]) -> (r: Option<String>)
    ensures
        match spec_char_hash(data@) {
            Some(h) => r matches Some(s) && s@ == h,
            None => r is None,
        },
{
    match png_char_block(data) {
        Some((off, _)) => Some(hash_char_block(data, off)),
        None => None,
    }
}

/// A walk that ends inside `a` ends at the same place when more bytes
/// follow `a`; what follows the end then runs to the new end.
proof fn lemma_chunk_walk_append(a: Seq<u8>, b: Seq<u8>, off: nat)
    requires
        chunk_walk(a, off) matches Some((n, _)) && n <= a.len(),
    ensures
        chunk_walk(a, off) matches Some((n, _)) ==> chunk_walk(a + b, off) == Some(
            (n, (a.len() + b.len() - n) as nat),
        ),
    decreases a.len() - off,
{
    let ab = a + b;
    assert(ab.subrange(off as int, off + 4int) =~= a.subrange(off as int, off + 4int));
    assert(ab.subrange(off + 4int, off + 8int) =~= a.subrange(off + 4int, off + 8int));
    let ln = be_uint(a.subrange(off as int, off + 4int));
    let next = off + 12 + ln;
    if a.subrange(off + 4int, off + 8int) != iend() {
        lemma_chunk_walk_append(a, b, next);
    }
}

/// The first-tier hash of a file no longer than `HEAD` bytes already covers
/// the whole file: it is the file's full hash, and the store may copy it.
pub proof fn law_small_file_head_hash_is_full_hash(data: Seq<u8>)
    requires
        data.len() <= HEAD,
    ensures
        hash_text(limited(data, Some(HEAD))) == hash_text(limited(data, None)),
{
}

/// The character hash of a card is the hash of the bytes appended after its
/// PNG image, and nothing else: whatever complete PNG image (with nothing
/// after its IEND) stands in front of the character data `c`, the card's
/// character length is that of `c` and its character hash is the hash of `c`.
pub proof fn law_char_hash_ignores_the_cover_image(img: Seq<u8>, c: Seq<u8>)
    requires
        spec_png_char_block(img) == Some((img.len(), 0nat)),
    ensures
        spec_char_len(img + c) == c.len(),
        spec_char_hash(img + c) == Some(hash_text(c)),
{
    let d = img + c;
    assert(d.subrange(0, 8) =~= img.subrange(0, 8));
    lemma_chunk_walk_append(img, c, 8);
    assert(spec_png_char_block(d) == Some((img.len(), c.len())));
    assert(d.skip(img.len() as int) =~= c);
}

// ---------------------------------------------------------------------------
// Rows of the store.
// ---------------------------------------------------------------------------

/// One file of a duplicate group.
#[derive(Debug, Clone)]
pub struct FileEntry {
    pub name: String,
    pub path: String,
    pub size: u64,
}

/// Files that share one hash.
#[derive(Debug, Clone)]
pub struct Group {
    pub hash: String,
    pub files: Vec<FileEntry>,
}

/// What a sync reports: rows in the store, duplicate groups, files in those
/// groups, rows added, rows pruned.
#[derive(Debug, Clone, Copy)]
pub struct SyncResult {
    pub total: i64,
    pub groups: i64,
    pub dup_files: i64,
    pub new: i64,
    pub pruned: i64,
}

/// How many files the duplicate groups hold together.
pub open spec fn files_in(groups: Seq<Group>) -> nat
    decreases groups.len(),
{
    if groups.len() == 0 {
        0
    } else {
        files_in(groups.drop_last()) + groups.last().files@.len()
    }
}

/// The number of groups and the number of files in them, as the statistics
/// report them; a count beyond `usize::MAX` reads as `usize::MAX`.
pub fn group_counts(groups: &Vec<Group>) -> (r: (usize, usize))
    ensures
        r.0 == groups@.len(),
        r.1 == if files_in(groups@) <= usize::MAX { files_in(groups@) as int } else { usize::MAX as int },
{
    let mut n: usize = 0;
    let mut i: usize = 0;
    while i < groups.len()
        invariant
            i <= groups@.len(),
            n == if files_in(groups@.take(i as int)) <= usize::MAX {
                files_in(groups@.take(i as int)) as int
            } else {
                usize::MAX as int
            },
        decreases groups@.len() - i,
    {
        assert(groups@.take(i + 1).drop_last() =~= groups@.take(i as int));
        n = n.saturating_add(groups[i].files.len());
        i += 1;
    }
    assert(groups@.take(groups@.len() as int) =~= groups@);
    (groups.len(), n)
}

/// The name shown for a stored path: its last component, or nothing.
pub open spec fn entry_name(path: Seq<char>) -> Seq<char> {
    match path_file_name(path) {
        Some(n) => n,
        None => Seq::empty(),
    }
}

impl FileEntry {
    /// The entry for a stored row. A stored size is never negative; one that
    /// is reads as its two's-complement bit pattern, as the cast does.
    pub fn from_row(path: String, size: i64) -> (e: FileEntry)
        ensures
            e.name@ == entry_name(path@),
            e.path@ == path@,
            e.size == size as u64,
    {
        let name = match file_name(path.as_str()) {
            Some(n) => n,
            None => String::new(),
        };
        FileEntry { name, path, size: size as u64 }
    }
}

/// The row limit handed to the store's query: SQLite reads -1 as "no limit",
/// which is what a limit beyond `i64::MAX` means.
pub open spec fn spec_sql_limit(limit: usize) -> int {
    if limit > i64::MAX { -1 } else { limit as int }
}

pub fn sql_limit(limit: usize) -> (r: i64)
    ensures
        r == spec_sql_limit(limit),
{
    if limit as u128 > i64::MAX as u128 {
        -1
    } else {
        limit as i64
    }
}

/// Whether `x` occurs in `v`.
pub open spec fn listed(v: Seq<Seq<char>>, x: Seq<char>) -> bool {
    exists|i: int| 0 <= i < v.len() && v[i] == x
}

/// The stored paths whose file was not seen by the latest scan, in store
/// order: the rows a scan prunes.
pub open spec fn spec_vanished(existing: Seq<Seq<char>>, seen: Seq<Seq<char>>) -> Seq<Seq<char>> {
    existing.filter(|p: Seq<char>| !listed(seen, p))
}

/// Whether `x` occurs in `v`.
fn contains_str(v: &Vec<String>, x: &str) -> (r: bool)
    ensures
        r == listed(v@.map_values(|s: String| s@), x@),
{
    let ghost m = v@.map_values(|s: String| s@);
    let mut i: usize = 0;
    while i < v.len()
        invariant
            m == v@.map_values(|s: String| s@),
            i <= v@.len(),
            forall|j: int| 0 <= j < i ==> m[j] != x@,
        decreases v@.len() - i,
    {
        if str_eq(v[i].as_str(), x) {
            assert(m[i as int] == x@);
            return true;
        }
        i += 1;
    }
    false
}

pub fn vanished(existing: &Vec<String>, seen: &Vec<String>) -> (r: Vec<String>)
    ensures
        r@.map_values(|s: String| s@) == spec_vanished(
            existing@.map_values(|s: String| s@),
            seen@.map_values(|s: String| s@),
        ),
{
    let ghost ex = existing@.map_values(|s: String| s@);
    let ghost sn = seen@.map_values(|s: String| s@);
    let mut out: Vec<String> = Vec::new();
    let mut i: usize = 0;
    while i < existing.len()
        invariant
            ex == existing@.map_values(|s: String| s@),
            sn == seen@.map_values(|s: String| s@),
            i <= existing@.len(),
            out@.map_values(|s: String| s@) == spec_vanished(ex.take(i as int), sn),
        decreases existing@.len() - i,
    {
        proof {
            assert(ex.take(i + 1).drop_last() =~= ex.take(i as int));
            reveal(Seq::filter);
        }
        if !contains_str(seen, existing[i].as_str()) {
            out.push(existing[i].clone());
            assert(out@.map_values(|s: String| s@) =~= spec_vanished(ex.take(i as int), sn).push(ex[i as int]));
        } else {
            assert(out@.map_values(|s: String| s@) =~= spec_vanished(ex.take(i as int), sn));
        }
        i += 1;
    }
    assert(ex.take(ex.len() as int) =~= ex);
    out
}

/// How many listed entries are regular files with a `png` extension
/// (`(path, is_file)` pairs).
pub open spec fn png_count(entries: Seq<(Seq<char>, bool)>) -> nat
    decreases entries.len(),
{
    if entries.len() == 0 {
        0
    } else {
        png_count(entries.drop_last()) + if entries.last().1 && spec_is_png(entries.last().0) { 1nat } else { 0nat }
    }
}

/// Counts the top-level PNG files of a listing.
pub fn count_pngs(entries: &Vec<(String, bool)>) -> (n: usize)
    ensures
        n == png_count(entries@.map_values(|e: (String, bool)| (e.0@, e.1))),
{
    let ghost m = entries@.map_values(|e: (String, bool)| (e.0@, e.1));
    let mut n: usize = 0;
    let mut i: usize = 0;
    while i < entries.len()
        invariant
            m == entries@.map_values(|e: (String, bool)| (e.0@, e.1)),
            i <= entries@.len(),
            n <= i,
            n == png_count(m.take(i as int)),
        decreases entries@.len() - i,
    {
        assert(m.take(i + 1).drop_last() =~= m.take(i as int));
        if entries[i].1 && is_png(entries[i].0.as_str()) {
            n += 1;
        }
        i += 1;
    }
    assert(m.take(m.len() as int) =~= m);
    n
}

// ---------------------------------------------------------------------------
// Deleting chosen duplicates.
// ---------------------------------------------------------------------------

/// Whether `name` is a path inside `root` that stays there: what is left
/// once `root` is stripped off has at least one component and none of them
/// is `..`.
pub open spec fn inside_root(root: Seq<char>, name: Seq<char>) -> bool {
    match path_strip_prefix(name, root) {
        Some(rel) => {
            let cs = path_components(rel);
            cs.len() > 0 && forall|i: int| 0 <= i < cs.len() ==> cs[i] != ".."@
        },
        None => false,
    }
}

/// The file a requested deletion is resolved to. A path inside the scanned
/// folder (as the groups list it) names exactly that file; any other name is
/// reduced to its last component (or taken whole when it has none) and
/// looked for directly in the scanned folder, so nothing outside the folder
/// can be named.
pub open spec fn spec_delete_target(root: Seq<char>, name: Seq<char>) -> Seq<char> {
    if inside_root(root, name) {
        name
    } else {
        joined(
            root,
            match path_file_name(name) {
                Some(b) => b,
                None => name,
            },
        )
    }
}

/// Whether a path inside `root` stays there.
fn is_inside_root(root: &str, name: &str) -> (r: bool)
    ensures
        r == inside_root(root@, name@),
{
    let rel = match strip_prefix(name, root) {
        Some(r) => r,
        None => return false,
    };
    let cs = components(rel.as_str());
    let ghost m = cs@.map_values(|s: String| s@);
    assert(m.len() == cs@.len());
    assert(path_strip_prefix(name@, root@) == Some(rel@));
    assert(path_components(rel@) == m);
    if cs.len() == 0 {
        return false;
    }
    let mut i: usize = 0;
    while i < cs.len()
        invariant
            m == cs@.map_values(|s: String| s@),
            m == path_components(rel@),
            path_strip_prefix(name@, root@) == Some(rel@),
            i <= m.len(),
            forall|j: int| 0 <= j < i ==> m[j] != ".."@,
        decreases m.len() - i,
    {
        if str_eq(cs[i].as_str(), "..") {
            assert(m[i as int] == ".."@);
            return false;
        }
        i += 1;
    }
    true
}

pub fn delete_target(root: &str, name: &str) -> (p: String)
    ensures
        p@ == spec_delete_target(root@, name@),
{
    if is_inside_root(root, name) {
        return name.to_owned();
    }
    match file_name(name) {
        Some(b) => join(root, b.as_str()),
        None => join(root, name),
    }
}

/// The running result of a deletion: files deleted, bytes freed, errors.
#[derive(Debug, Clone)]
pub struct DeleteTally {
    pub deleted: usize,
    pub freed: u64,
    pub errors: Vec<String>,
}

/// What happened to one requested file: deleted (with its size), or the
/// error's text.
pub open spec fn spec_delete_step(
    t: (nat, nat, Seq<Seq<char>>),
    name: Seq<char>,
    outcome: Result<u64, Seq<char>>,
) -> (nat, nat, Seq<Seq<char>>) {
    match outcome {
        Ok(size) => (t.0 + 1, t.1 + size as nat, t.2),
        Err(e) => (t.0, t.1, t.2.push(name + ": "@ + e)),
    }
}

/// The tally after a run of requested files, from an empty one.
pub open spec fn spec_delete_fold(names: Seq<Seq<char>>, outcomes: Seq<Result<u64, Seq<char>>>) -> (
    nat,
    nat,
    Seq<Seq<char>>,
)
    decreases outcomes.len(),
{
    if outcomes.len() == 0 || names.len() != outcomes.len() {
        (0, 0, Seq::empty())
    } else {
        spec_delete_step(
            spec_delete_fold(names.drop_last(), outcomes.drop_last()),
            names.last(),
            outcomes.last(),
        )
    }
}

/// The bytes freed by the successful deletions of a run.
pub open spec fn freed_total(outcomes: Seq<Result<u64, Seq<char>>>) -> nat
    decreases outcomes.len(),
{
    if outcomes.len() == 0 {
        0
    } else {
        freed_total(outcomes.drop_last()) + match outcomes.last() {
            Ok(s) => s as nat,
            Err(_) => 0nat,
        }
    }
}

/// Every requested file is accounted for exactly once: it is either counted
/// as deleted or reported with an error, and the freed bytes are the sizes
/// of exactly the deleted files.
pub proof fn law_every_requested_file_is_accounted_for(
    names: Seq<Seq<char>>,
    outcomes: Seq<Result<u64, Seq<char>>>,
)
    requires
        names.len() == outcomes.len(),
    ensures
        spec_delete_fold(names, outcomes).0 + spec_delete_fold(names, outcomes).2.len() == outcomes.len(),
        spec_delete_fold(names, outcomes).1 == freed_total(outcomes),
    decreases outcomes.len(),
{
    if outcomes.len() > 0 {
        law_every_requested_file_is_accounted_for(names.drop_last(), outcomes.drop_last());
    }
}

/// Every reported error begins with the name of a requested file whose
/// deletion failed, followed by `: `, so each error says which file it is
/// about.
pub proof fn law_each_delete_error_names_its_file(
    names: Seq<Seq<char>>,
    outcomes: Seq<Result<u64, Seq<char>>>,
)
    requires
        names.len() == outcomes.len(),
    ensures
        forall|k: int|
            0 <= k < spec_delete_fold(names, outcomes).2.len() ==> exists|i: int|
                0 <= i < names.len() && outcomes[i] is Err && (names[i] + ": "@).is_prefix_of(
                    #[trigger] spec_delete_fold(names, outcomes).2[k],
                ),
    decreases outcomes.len(),
{
    if outcomes.len() > 0 {
        let n0 = names.drop_last();
        let o0 = outcomes.drop_last();
        law_each_delete_error_names_its_file(n0, o0);
        let before = spec_delete_fold(n0, o0).2;
        let after = spec_delete_fold(names, outcomes).2;
        assert forall|k: int| 0 <= k < after.len() implies exists|i: int|
            0 <= i < names.len() && outcomes[i] is Err && (names[i] + ": "@).is_prefix_of(#[trigger] after[k]) by {
            if k < before.len() {
                assert(after[k] == before[k]);
                let i = choose|i: int|
                    0 <= i < n0.len() && o0[i] is Err && (n0[i] + ": "@).is_prefix_of(#[trigger] before[k]);
                assert(names[i] == n0[i] && outcomes[i] == o0[i]);
            } else {
                let i = names.len() - 1;
                let e = outcomes[i]->Err_0;
                assert(after[k] == names[i] + ": "@ + e);
                assert((names[i] + ": "@).is_prefix_of(after[k])) by {
                    assert((names[i] + ": "@ + e).subrange(0, (names[i] + ": "@).len() as int) =~= names[i] + ": "@);
                }
            }
        }
    }
}

impl DeleteTally {
    pub open spec fn model(&self) -> (nat, nat, Seq<Seq<char>>) {
        (self.deleted as nat, self.freed as nat, self.errors@.map_values(|s: String| s@))
    }

    pub fn new() -> (t: DeleteTally)
        ensures
            t.model() == (0nat, 0nat, Seq::<Seq<char>>::empty()),
    {
        let t = DeleteTally { deleted: 0, freed: 0, errors: Vec::new() };
        assert(t.model().2 =~= Seq::<Seq<char>>::empty());
        t
    }

    /// Records one requested file. A store or error message that cannot be
    /// written does not change the count: only the outcome on disk does.
    pub fn record(&mut self, name: &str, outcome: Result<u64, String>)
        requires
            outcome is Ok ==> old(self).deleted < usize::MAX && old(self).freed + outcome->Ok_0 <= u64::MAX,
        ensures
            final(self).model() == spec_delete_step(
                old(self).model(),
                name@,
                match outcome {
                    Ok(s) => Ok(s),
                    Err(e) => Err(e@),
                },
            ),
    {
        match outcome {
            Ok(size) => {
                self.deleted = self.deleted + 1;
                self.freed = self.freed + size;
                assert(self.errors@ == old(self).errors@);
            },
            Err(e) => {
                let mut msg = name.to_owned();
                msg.append(": ");
                msg.append(e.as_str());
                let ghost before = self.errors@;
                self.errors.push(msg);
                assert(self.errors@.map_values(|s: String| s@) =~= before.map_values(|s: String| s@).push(
                    name@ + ": "@ + e@,
                ));
            },
        }
    }
}

} // verus!
