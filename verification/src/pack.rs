//! The pack store: compressed archive objects holding a full snapshot of
//! named text files, plus raw text compression for storing serialized
//! patches. Archives and compression are produced by the tar and flate2
//! crates behind trusted boundaries; building, reading and interpreting
//! snapshots is verified.

use vstd::prelude::*;

use crate::model::LilyError;
use crate::smap::map_put;
use crate::smap::mkey;
use crate::smap::sorted_keys;
use crate::smap::SMap;
use crate::text::lex_lt;

use std::io::Read;
use std::io::Write;

verus! {

// ------------------------------------------------------------------
// Trusted boundary: gzip of a single text
// ------------------------------------------------------------------

/// The gzip stream that flate2's encoder, at default settings, writes for
/// the UTF-8 bytes of a text.
pub uninterp spec fn gzip_of(s: Seq<char>) -> Seq<u8>;

/// The text that flate2's decoder reads out of a byte sequence: defined
/// where the bytes are a gzip stream of UTF-8 text, nothing otherwise.
pub uninterp spec fn gunzip_of(b: Seq<u8>) -> Option<Seq<char>>;

/// Relies on flate2's `GzEncoder`: writes a reproducible gzip stream
/// (fixed header, no timestamp) that its decoder reads back verbatim.
#[verifier::external_body]
fn gzip_string(input: &str) -> (r: Vec<u8>)
    ensures
        r@ == gzip_of(input@),
        gunzip_of(r@) == Option::Some(input@),
{
    let mut enc = flate2::write::GzEncoder::new(Vec::new(), flate2::Compression::default());
    enc.write_all(input.as_bytes()).unwrap();
    enc.finish().unwrap()
}

/// Relies on flate2's `GzDecoder`: reads the text out of a gzip stream and
/// reports an error on anything that is not one.
#[verifier::external_body]
fn gunzip_string(input: &Vec<u8>) -> (r: Option<String>)
    ensures
        match r {
            Option::Some(s) => gunzip_of(input@) == Option::Some(s@),
            Option::None => gunzip_of(input@) is None,
        },
{
    let mut dec = flate2::read::GzDecoder::new(&input[..]);
    let mut out = String::new();
    match dec.read_to_string(&mut out) {
        Ok(_) => Some(out),
        Err(_) => None,
    }
}

// ------------------------------------------------------------------
// Trusted boundary: tar.gz archives of path -> content entries
// ------------------------------------------------------------------

/// The tar.gz archive that the tar builder writes for a sequence of
/// path and text-content entries, in order, with fixed header fields.
pub uninterp spec fn targz_of(entries: Seq<(Seq<char>, Seq<char>)>) -> Seq<u8>;

/// The entries that the tar reader lists from a byte sequence: defined
/// where the bytes are a tar.gz archive of UTF-8 text files.
pub uninterp spec fn untargz_of(b: Seq<u8>) -> Option<Seq<(Seq<char>, Seq<char>)>>;

/// The character-level view of owned path and content pairs.
pub open spec fn entries_view(v: Seq<(String, String)>) -> Seq<(Seq<char>, Seq<char>)> {
    v.map_values(|p: (String, String)| (p.0@, p.1@))
}

/// Whether position `a` opens a `.` or `..` path segment.
pub open spec fn dot_segment_at(p: Seq<char>, a: int) -> bool {
    &&& (a == 0 || p[a - 1] == '/')
    &&& a < p.len()
    &&& p[a] == '.'
    &&& ((a + 1 == p.len() || p[a + 1] == '/') || (a + 1 < p.len() && p[a + 1] == '.' && (a + 2
        == p.len() || p[a + 2] == '/')))
}

/// A path the archive boundary stores verbatim: nonempty and made only
/// of plain `/`-separated components — no leading, trailing or doubled
/// separator, no `.` or `..` component, no NUL character. The tar
/// builder would refuse a `..` component and normalize the others, so
/// they stay outside the boundary.
pub open spec fn pack_path_ok(p: Seq<char>) -> bool {
    &&& p.len() > 0
    &&& p[0] != '/'
    &&& p[p.len() - 1] != '/'
    &&& forall|i: int| 0 <= i < p.len() ==> #[trigger] p[i] != '\u{0}'
    &&& forall|i: int| 0 < i < p.len() ==> !(p[i - 1] == '/' && #[trigger] p[i] == '/')
    &&& forall|a: int| 0 <= a < p.len() ==> !dot_segment_at(p, a)
}

/// Decides `pack_path_ok` by scanning the path segment by segment.
pub fn is_pack_path_ok(p: &str) -> (r: bool)
    ensures
        r == pack_path_ok(p@),
{
    let n = p.unicode_len();
    if n == 0 {
        return false;
    }
    let mut st: usize = 0;
    let mut i: usize = 0;
    loop
        invariant
            st <= i <= n,
            n == p@.len(),
            n > 0,
            st == 0 || p@[st - 1] == '/',
            forall|j: int| st <= j < i ==> #[trigger] p@[j] != '/',
            forall|j: int| 0 <= j < i ==> #[trigger] p@[j] != '\u{0}',
            i > 0 ==> p@[0] != '/',
            forall|j: int| 0 < j < i ==> !(p@[j - 1] == '/' && #[trigger] p@[j] == '/'),
            forall|a: int| 0 <= a < st ==> !dot_segment_at(p@, a),
        decreases n - i,
    {
        if i == n {
            if i == st {
                // The path ends in a separator (or is all separators).
                proof {
                    assert(p@[n - 1] == '/');
                }
                return false;
            }
            if bad_segment(p, st, i) {
                proof {
                    lemma_dot_segment(p@, st as int, i as int);
                }
                return false;
            }
            proof {
                lemma_plain_segment(p@, st as int, i as int);
                assert forall|a: int| 0 <= a < n implies !dot_segment_at(p@, a) by {
                    if a >= st {
                        assert(!dot_segment_at(p@, a));
                    }
                }
                assert(p@[n - 1] != '/');
            }
            return true;
        }
        let c = p.get_char(i);
        if c == '\u{0}' {
            return false;
        }
        if c == '/' {
            if i == st {
                proof {
                    if st == 0 {
                        assert(p@[0] == '/');
                    } else {
                        assert(p@[st - 1] == '/' && p@[st as int] == '/');
                    }
                }
                return false;
            }
            if bad_segment(p, st, i) {
                proof {
                    lemma_dot_segment(p@, st as int, i as int);
                }
                return false;
            }
            proof {
                lemma_plain_segment(p@, st as int, i as int);
                assert forall|a: int| 0 <= a < i + 1 implies !dot_segment_at(p@, a) by {
                    if a >= st {
                        assert(!dot_segment_at(p@, a));
                    }
                }
            }
            st = i + 1;
        }
        i += 1;
    }
}

/// Whether the segment `[st, end)` is `.` or `..`.
fn bad_segment(p: &str, st: usize, end: usize) -> (r: bool)
    requires
        st < end <= p@.len(),
    ensures
        r == (p@.subrange(st as int, end as int) == "."@ || p@.subrange(st as int, end as int)
            == ".."@),
{
    proof {
        reveal_strlit(".");
        reveal_strlit("..");
    }
    if end - st == 1 && p.get_char(st) == '.' {
        proof {
            assert(p@.subrange(st as int, end as int) =~= "."@);
        }
        return true;
    }
    if end - st == 2 && p.get_char(st) == '.' && p.get_char(st + 1) == '.' {
        proof {
            assert(p@.subrange(st as int, end as int) =~= ".."@);
        }
        return true;
    }
    proof {
        let seg = p@.subrange(st as int, end as int);
        assert(seg.len() == end - st);
        assert("."@.len() == 1);
        assert(".."@.len() == 2);
        if end - st == 1 {
            assert(seg[0] == p@[st as int]);
            assert(p@[st as int] != '.');
            assert(seg != "."@) by {
                if seg == "."@ {
                    assert(seg[0] == "."@[0]);
                }
            }
        } else {
            assert(seg != "."@);
        }
        if end - st == 2 {
            assert(seg[0] == p@[st as int]);
            assert(seg[1] == p@[st + 1]);
            assert(seg != ".."@) by {
                if seg == ".."@ {
                    assert(seg[0] == ".."@[0]);
                    assert(seg[1] == ".."@[1]);
                }
            }
        } else {
            assert(seg != ".."@);
        }
    }
    false
}

/// A segment reading `.` or `..`, between separators or text ends,
/// opens a dot segment at its start.
proof fn lemma_dot_segment(p: Seq<char>, st: int, end: int)
    requires
        0 <= st < end <= p.len(),
        st == 0 || p[st - 1] == '/',
        end == p.len() || p[end] == '/',
        p.subrange(st, end) == "."@ || p.subrange(st, end) == ".."@,
    ensures
        dot_segment_at(p, st),
{
    reveal_strlit(".");
    reveal_strlit("..");
    let seg = p.subrange(st, end);
    assert(("."@).len() == 1);
    assert((".."@).len() == 2);
    assert(seg.len() == end - st);
    if seg == "."@ {
        assert(seg.len() == ("."@).len());
        assert(end == st + 1);
        assert(p[st] == '.') by {
            assert(seg[0] == p[st]);
        }
    } else {
        assert(seg.len() == (".."@).len());
        assert(end == st + 2);
        assert(p[st] == '.' && p[st + 1] == '.') by {
            assert(seg[0] == p[st]);
            assert(seg[1] == p[st + 1]);
        }
    }
}

/// A separator-free segment that is neither `.` nor `..` opens no dot
/// segment, at its start or anywhere inside.
proof fn lemma_plain_segment(p: Seq<char>, st: int, end: int)
    requires
        0 <= st < end <= p.len(),
        st == 0 || p[st - 1] == '/',
        end == p.len() || p[end] == '/',
        forall|j: int| st <= j < end ==> #[trigger] p[j] != '/',
        !(p.subrange(st, end) == "."@),
        !(p.subrange(st, end) == ".."@),
    ensures
        forall|a: int| st <= a < end ==> !dot_segment_at(p, a),
        end < p.len() && p[end] == '/' ==> !dot_segment_at(p, end),
{
    reveal_strlit(".");
    reveal_strlit("..");
    assert forall|a: int| st <= a < end implies !dot_segment_at(p, a) by {
        if a > st {
            assert(p[a - 1] != '/');
        } else {
            if dot_segment_at(p, st) {
                assert(p[st] == '.');
                if st + 1 == p.len() || p[st + 1] == '/' {
                    assert(end == st + 1) by {
                        if end > st + 1 {
                            assert(p[st + 1] != '/');
                        }
                    }
                    assert(p.subrange(st, end) =~= "."@);
                } else {
                    assert(p[st + 1] == '.');
                    assert(st + 2 == p.len() || p[st + 2] == '/');
                    assert(end >= st + 2) by {
                        if end == st + 1 {
                            assert(p[end] == '/');
                        }
                    }
                    assert(end == st + 2) by {
                        if end > st + 2 {
                            assert(p[st + 2] != '/');
                        }
                    }
                    assert(p.subrange(st, end) =~= ".."@);
                }
            }
        }
    }
    if end < p.len() && p[end] == '/' {
        assert(p[end - 1] != '/');
    }
}

/// Relies on tar's `Builder::append_data` over a flate2 encoder: writes
/// one entry per pair, in order, with fixed metadata, and its own reader
/// lists them back verbatim. The builder refuses `..` components and
/// normalizes `.`, doubled, leading or trailing separators, and a NUL
/// truncates the name on the way back, so `requires` admits only plain
/// component paths, which are stored unchanged.
#[verifier::external_body]
fn targz_entries(entries: &Vec<(String, String)>) -> (r: Vec<u8>)
    requires
        forall|k: int| 0 <= k < entries@.len() ==> pack_path_ok((#[trigger] entries@[k]).0@),
    ensures
        r@ == targz_of(entries_view(entries@)),
        untargz_of(r@) == Option::Some(entries_view(entries@)),
{
    let enc = flate2::write::GzEncoder::new(Vec::new(), flate2::Compression::default());
    let mut builder = tar::Builder::new(enc);
    for (path, content) in entries {
        let mut header = tar::Header::new_gnu();
        header.set_size(content.len() as u64);
        header.set_mode(0o644);
        header.set_cksum();
        builder.append_data(&mut header, path, content.as_bytes()).unwrap();
    }
    builder.into_inner().unwrap().finish().unwrap()
}

/// Relies on tar's `Archive::entries` over a flate2 decoder: lists the
/// archive's entries in order and fails on anything malformed.
#[verifier::external_body]
fn untargz_entries(bytes: &Vec<u8>) -> (r: Option<Vec<(String, String)>>)
    ensures
        match r {
            Option::Some(v) => untargz_of(bytes@) == Option::Some(entries_view(v@)),
            Option::None => untargz_of(bytes@) is None,
        },
{
    let mut archive = tar::Archive::new(flate2::read::GzDecoder::new(&bytes[..]));
    let mut out = Vec::new();
    for entry in archive.entries().ok()? {
        let mut file = entry.ok()?;
        let mut content = String::new();
        file.read_to_string(&mut content).ok()?;
        let path = file.path().ok()?.to_str()?.to_string();
        out.push((path, content));
    }
    Some(out)
}

/// The tar.gz archive written for raw byte entries; used only for whole
/// repository exports, which nothing here reads back.
pub uninterp spec fn repo_archive_of(entries: Seq<(Seq<char>, Seq<u8>)>) -> Seq<u8>;

/// The byte-level view of owned path and raw-content pairs.
pub open spec fn raw_entries_view(v: Seq<(String, Vec<u8>)>) -> Seq<(Seq<char>, Seq<u8>)> {
    v.map_values(|p: (String, Vec<u8>)| (p.0@, p.1@))
}

/// Relies on tar's `Builder::append_data` over a flate2 encoder, as
/// `targz_entries` does, but with raw byte contents; the same plain
/// component paths only.
#[verifier::external_body]
pub(crate) fn targz_raw_entries(entries: &Vec<(String, Vec<u8>)>) -> (r: Vec<u8>)
    requires
        forall|k: int| 0 <= k < entries@.len() ==> pack_path_ok((#[trigger] entries@[k]).0@),
    ensures
        r@ == repo_archive_of(raw_entries_view(entries@)),
{
    let enc = flate2::write::GzEncoder::new(Vec::new(), flate2::Compression::default());
    let mut builder = tar::Builder::new(enc);
    for (path, content) in entries {
        let mut header = tar::Header::new_gnu();
        header.set_size(content.len() as u64);
        header.set_mode(0o644);
        header.set_cksum();
        builder.append_data(&mut header, path, &content[..]).unwrap();
    }
    builder.into_inner().unwrap().finish().unwrap()
}

/// The UTF-8 bytes of a text; a function of the text alone.
pub uninterp spec fn utf8_of(s: Seq<char>) -> Seq<u8>;

/// Relies on std's `str::as_bytes`: the UTF-8 bytes of the text.
#[verifier::external_body]
pub(crate) fn str_bytes(s: &str) -> (r: Vec<u8>)
    ensures
        r@ == utf8_of(s@),
{
    s.as_bytes().to_vec()
}

// ------------------------------------------------------------------
// Snapshots
// ------------------------------------------------------------------

/// The character-level entries of a snapshot map.
pub open spec fn snapshot_entries(m: Seq<(Seq<char>, String)>) -> Seq<(Seq<char>, Seq<char>)> {
    m.map_values(|p: (Seq<char>, String)| (p.0, p.1@))
}

/// Every path of a snapshot map is acceptable to the archive boundary.
pub open spec fn snapshot_paths_ok(m: Seq<(Seq<char>, String)>) -> bool {
    forall|k: int| 0 <= k < m.len() ==> pack_path_ok(#[trigger] mkey(m, k))
}

/// The entries of a snapshot map whose paths the archive boundary
/// accepts; the others are skipped.
pub open spec fn archivable_entries(m: Seq<(Seq<char>, String)>) -> Seq<(Seq<char>, Seq<char>)>
    decreases m.len(),
{
    if m.len() == 0 {
        Seq::<(Seq<char>, Seq<char>)>::empty()
    } else {
        let front = archivable_entries(m.drop_last());
        if pack_path_ok(m.last().0) {
            front.push((m.last().0, m.last().1@))
        } else {
            front
        }
    }
}

/// When every path is archivable, nothing is skipped.
pub proof fn lemma_archivable_all(m: Seq<(Seq<char>, String)>)
    requires
        snapshot_paths_ok(m),
    ensures
        archivable_entries(m) == snapshot_entries(m),
    decreases m.len(),
{
    if m.len() > 0 {
        assert forall|k: int| 0 <= k < m.drop_last().len() implies pack_path_ok(
            #[trigger] mkey(m.drop_last(), k),
        ) by {
            assert(mkey(m.drop_last(), k) == mkey(m, k));
        }
        lemma_archivable_all(m.drop_last());
        assert(mkey(m, m.len() - 1) == m.last().0);
        assert(snapshot_entries(m.drop_last()) =~= snapshot_entries(m).drop_last());
        assert(archivable_entries(m) =~= snapshot_entries(m));
    } else {
        assert(archivable_entries(m) =~= snapshot_entries(m));
    }
}

/// The snapshot read from listed entries: inserted in order, a later
/// entry under the same path replacing an earlier one.
pub open spec fn load_snapshot(es: Seq<(Seq<char>, Seq<char>)>) -> Seq<(Seq<char>, Seq<char>)> {
    crate::smap::map_of(es)
}

/// Loading entries that already form a sorted map changes nothing.
pub proof fn lemma_load_snapshot_sorted(es: Seq<(Seq<char>, Seq<char>)>)
    requires
        sorted_keys(es),
    ensures
        load_snapshot(es) == es,
{
    crate::smap::lemma_map_of_sorted(es);
}

/// A pack: one compressed archive holding a full snapshot of text files.
pub struct Pack {
    /// The archive bytes, as stored under the object directory.
    pub data: Vec<u8>,
}

impl Pack {
    /// Builds the archive for a snapshot: every tracked path the archive
    /// boundary accepts, paired with its content, in path order; entries
    /// with other paths are skipped.
    pub fn new(files: &SMap<String>) -> (p: Pack)
        requires
            files.wf(),
        ensures
            p.data@ == targz_of(archivable_entries(files@)),
            untargz_of(p.data@) == Option::Some(archivable_entries(files@)),
    {
        let n = files.len();
        let mut entries: Vec<(String, String)> = Vec::new();
        let mut i: usize = 0;
        while i < n
            invariant
                i <= n,
                n == files@.len(),
                files.wf(),
                entries_view(entries@) =~= archivable_entries(files@.subrange(0, i as int)),
                forall|k: int|
                    0 <= k < entries@.len() ==> pack_path_ok((#[trigger] entries@[k]).0@),
            decreases n - i,
        {
            proof {
                assert(files@.subrange(0, i + 1 as int) =~= files@.subrange(0, i as int).push(
                    files@[i as int],
                ));
                assert(files@.subrange(0, i as int).push(files@[i as int]).drop_last()
                    =~= files@.subrange(0, i as int));
            }
            let path = files.key_at(i).clone();
            if is_pack_path_ok(path.as_str()) {
                let content = files.val_at(i).clone();
                let ghost epre = entries@;
                entries.push((path, content));
                proof {
                    assert(mkey(files@, i as int) == files@[i as int].0);
                    assert(entries@ == epre.push((path, content)));
                    assert(entries_view(entries@) =~= entries_view(epre).push(
                        (path@, content@),
                    ));
                    assert(entries_view(entries@) =~= archivable_entries(
                        files@.subrange(0, i + 1 as int),
                    ));
                }
            } else {
                proof {
                    assert(mkey(files@, i as int) == files@[i as int].0);
                    assert(!pack_path_ok(files@[i as int].0));
                    assert(entries_view(entries@) =~= archivable_entries(
                        files@.subrange(0, i + 1 as int),
                    ));
                }
            }
            i += 1;
        }
        proof {
            assert(files@.subrange(0, n as int) =~= files@);
        }
        let data = targz_entries(&entries);
        Pack { data }
    }

    /// Reads a pack back into a snapshot map. Malformed archive bytes are
    /// a value error; entries arrive in stored order, a later duplicate
    /// path replacing an earlier one.
    pub fn open(&self) -> (r: Result<SMap<String>, LilyError>)
        ensures
            (r is Ok) == (untargz_of(self.data@) is Some),
            r matches Ok(m) ==> m.wf() && (untargz_of(self.data@) matches Option::Some(es)
                && snapshot_entries(m@) == load_snapshot(es)),
            r matches Err(e) ==> e == LilyError::ValueError,
    {
        let mut listed = match untargz_entries(&self.data) {
            Option::Some(v) => v,
            Option::None => {
                return Err(LilyError::ValueError);
            },
        };
        let ghost listed0 = listed@;
        let mut out: SMap<String> = SMap::new();
        proof {
            assert(snapshot_entries(out@) =~= load_snapshot(
                entries_view(listed0.subrange(0, 0)),
            ));
        }
        let total = listed.len();
        let mut done: usize = 0;
        while listed.len() > 0
            invariant
                out.wf(),
                total == listed0.len(),
                done <= total,
                done + listed@.len() == listed0.len(),
                listed@ =~= listed0.subrange(done as int, listed0.len() as int),
                snapshot_entries(out@) == load_snapshot(
                    entries_view(listed0.subrange(0, done as int)),
                ),
            decreases listed@.len(),
        {
            let pair = listed.remove(0);
            let ghost opre = out@;
            out.insert(pair.0, pair.1);
            proof {
                assert(listed0[done as int] == pair);
                lemma_snapshot_put(opre, pair.0@, pair.1);
                assert(entries_view(listed0.subrange(0, done + 1 as int)) =~= entries_view(
                    listed0.subrange(0, done as int),
                ).push((pair.0@, pair.1@)));
                let pe = entries_view(listed0.subrange(0, done as int));
                assert(pe.push((pair.0@, pair.1@)).drop_last() =~= pe);
                assert(snapshot_entries(out@) =~= load_snapshot(
                    entries_view(listed0.subrange(0, done + 1 as int)),
                ));
            }
            done += 1;
        }
        proof {
            assert(listed0.subrange(0, done as int) =~= listed0);
        }
        Ok(out)
    }

    /// Compresses one text for storage inside a metadata row.
    pub fn from_string(input: String) -> (r: Vec<u8>)
        ensures
            r@ == gzip_of(input@),
            gunzip_of(r@) == Option::Some(input@),
    {
        gzip_string(input.as_str())
    }

    /// Reads a compressed text back; malformed bytes are a value error.
    pub fn decode_vec(input: Vec<u8>) -> (r: Result<String, LilyError>)
        ensures
            (r is Ok) == (gunzip_of(input@) is Some),
            r matches Ok(s) ==> gunzip_of(input@) == Option::Some(s@),
            r matches Err(e) ==> e == LilyError::ValueError,
    {
        match gunzip_string(&input) {
            Option::Some(s) => Ok(s),
            Option::None => Err(LilyError::ValueError),
        }
    }
}

/// Value-mapping a snapshot commutes with storing one entry.
pub proof fn lemma_snapshot_put(m: Seq<(Seq<char>, String)>, k: Seq<char>, v: String)
    ensures
        snapshot_entries(map_put(m, k, v)) == map_put(snapshot_entries(m), k, v@),
    decreases m.len(),
{
    if m.len() == 0 {
        assert(snapshot_entries(map_put(m, k, v)) =~= map_put(snapshot_entries(m), k, v@));
    } else {
        assert(snapshot_entries(m)[0] == (m[0].0, m[0].1@));
        if lex_lt(k, m[0].0) {
            assert(snapshot_entries(map_put(m, k, v)) =~= map_put(snapshot_entries(m), k, v@));
        } else if k == m[0].0 {
            assert(snapshot_entries(map_put(m, k, v)) =~= map_put(snapshot_entries(m), k, v@));
        } else {
            lemma_snapshot_put(m.drop_first(), k, v);
            assert(snapshot_entries(m).drop_first() =~= snapshot_entries(m.drop_first()));
            assert(snapshot_entries(map_put(m, k, v)) =~= seq![(m[0].0, m[0].1@)]
                + snapshot_entries(map_put(m.drop_first(), k, v)));
            assert(map_put(snapshot_entries(m), k, v@) =~= seq![(m[0].0, m[0].1@)] + map_put(
                snapshot_entries(m.drop_first()),
                k,
                v@,
            ));
        }
    }
}

} // verus!
