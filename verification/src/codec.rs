//! The engine's own serialization of patches, commits and branches: a
//! length-prefixed text format with an exact grammar, a verified encoder
//! and a verified, validating parser. Reading back what was written
//! provably restores the value; malformed text is rejected.
//!
//! Grammar, over characters:
//!   num(t)  := decimal digits, then the terminator t
//!   str     := num(':') giving the character count, the characters, '\n'
//!   change  := 'A' or 'D', ' ', num('\n') giving the position, str
//!   patch   := num('\n') giving the file count, then per file: str str
//!              num('\n') and that many changes
//!   commit  := str str num('\n') str str patch
//!   branch  := str str num('\n')

use vstd::prelude::*;

use crate::patch::changes_view;
use crate::patch::Change;
use crate::patch::ChangeMode;
use crate::patch::Patch;
use crate::patch::PatchFile;
use crate::script::LineEdit;
use crate::smap::map_of;
use crate::smap::map_put;
use crate::smap::SMap;
use crate::text::dec_str;
use crate::text::dec_val;
use crate::text::is_dec_char;
use crate::text::lemma_dec_str_val;
use crate::text::lex_lt;
use crate::text::push_char;
use crate::text::u128_to_string;

verus! {

// ------------------------------------------------------------------
// Views
// ------------------------------------------------------------------

/// The mathematical content of a patch file: previous text and changes.
pub type PatchFileV = (Seq<char>, Seq<LineEdit>);

/// The mathematical content of a patch: file entries in stored order.
pub type PatchV = Seq<(Seq<char>, PatchFileV)>;

/// The mathematical content of a commit row:
/// `(id, branch, timestamp, author, message, patch)`.
pub type CommitV = (Seq<char>, Seq<char>, int, Seq<char>, Seq<char>, PatchV);

/// The mathematical content of a branch row: `(id, name, timestamp)`.
pub type BranchV = (Seq<char>, Seq<char>, int);

pub open spec fn pf_view(pf: PatchFile) -> PatchFileV {
    (pf.0@, changes_view(pf.1@))
}

/// The view of a file map's entries.
pub open spec fn files_map_view(m: Seq<(Seq<char>, PatchFile)>) -> PatchV {
    m.map_values(|e: (Seq<char>, PatchFile)| (e.0, pf_view(e.1)))
}

/// The view of a patch's file map.
pub open spec fn patch_view(p: Patch) -> PatchV {
    files_map_view(p.files@)
}

// ------------------------------------------------------------------
// Encoders (spec)
// ------------------------------------------------------------------

pub open spec fn enc_num(n: int, term: char) -> Seq<char> {
    dec_str(n).push(term)
}

pub open spec fn enc_str(s: Seq<char>) -> Seq<char> {
    enc_num(s.len() as int, ':') + s + seq!['\n']
}

pub open spec fn mode_char(m: ChangeMode) -> char {
    match m {
        ChangeMode::Added => 'A',
        ChangeMode::Deleted => 'D',
    }
}

pub open spec fn enc_change(c: LineEdit) -> Seq<char> {
    seq![mode_char(c.1), ' '] + enc_num(c.0, '\n') + enc_str(c.2)
}

pub open spec fn enc_changes(cs: Seq<LineEdit>) -> Seq<char>
    decreases cs.len(),
{
    if cs.len() == 0 {
        Seq::<char>::empty()
    } else {
        enc_changes(cs.drop_last()) + enc_change(cs.last())
    }
}

pub open spec fn enc_pf(pf: PatchFileV) -> Seq<char> {
    enc_str(pf.0) + enc_num(pf.1.len() as int, '\n') + enc_changes(pf.1)
}

pub open spec fn enc_files(fs: PatchV) -> Seq<char>
    decreases fs.len(),
{
    if fs.len() == 0 {
        Seq::<char>::empty()
    } else {
        enc_files(fs.drop_last()) + enc_str(fs.last().0) + enc_pf(fs.last().1)
    }
}

pub open spec fn enc_patch(pv: PatchV) -> Seq<char> {
    enc_num(pv.len() as int, '\n') + enc_files(pv)
}

pub open spec fn enc_commit(cv: CommitV) -> Seq<char> {
    enc_str(cv.0) + enc_str(cv.1) + enc_num(cv.2, '\n') + enc_str(cv.3) + enc_str(cv.4)
        + enc_patch(cv.5)
}

pub open spec fn enc_branch(bv: BranchV) -> Seq<char> {
    enc_str(bv.0) + enc_str(bv.1) + enc_num(bv.2, '\n')
}

// ------------------------------------------------------------------
// Bounds under which a value can be written and read back
// ------------------------------------------------------------------

pub open spec fn str_ok(s: Seq<char>) -> bool {
    s.len() <= u128::MAX
}

pub open spec fn change_ok(c: LineEdit) -> bool {
    0 <= c.0 <= usize::MAX && str_ok(c.2)
}

pub open spec fn pf_ok(pf: PatchFileV) -> bool {
    &&& str_ok(pf.0)
    &&& pf.1.len() <= u128::MAX
    &&& forall|k: int| 0 <= k < pf.1.len() ==> change_ok(#[trigger] pf.1[k])
}

pub open spec fn patch_ok(pv: PatchV) -> bool {
    &&& pv.len() <= u128::MAX
    &&& forall|k: int|
        0 <= k < pv.len() ==> str_ok((#[trigger] pv[k]).0) && pf_ok(pv[k].1)
}

pub open spec fn commit_ok(cv: CommitV) -> bool {
    &&& str_ok(cv.0)
    &&& str_ok(cv.1)
    &&& 0 <= cv.2 <= u128::MAX
    &&& str_ok(cv.3)
    &&& str_ok(cv.4)
    &&& patch_ok(cv.5)
}

pub open spec fn branch_ok(bv: BranchV) -> bool {
    str_ok(bv.0) && str_ok(bv.1) && 0 <= bv.2 <= u128::MAX
}

// ------------------------------------------------------------------
// Parsers (spec)
// ------------------------------------------------------------------

/// The first position at or past `i` that does not hold a digit.
pub open spec fn digits_end(s: Seq<char>, i: int) -> int
    decreases s.len() - i,
{
    if 0 <= i < s.len() && is_dec_char(s[i]) {
        digits_end(s, i + 1)
    } else {
        i
    }
}

/// Reads a numeral terminated by `term`; values past `u128::MAX` and
/// empty digit runs are malformed.
pub open spec fn d_num(s: Seq<char>, i: int, term: char) -> Option<(int, int)> {
    if !(0 <= i <= s.len()) {
        Option::None
    } else {
        let e = digits_end(s, i);
        if e == i || e >= s.len() || s[e] != term || dec_val(s.subrange(i, e)) > u128::MAX {
            Option::None
        } else {
            Option::Some((dec_val(s.subrange(i, e)), e + 1))
        }
    }
}

/// Reads a length-prefixed string followed by a newline.
pub open spec fn d_str(s: Seq<char>, i: int) -> Option<(Seq<char>, int)> {
    match d_num(s, i, ':') {
        Option::None => Option::None,
        Option::Some((n, j)) => {
            if j + n < s.len() && s[j + n] == '\n' {
                Option::Some((s.subrange(j, j + n), j + n + 1))
            } else {
                Option::None
            }
        },
    }
}

/// Reads one change: mode, position, line text.
pub open spec fn d_change(s: Seq<char>, i: int) -> Option<(LineEdit, int)> {
    if 0 <= i && i + 1 < s.len() && (s[i] == 'A' || s[i] == 'D') && s[i + 1] == ' ' {
        let m = if s[i] == 'A' {
            ChangeMode::Added
        } else {
            ChangeMode::Deleted
        };
        match d_num(s, i + 2, '\n') {
            Option::None => Option::None,
            Option::Some((p, j)) => {
                if p > usize::MAX {
                    Option::None
                } else {
                    match d_str(s, j) {
                        Option::None => Option::None,
                        Option::Some((t, j2)) => Option::Some(((p, m, t), j2)),
                    }
                }
            },
        }
    } else {
        Option::None
    }
}

/// Reads exactly `k` changes.
pub open spec fn d_changes(s: Seq<char>, i: int, k: int) -> Option<(Seq<LineEdit>, int)>
    decreases k,
{
    if k <= 0 {
        Option::Some((Seq::<LineEdit>::empty(), i))
    } else {
        match d_change(s, i) {
            Option::None => Option::None,
            Option::Some((c, j)) => match d_changes(s, j, k - 1) {
                Option::None => Option::None,
                Option::Some((cs, e)) => Option::Some((seq![c] + cs, e)),
            },
        }
    }
}

/// Reads one file entry's patch data: previous text, change count, changes.
pub open spec fn d_pf(s: Seq<char>, i: int) -> Option<(PatchFileV, int)> {
    match d_str(s, i) {
        Option::None => Option::None,
        Option::Some((prev, j)) => match d_num(s, j, '\n') {
            Option::None => Option::None,
            Option::Some((k, j2)) => match d_changes(s, j2, k) {
                Option::None => Option::None,
                Option::Some((cs, e)) => Option::Some(((prev, cs), e)),
            },
        },
    }
}

/// Reads exactly `k` file entries.
pub open spec fn d_files(s: Seq<char>, i: int, k: int) -> Option<(PatchV, int)>
    decreases k,
{
    if k <= 0 {
        Option::Some((Seq::<(Seq<char>, PatchFileV)>::empty(), i))
    } else {
        match d_str(s, i) {
            Option::None => Option::None,
            Option::Some((path, j)) => match d_pf(s, j) {
                Option::None => Option::None,
                Option::Some((pf, j2)) => match d_files(s, j2, k - 1) {
                    Option::None => Option::None,
                    Option::Some((fs, e)) => Option::Some((seq![(path, pf)] + fs, e)),
                },
            },
        }
    }
}

/// Reads a patch: the file count, then the file entries, in stored order.
pub open spec fn d_patch(s: Seq<char>, i: int) -> Option<(PatchV, int)> {
    match d_num(s, i, '\n') {
        Option::None => Option::None,
        Option::Some((k, j)) => d_files(s, j, k),
    }
}

/// Reads a commit row.
pub open spec fn d_commit(s: Seq<char>, i: int) -> Option<(CommitV, int)> {
    match d_str(s, i) {
        Option::None => Option::None,
        Option::Some((id, j1)) => match d_str(s, j1) {
            Option::None => Option::None,
            Option::Some((branch, j2)) => match d_num(s, j2, '\n') {
                Option::None => Option::None,
                Option::Some((ts, j3)) => match d_str(s, j3) {
                    Option::None => Option::None,
                    Option::Some((author, j4)) => match d_str(s, j4) {
                        Option::None => Option::None,
                        Option::Some((message, j5)) => match d_patch(s, j5) {
                            Option::None => Option::None,
                            Option::Some((pv, e)) => Option::Some(
                                ((id, branch, ts, author, message, pv), e),
                            ),
                        },
                    },
                },
            },
        },
    }
}

/// Reads a branch row.
pub open spec fn d_branch(s: Seq<char>, i: int) -> Option<(BranchV, int)> {
    match d_str(s, i) {
        Option::None => Option::None,
        Option::Some((id, j1)) => match d_str(s, j1) {
            Option::None => Option::None,
            Option::Some((name, j2)) => match d_num(s, j2, '\n') {
                Option::None => Option::None,
                Option::Some((ts, e)) => Option::Some(((id, name, ts), e)),
            },
        },
    }
}

// ------------------------------------------------------------------
// Round trip: parsing an encoding yields the value back
// ------------------------------------------------------------------

/// A window of `s` that holds `a + b` splits into the two windows.
proof fn lemma_window_split(s: Seq<char>, i: int, a: Seq<char>, b: Seq<char>)
    requires
        0 <= i,
        i + a.len() + b.len() <= s.len(),
        s.subrange(i, i + a.len() + b.len()) == a + b,
    ensures
        s.subrange(i, i + a.len()) == a,
        s.subrange(i + a.len(), i + a.len() + b.len()) == b,
{
    let w = s.subrange(i, i + a.len() + b.len());
    assert forall|j: int| 0 <= j < a.len() implies s.subrange(i, i + a.len())[j] == a[j] by {
        assert(s.subrange(i, i + a.len())[j] == w[j]);
        assert(w[j] == (a + b)[j]);
    }
    assert(s.subrange(i, i + a.len()) =~= a);
    assert forall|j: int| 0 <= j < b.len() implies s.subrange(
        i + a.len(),
        i + a.len() + b.len(),
    )[j] == b[j] by {
        assert(s.subrange(i + a.len(), i + a.len() + b.len())[j] == w[a.len() + j]);
        assert(w[a.len() + j] == (a + b)[a.len() + j]);
    }
    assert(s.subrange(i + a.len(), i + a.len() + b.len()) =~= b);
}

/// Where the digits end is pinned by the text.
proof fn lemma_digits_end_at(s: Seq<char>, i: int, e: int)
    requires
        0 <= i <= e <= s.len(),
        forall|j: int| i <= j < e ==> is_dec_char(#[trigger] s[j]),
        e < s.len() ==> !is_dec_char(s[e]),
    ensures
        digits_end(s, i) == e,
    decreases e - i,
{
    if i < e {
        assert(is_dec_char(s[i]));
        lemma_digits_end_at(s, i + 1, e);
    }
}

/// Parsing a written numeral yields the number and stops after the
/// terminator.
proof fn lemma_d_num(s: Seq<char>, i: int, n: int, term: char)
    requires
        0 <= i,
        !is_dec_char(term),
        0 <= n <= u128::MAX,
        i + enc_num(n, term).len() <= s.len(),
        s.subrange(i, i + enc_num(n, term).len()) == enc_num(n, term),
    ensures
        d_num(s, i, term) == Option::Some((n, i + enc_num(n, term).len())),
{
    lemma_dec_str_val(n);
    let d = dec_str(n);
    let w = enc_num(n, term);
    assert(w.len() == d.len() + 1);
    assert forall|j: int| i <= j < i + d.len() implies is_dec_char(#[trigger] s[j]) by {
        assert(s[j] == s.subrange(i, i + w.len())[j - i]);
        assert(w[j - i] == d[j - i]);
    }
    assert(s[i + d.len()] == s.subrange(i, i + w.len())[d.len() as int]);
    assert(s[i + d.len()] == term);
    lemma_digits_end_at(s, i, i + d.len());
    assert(s.subrange(i, i + d.len()) =~= d) by {
        assert forall|j: int| 0 <= j < d.len() implies s.subrange(i, i + d.len())[j] == d[j] by {
            assert(s.subrange(i, i + d.len())[j] == s[i + j]);
            assert(s[i + j] == s.subrange(i, i + w.len())[j]);
        }
    }
    assert(d.len() > 0);
}

/// Parsing a written string yields the string back.
proof fn lemma_d_str(s: Seq<char>, i: int, t: Seq<char>)
    requires
        0 <= i,
        str_ok(t),
        i + enc_str(t).len() <= s.len(),
        s.subrange(i, i + enc_str(t).len()) == enc_str(t),
    ensures
        d_str(s, i) == Option::Some((t, i + enc_str(t).len())),
{
    let a = enc_num(t.len() as int, ':');
    let b = t + seq!['\n'];
    assert(enc_str(t) =~= a + b);
    assert(':' as u32 == 58);
    lemma_window_split(s, i, a, b);
    lemma_d_num(s, i, t.len() as int, ':');
    let j = i + a.len();
    assert(s.subrange(j, j + b.len()) == b);
    assert forall|k: int| 0 <= k < t.len() implies s.subrange(j, j + t.len() as int)[k]
        == t[k] by {
        assert(s.subrange(j, j + t.len() as int)[k] == s[j + k]);
        assert(s[j + k] == s.subrange(j, j + b.len())[k]);
        assert(b[k] == t[k]);
    }
    assert(s.subrange(j, j + t.len() as int) =~= t);
    assert(s[j + t.len()] == s.subrange(j, j + b.len())[t.len() as int]);
    assert(s[j + t.len()] == '\n');
    assert(j + t.len() < s.len());
}

/// Parsing a written change yields the change back.
proof fn lemma_d_change(s: Seq<char>, i: int, c: LineEdit)
    requires
        0 <= i,
        change_ok(c),
        i + enc_change(c).len() <= s.len(),
        s.subrange(i, i + enc_change(c).len()) == enc_change(c),
    ensures
        d_change(s, i) == Option::Some((c, i + enc_change(c).len())),
{
    let a = seq![mode_char(c.1), ' '];
    let b = enc_num(c.0, '\n') + enc_str(c.2);
    assert(enc_change(c) =~= a + b);
    lemma_window_split(s, i, a, b);
    assert(s[i] == s.subrange(i, i + a.len())[0]);
    assert(s[i + 1] == s.subrange(i, i + a.len())[1]);
    assert(s[i] == mode_char(c.1));
    assert(s[i + 1] == ' ');
    assert('A' as u32 == 65);
    assert('D' as u32 == 68);
    assert(' ' as u32 == 32);
    assert('\n' as u32 == 10);
    let j0 = i + a.len();
    lemma_window_split(s, j0, enc_num(c.0, '\n'), enc_str(c.2));
    lemma_d_num(s, j0, c.0, '\n');
    let j1 = j0 + enc_num(c.0, '\n').len();
    lemma_d_str(s, j1, c.2);
    match c.1 {
        ChangeMode::Added => {
            assert(s[i] == 'A');
        },
        ChangeMode::Deleted => {
            assert(s[i] == 'D');
            assert(s[i] != 'A');
        },
    }
}

/// Parsing written changes yields them all back.
proof fn lemma_d_changes(s: Seq<char>, i: int, cs: Seq<LineEdit>)
    requires
        0 <= i,
        forall|k: int| 0 <= k < cs.len() ==> change_ok(#[trigger] cs[k]),
        i + enc_changes(cs).len() <= s.len(),
        s.subrange(i, i + enc_changes(cs).len()) == enc_changes(cs),
    ensures
        d_changes(s, i, cs.len() as int) == Option::Some((cs, i + enc_changes(cs).len())),
    decreases cs.len(),
{
    if cs.len() == 0 {
        assert(d_changes(s, i, 0) == Option::Some((Seq::<LineEdit>::empty(), i)));
        assert(cs =~= Seq::<LineEdit>::empty());
    } else {
        let head = cs[0];
        let tail = cs.drop_first();
        lemma_enc_changes_left(cs);
        assert(enc_changes(cs) == enc_change(head) + enc_changes(tail));
        lemma_window_split(s, i, enc_change(head), enc_changes(tail));
        lemma_d_change(s, i, head);
        let j = i + enc_change(head).len();
        assert forall|k: int| 0 <= k < tail.len() implies change_ok(#[trigger] tail[k]) by {
            assert(tail[k] == cs[k + 1]);
        }
        lemma_d_changes(s, j, tail);
        assert(seq![head] + tail =~= cs);
    }
}

/// The left unfolding of `enc_changes`.
proof fn lemma_enc_changes_left(cs: Seq<LineEdit>)
    requires
        cs.len() > 0,
    ensures
        enc_changes(cs) == enc_change(cs[0]) + enc_changes(cs.drop_first()),
    decreases cs.len(),
{
    if cs.len() == 1 {
        assert(cs.drop_last() =~= Seq::<LineEdit>::empty());
        assert(cs.drop_first() =~= Seq::<LineEdit>::empty());
        assert(cs.last() == cs[0]);
        assert(enc_changes(cs) =~= enc_change(cs[0]) + enc_changes(cs.drop_first()));
    } else {
        lemma_enc_changes_left(cs.drop_last());
        assert(cs.drop_last()[0] == cs[0]);
        assert(cs.drop_last().drop_first() =~= cs.drop_first().drop_last());
        assert(cs.drop_first().last() == cs.last());
        assert(enc_changes(cs) == enc_changes(cs.drop_last()) + enc_change(cs.last()));
        assert(enc_changes(cs.drop_first()) == enc_changes(cs.drop_first().drop_last())
            + enc_change(cs.last()));
        assert(enc_changes(cs) =~= enc_change(cs[0]) + enc_changes(cs.drop_first()));
    }
}

/// Parsing a written patch file yields it back.
proof fn lemma_d_pf(s: Seq<char>, i: int, pf: PatchFileV)
    requires
        0 <= i,
        pf_ok(pf),
        i + enc_pf(pf).len() <= s.len(),
        s.subrange(i, i + enc_pf(pf).len()) == enc_pf(pf),
    ensures
        d_pf(s, i) == Option::Some((pf, i + enc_pf(pf).len())),
{
    let a = enc_str(pf.0);
    let b = enc_num(pf.1.len() as int, '\n') + enc_changes(pf.1);
    assert(enc_pf(pf) =~= a + b);
    lemma_window_split(s, i, a, b);
    lemma_d_str(s, i, pf.0);
    let j = i + a.len();
    lemma_window_split(s, j, enc_num(pf.1.len() as int, '\n'), enc_changes(pf.1));
    assert('\n' as u32 == 10);
    lemma_d_num(s, j, pf.1.len() as int, '\n');
    let j2 = j + enc_num(pf.1.len() as int, '\n').len();
    lemma_d_changes(s, j2, pf.1);
}

/// The left unfolding of `enc_files`.
proof fn lemma_enc_files_left(fs: PatchV)
    requires
        fs.len() > 0,
    ensures
        enc_files(fs) == enc_str(fs[0].0) + enc_pf(fs[0].1) + enc_files(fs.drop_first()),
    decreases fs.len(),
{
    if fs.len() == 1 {
        assert(fs.drop_last() =~= Seq::<(Seq<char>, PatchFileV)>::empty());
        assert(fs.drop_first() =~= Seq::<(Seq<char>, PatchFileV)>::empty());
        assert(fs.last() == fs[0]);
        assert(enc_files(fs) =~= enc_str(fs[0].0) + enc_pf(fs[0].1) + enc_files(
            fs.drop_first(),
        ));
    } else {
        lemma_enc_files_left(fs.drop_last());
        assert(fs.drop_last()[0] == fs[0]);
        assert(fs.drop_last().drop_first() =~= fs.drop_first().drop_last());
        assert(fs.drop_first().last() == fs.last());
        assert(enc_files(fs) == enc_files(fs.drop_last()) + enc_str(fs.last().0) + enc_pf(
            fs.last().1,
        ));
        assert(enc_files(fs.drop_first()) == enc_files(fs.drop_first().drop_last()) + enc_str(
            fs.last().0,
        ) + enc_pf(fs.last().1));
        assert(enc_files(fs) =~= enc_str(fs[0].0) + enc_pf(fs[0].1) + enc_files(
            fs.drop_first(),
        ));
    }
}

/// Parsing written file entries yields them all back.
proof fn lemma_d_files(s: Seq<char>, i: int, fs: PatchV)
    requires
        0 <= i,
        forall|k: int| 0 <= k < fs.len() ==> str_ok((#[trigger] fs[k]).0) && pf_ok(fs[k].1),
        i + enc_files(fs).len() <= s.len(),
        s.subrange(i, i + enc_files(fs).len()) == enc_files(fs),
    ensures
        d_files(s, i, fs.len() as int) == Option::Some((fs, i + enc_files(fs).len())),
    decreases fs.len(),
{
    if fs.len() == 0 {
        assert(fs =~= Seq::<(Seq<char>, PatchFileV)>::empty());
    } else {
        let head = fs[0];
        let tail = fs.drop_first();
        lemma_enc_files_left(fs);
        let a = enc_str(head.0);
        let b = enc_pf(head.1);
        let c = enc_files(tail);
        assert(enc_files(fs) == a + b + c);
        assert(a + b + c =~= a + (b + c));
        lemma_window_split(s, i, a, b + c);
        lemma_d_str(s, i, head.0);
        let j = i + a.len();
        lemma_window_split(s, j, b, c);
        lemma_d_pf(s, j, head.1);
        let j2 = j + b.len();
        assert forall|k: int| 0 <= k < tail.len() implies str_ok((#[trigger] tail[k]).0)
            && pf_ok(tail[k].1) by {
            assert(tail[k] == fs[k + 1]);
        }
        lemma_d_files(s, j2, tail);
        assert(seq![head] + tail =~= fs);
    }
}

/// Parsing a written patch yields its file entries back, in order.
pub proof fn lemma_d_patch(s: Seq<char>, i: int, pv: PatchV)
    requires
        0 <= i,
        patch_ok(pv),
        i + enc_patch(pv).len() <= s.len(),
        s.subrange(i, i + enc_patch(pv).len()) == enc_patch(pv),
    ensures
        d_patch(s, i) == Option::Some((pv, i + enc_patch(pv).len())),
{
    let a = enc_num(pv.len() as int, '\n');
    let b = enc_files(pv);
    assert(enc_patch(pv) =~= a + b);
    lemma_window_split(s, i, a, b);
    assert('\n' as u32 == 10);
    lemma_d_num(s, i, pv.len() as int, '\n');
    lemma_d_files(s, i + a.len(), pv);
}

/// The identifying head of a commit row reads back from its window.
#[verifier::rlimit(60)]
proof fn lemma_commit_head(s: Seq<char>, i: int, cv: CommitV)
    requires
        commit_ok(cv),
        0 <= i,
        i + enc_str(cv.0).len() + enc_str(cv.1).len() + enc_num(cv.2, '\n').len() <= s.len(),
        s.subrange(
            i,
            i + enc_str(cv.0).len() + enc_str(cv.1).len() + enc_num(cv.2, '\n').len(),
        ) == enc_str(cv.0) + enc_str(cv.1) + enc_num(cv.2, '\n'),
    ensures
        d_str(s, i) == Option::Some((cv.0, i + enc_str(cv.0).len())),
        d_str(s, i + enc_str(cv.0).len()) == Option::Some(
            (cv.1, i + enc_str(cv.0).len() + enc_str(cv.1).len()),
        ),
        d_num(s, i + enc_str(cv.0).len() + enc_str(cv.1).len(), '\n') == Option::Some(
            (
                cv.2,
                i + enc_str(cv.0).len() + enc_str(cv.1).len() + enc_num(cv.2, '\n').len(),
            ),
        ),
{
    let p1 = enc_str(cv.0);
    let p2 = enc_str(cv.1);
    let p3 = enc_num(cv.2, '\n');
    assert(p1 + p2 + p3 =~= p1 + (p2 + p3));
    lemma_window_split(s, i, p1, p2 + p3);
    lemma_d_str(s, i, cv.0);
    let i1 = i + p1.len();
    lemma_window_split(s, i1, p2, p3);
    lemma_d_str(s, i1, cv.1);
    let i2 = i1 + p2.len();
    assert('\n' as u32 == 10);
    lemma_d_num(s, i2, cv.2, '\n');
}

/// The descriptive tail of a commit row reads back from its window.
#[verifier::rlimit(60)]
proof fn lemma_commit_tail(s: Seq<char>, i: int, cv: CommitV)
    requires
        commit_ok(cv),
        0 <= i,
        i + enc_str(cv.3).len() + enc_str(cv.4).len() + enc_patch(cv.5).len() <= s.len(),
        s.subrange(
            i,
            i + enc_str(cv.3).len() + enc_str(cv.4).len() + enc_patch(cv.5).len(),
        ) == enc_str(cv.3) + enc_str(cv.4) + enc_patch(cv.5),
    ensures
        d_str(s, i) == Option::Some((cv.3, i + enc_str(cv.3).len())),
        d_str(s, i + enc_str(cv.3).len()) == Option::Some(
            (cv.4, i + enc_str(cv.3).len() + enc_str(cv.4).len()),
        ),
        d_patch(s, i + enc_str(cv.3).len() + enc_str(cv.4).len()) == Option::Some(
            (
                cv.5,
                i + enc_str(cv.3).len() + enc_str(cv.4).len() + enc_patch(cv.5).len(),
            ),
        ),
{
    let p4 = enc_str(cv.3);
    let p5 = enc_str(cv.4);
    let p6 = enc_patch(cv.5);
    assert(p4 + p5 + p6 =~= p4 + (p5 + p6));
    lemma_window_split(s, i, p4, p5 + p6);
    lemma_d_str(s, i, cv.3);
    let i1 = i + p4.len();
    lemma_window_split(s, i1, p5, p6);
    lemma_d_str(s, i1, cv.4);
    let i2 = i1 + p5.len();
    assert(s.subrange(i2, i2 + p6.len()) == p6);
    lemma_d_patch(s, i2, cv.5);
}

/// The law of the codec: a written commit reads back to the same row.
/// Its doc states the round trip; the proof composes the per-layer round
/// trips of strings, numerals and patches.
#[verifier::rlimit(100)]
pub proof fn lemma_commit_round_trip(cv: CommitV)
    requires
        commit_ok(cv),
    ensures
        d_commit(enc_commit(cv), 0) == Option::Some((cv, enc_commit(cv).len() as int)),
{
    let s = enc_commit(cv);
    let p1 = enc_str(cv.0);
    let p2 = enc_str(cv.1);
    let p3 = enc_num(cv.2, '\n');
    let p4 = enc_str(cv.3);
    let p5 = enc_str(cv.4);
    let p6 = enc_patch(cv.5);
    let head = p1 + p2 + p3;
    let tail = p4 + p5 + p6;
    assert(s.subrange(0, s.len() as int) =~= s);
    assert(s =~= head + tail);
    lemma_window_split(s, 0, head, tail);
    lemma_commit_head(s, 0, cv);
    lemma_commit_tail(s, head.len() as int, cv);
}

/// The law of the codec for branch rows: a written branch reads back to
/// the same row.
pub proof fn lemma_branch_round_trip(bv: BranchV)
    requires
        branch_ok(bv),
    ensures
        d_branch(enc_branch(bv), 0) == Option::Some((bv, enc_branch(bv).len() as int)),
{
    let s = enc_branch(bv);
    let p1 = enc_str(bv.0);
    let p2 = enc_str(bv.1);
    let p3 = enc_num(bv.2, '\n');
    assert(s.subrange(0, s.len() as int) =~= s);
    assert(s =~= p1 + (p2 + p3));
    lemma_window_split(s, 0, p1, p2 + p3);
    lemma_d_str(s, 0, bv.0);
    let i1 = p1.len() as int;
    lemma_window_split(s, i1, p2, p3);
    lemma_d_str(s, i1, bv.1);
    let i2 = i1 + p2.len();
    assert('\n' as u32 == 10);
    assert(s.subrange(i2, i2 + p3.len()) == p3);
    lemma_d_num(s, i2, bv.2, '\n');
}

// ------------------------------------------------------------------
// Encoders (verified executable)
// ------------------------------------------------------------------

/// Appends the numeral of `n` and its terminator.
fn enc_num_x(out: &mut String, n: u128, term: char)
    ensures
        final(out)@ == old(out)@ + enc_num(n as int, term),
{
    let d = u128_to_string(n);
    out.append(d.as_str());
    push_char(out, term);
    proof {
        assert(out@ =~= old(out)@ + enc_num(n as int, term));
    }
}

/// Appends the length-prefixed form of `s`.
fn enc_str_x(out: &mut String, s: &str)
    ensures
        final(out)@ == old(out)@ + enc_str(s@),
        str_ok(s@),
{
    let n = s.unicode_len();
    enc_num_x(out, n as u128, ':');
    out.append(s);
    push_char(out, '\n');
    proof {
        assert(out@ =~= old(out)@ + enc_str(s@));
    }
}

/// Appends one change record.
fn enc_change_x(out: &mut String, c: &Change)
    ensures
        final(out)@ == old(out)@ + enc_change((c.0 as int, c.1, c.2@)),
        change_ok((c.0 as int, c.1, c.2@)),
{
    match c.1 {
        ChangeMode::Added => {
            push_char(out, 'A');
        },
        ChangeMode::Deleted => {
            push_char(out, 'D');
        },
    }
    push_char(out, ' ');
    enc_num_x(out, c.0 as u128, '\n');
    enc_str_x(out, c.2.as_str());
    proof {
        assert(out@ =~= old(out)@ + enc_change((c.0 as int, c.1, c.2@)));
    }
}

/// Appends one patch file: previous text, change count, changes.
fn enc_pf_x(out: &mut String, pf: &PatchFile)
    ensures
        final(out)@ == old(out)@ + enc_pf(pf_view(*pf)),
        pf_ok(pf_view(*pf)),
{
    enc_str_x(out, pf.0.as_str());
    let n = pf.1.len();
    enc_num_x(out, n as u128, '\n');
    let ghost base = out@;
    let mut j: usize = 0;
    while j < n
        invariant
            j <= n,
            n == pf.1@.len(),
            out@ == base + enc_changes(changes_view(pf.1@.subrange(0, j as int))),
            forall|t: int|
                0 <= t < j ==> change_ok(#[trigger] changes_view(pf.1@)[t]),
        decreases n - j,
    {
        enc_change_x(out, &pf.1[j]);
        proof {
            let pre = pf.1@.subrange(0, j as int);
            let c = pf.1@[j as int];
            assert(pf.1@.subrange(0, j + 1 as int) =~= pre.push(c));
            assert(changes_view(pre.push(c)) =~= changes_view(pre).push((c.0 as int, c.1, c.2@)));
            assert(changes_view(pre).push((c.0 as int, c.1, c.2@)).drop_last() =~= changes_view(
                pre,
            ));
            assert(out@ =~= base + enc_changes(changes_view(pf.1@.subrange(0, j + 1 as int))));
            assert(changes_view(pf.1@)[j as int] == (c.0 as int, c.1, c.2@));
        }
        j += 1;
    }
    proof {
        assert(pf.1@.subrange(0, n as int) =~= pf.1@);
        assert(out@ =~= old(out)@ + enc_pf(pf_view(*pf)));
        assert forall|k: int| 0 <= k < pf_view(*pf).1.len() implies change_ok(
            #[trigger] pf_view(*pf).1[k],
        ) by {
            assert(pf_view(*pf).1[k] == changes_view(pf.1@)[k]);
        }
    }
}

/// Writes a patch in the engine's text format.
pub fn encode_patch(p: &Patch) -> (r: String)
    ensures
        r@ == enc_patch(patch_view(*p)),
        patch_ok(patch_view(*p)),
{
    let mut out = String::new();
    let n = p.files.len();
    enc_num_x(&mut out, n as u128, '\n');
    let ghost base = out@;
    let ghost pv = patch_view(*p);
    proof {
        assert(pv.len() == p.files@.len());
    }
    let mut i: usize = 0;
    while i < n
        invariant
            i <= n,
            n == p.files@.len(),
            pv == patch_view(*p),
            pv.len() == n,
            out@ == base + enc_files(pv.subrange(0, i as int)),
            forall|k: int|
                0 <= k < i ==> str_ok((#[trigger] pv[k]).0) && pf_ok(pv[k].1),
        decreases n - i,
    {
        enc_str_x(&mut out, p.files.key_at(i).as_str());
        enc_pf_x(&mut out, p.files.val_at(i));
        proof {
            let pre = pv.subrange(0, i as int);
            assert(pv.subrange(0, i + 1 as int) =~= pre.push(pv[i as int]));
            assert(pre.push(pv[i as int]).drop_last() =~= pre);
            assert(pv[i as int] == (p.files@[i as int].0, pf_view(p.files@[i as int].1)));
            assert(out@ =~= base + enc_files(pv.subrange(0, i + 1 as int)));
        }
        i += 1;
    }
    proof {
        assert(pv.subrange(0, n as int) =~= pv);
        assert(out@ =~= enc_patch(pv));
    }
    out
}

/// Writes a commit row in the engine's text format.
pub fn encode_commit(
    id: &String,
    branch: &String,
    timestamp: u128,
    author: &String,
    message: &String,
    content: &Patch,
) -> (r: String)
    ensures
        r@ == enc_commit(
            (id@, branch@, timestamp as int, author@, message@, patch_view(*content)),
        ),
        commit_ok((id@, branch@, timestamp as int, author@, message@, patch_view(*content))),
{
    let mut out = String::new();
    enc_str_x(&mut out, id.as_str());
    enc_str_x(&mut out, branch.as_str());
    enc_num_x(&mut out, timestamp, '\n');
    enc_str_x(&mut out, author.as_str());
    enc_str_x(&mut out, message.as_str());
    let body = encode_patch(content);
    out.append(body.as_str());
    proof {
        assert(out@ =~= enc_commit(
            (id@, branch@, timestamp as int, author@, message@, patch_view(*content)),
        ));
    }
    out
}

/// Writes a branch row in the engine's text format.
pub fn encode_branch(id: &String, name: &String, timestamp: u128) -> (r: String)
    ensures
        r@ == enc_branch((id@, name@, timestamp as int)),
        branch_ok((id@, name@, timestamp as int)),
{
    let mut out = String::new();
    enc_str_x(&mut out, id.as_str());
    enc_str_x(&mut out, name.as_str());
    enc_num_x(&mut out, timestamp, '\n');
    proof {
        assert(out@ =~= enc_branch((id@, name@, timestamp as int)));
    }
    out
}

// ------------------------------------------------------------------
// Parsers (verified executable)
// ------------------------------------------------------------------

/// Reads a numeral and its terminator, as `d_num` describes.
fn x_num(s: &str, n: usize, i: usize, term: char) -> (r: Option<(u128, usize)>)
    requires
        n == s@.len(),
        i <= n,
        !is_dec_char(term),
    ensures
        match r {
            Option::Some(p) => d_num(s@, i as int, term) == Option::Some(
                (p.0 as int, p.1 as int),
            ) && i < p.1 <= n,
            Option::None => d_num(s@, i as int, term) is None,
        },
{
    let mut e: usize = i;
    loop
        invariant
            i <= e <= n,
            n == s@.len(),
            forall|j: int| i <= j < e ==> is_dec_char(#[trigger] s@[j]),
        ensures
            i <= e <= n,
            forall|j: int| i <= j < e ==> is_dec_char(#[trigger] s@[j]),
            e < n ==> !is_dec_char(s@[e as int]),
            e == n || !is_dec_char(s@[e as int]),
        decreases n - e,
    {
        if e >= n {
            break;
        }
        let c = s.get_char(e);
        let cv = c as u32;
        if cv < 48 || cv > 57 {
            break;
        }
        e += 1;
    }
    proof {
        lemma_digits_end_at(s@, i as int, e as int);
    }
    if e == i {
        return Option::None;
    }
    if e >= n {
        return Option::None;
    }
    if s.get_char(e) != term {
        return Option::None;
    }
    let mut acc: u128 = 0;
    let mut j: usize = i;
    while j < e
        invariant
            i <= j <= e < n,
            i < e,
            n == s@.len(),
            digits_end(s@, i as int) == e as int,
            s@[e as int] == term,
            forall|t: int| i <= t < e ==> is_dec_char(#[trigger] s@[t]),
            acc as int == dec_val(s@.subrange(i as int, j as int)),
        decreases e - j,
    {
        let c = s.get_char(j);
        let cv = c as u32;
        proof {
            crate::text::lemma_dec_val_snoc(s@.subrange(i as int, j as int), s@[j as int]);
            assert(s@.subrange(i as int, j + 1 as int) =~= s@.subrange(i as int, j as int).push(
                s@[j as int],
            ));
        }
        let step = match acc.checked_mul(10) {
            Option::Some(m) => m.checked_add((cv - 48) as u128),
            Option::None => Option::None,
        };
        match step {
            Option::Some(v) => {
                acc = v;
            },
            Option::None => {
                proof {
                    let whole = s@.subrange(i as int, e as int);
                    assert forall|t: int| 0 <= t < whole.len() implies is_dec_char(
                        #[trigger] whole[t],
                    ) by {
                        assert(whole[t] == s@[i + t]);
                    }
                    assert(whole.subrange(0, j + 1 - i as int) =~= s@.subrange(
                        i as int,
                        j + 1 as int,
                    ));
                    crate::text::lemma_dec_val_grows(whole, j + 1 - i as int);
                }
                return Option::None;
            },
        }
        j += 1;
    }
    Option::Some((acc, e + 1))
}

/// Reads a length-prefixed string, as `d_str` describes.
fn x_str(s: &str, n: usize, i: usize) -> (r: Option<(String, usize)>)
    requires
        n == s@.len(),
        i <= n,
    ensures
        match r {
            Option::Some(p) => d_str(s@, i as int) == Option::Some((p.0@, p.1 as int)) && i < p.1
                <= n,
            Option::None => d_str(s@, i as int) is None,
        },
{
    proof {
        assert(':' as u32 == 58);
    }
    let (len128, j) = match x_num(s, n, i, ':') {
        Option::Some(p) => p,
        Option::None => {
            return Option::None;
        },
    };
    if len128 >= (n - j) as u128 {
        return Option::None;
    }
    let len = len128 as usize;
    let end = j + len;
    if s.get_char(end) != '\n' {
        return Option::None;
    }
    let t = s.substring_char(j, end).to_owned();
    Option::Some((t, end + 1))
}

/// Reads one change record, as `d_change` describes.
fn x_change(s: &str, n: usize, i: usize) -> (r: Option<(Change, usize)>)
    requires
        n == s@.len(),
        i <= n,
    ensures
        match r {
            Option::Some(p) => d_change(s@, i as int) == Option::Some(
                ((p.0.0 as int, p.0.1, p.0.2@), p.1 as int),
            ) && i < p.1 <= n,
            Option::None => d_change(s@, i as int) is None,
        },
{
    if n - i < 2 {
        return Option::None;
    }
    let m0 = s.get_char(i);
    if m0 != 'A' && m0 != 'D' {
        return Option::None;
    }
    if s.get_char(i + 1) != ' ' {
        return Option::None;
    }
    let mode = if m0 == 'A' {
        ChangeMode::Added
    } else {
        ChangeMode::Deleted
    };
    proof {
        assert('\n' as u32 == 10);
    }
    let (p128, j) = match x_num(s, n, i + 2, '\n') {
        Option::Some(p) => p,
        Option::None => {
            return Option::None;
        },
    };
    if p128 > usize::MAX as u128 {
        return Option::None;
    }
    let pos = p128 as usize;
    let (t, j2) = match x_str(s, n, j) {
        Option::Some(p) => p,
        Option::None => {
            return Option::None;
        },
    };
    Option::Some(((pos, mode, t), j2))
}

/// Reads exactly `k` changes, as `d_changes` describes.
fn x_changes(s: &str, n: usize, i: usize, k: u128) -> (r: Option<(Vec<Change>, usize)>)
    requires
        n == s@.len(),
        i <= n,
    ensures
        match r {
            Option::Some(p) => d_changes(s@, i as int, k as int) == Option::Some(
                (changes_view(p.0@), p.1 as int),
            ) && i <= p.1 <= n,
            Option::None => d_changes(s@, i as int, k as int) is None,
        },
{
    let mut acc: Vec<Change> = Vec::new();
    let mut cur: usize = i;
    let mut t: u128 = 0;
    while t < k
        invariant
            t <= k,
            i <= cur <= n,
            n == s@.len(),
            d_changes(s@, i as int, k as int) == (match d_changes(
                s@,
                cur as int,
                k as int - t as int,
            ) {
                Option::Some(p) => Option::<(Seq<LineEdit>, int)>::Some(
                    (changes_view(acc@) + p.0, p.1),
                ),
                Option::None => Option::<(Seq<LineEdit>, int)>::None,
            }),
        decreases k - t,
    {
        let (c, j) = match x_change(s, n, cur) {
            Option::Some(p) => p,
            Option::None => {
                return Option::None;
            },
        };
        let ghost apre = acc@;
        acc.push(c);
        proof {
            let cv = (c.0 as int, c.1, c.2@);
            assert(changes_view(acc@) =~= changes_view(apre).push(cv));
            match d_changes(s@, j as int, k as int - (t + 1) as int) {
                Option::Some(p) => {
                    assert(changes_view(apre) + (seq![cv] + p.0) =~= changes_view(acc@) + p.0);
                },
                Option::None => {},
            }
        }
        cur = j;
        t += 1;
    }
    proof {
        assert(d_changes(s@, cur as int, 0) == Option::<(Seq<LineEdit>, int)>::Some(
            (Seq::<LineEdit>::empty(), cur as int),
        ));
        assert(changes_view(acc@) + Seq::<LineEdit>::empty() =~= changes_view(acc@));
    }
    Option::Some((acc, cur))
}

/// Reads one file's patch data, as `d_pf` describes.
fn x_pf(s: &str, n: usize, i: usize) -> (r: Option<(PatchFile, usize)>)
    requires
        n == s@.len(),
        i <= n,
    ensures
        match r {
            Option::Some(p) => d_pf(s@, i as int) == Option::Some((pf_view(p.0), p.1 as int)) && i
                < p.1 <= n,
            Option::None => d_pf(s@, i as int) is None,
        },
{
    let (prev, j) = match x_str(s, n, i) {
        Option::Some(p) => p,
        Option::None => {
            return Option::None;
        },
    };
    proof {
        assert('\n' as u32 == 10);
    }
    let (k, j2) = match x_num(s, n, j, '\n') {
        Option::Some(p) => p,
        Option::None => {
            return Option::None;
        },
    };
    let (cs, e) = match x_changes(s, n, j2, k) {
        Option::Some(p) => p,
        Option::None => {
            return Option::None;
        },
    };
    Option::Some((PatchFile(prev, cs), e))
}

/// The view of parsed file entries, in parse order.
pub open spec fn files_pairs_view(v: Seq<(String, PatchFile)>) -> PatchV {
    v.map_values(|p: (String, PatchFile)| (p.0@, pf_view(p.1)))
}

/// Reads exactly `k` file entries, as `d_files` describes.
fn x_files(s: &str, n: usize, i: usize, k: u128) -> (r: Option<(Vec<(String, PatchFile)>, usize)>)
    requires
        n == s@.len(),
        i <= n,
    ensures
        match r {
            Option::Some(p) => d_files(s@, i as int, k as int) == Option::Some(
                (files_pairs_view(p.0@), p.1 as int),
            ) && i <= p.1 <= n,
            Option::None => d_files(s@, i as int, k as int) is None,
        },
{
    let mut acc: Vec<(String, PatchFile)> = Vec::new();
    let mut cur: usize = i;
    let mut t: u128 = 0;
    while t < k
        invariant
            t <= k,
            i <= cur <= n,
            n == s@.len(),
            d_files(s@, i as int, k as int) == (match d_files(
                s@,
                cur as int,
                k as int - t as int,
            ) {
                Option::Some(p) => Option::<(PatchV, int)>::Some(
                    (files_pairs_view(acc@) + p.0, p.1),
                ),
                Option::None => Option::<(PatchV, int)>::None,
            }),
        decreases k - t,
    {
        let (path, j) = match x_str(s, n, cur) {
            Option::Some(p) => p,
            Option::None => {
                return Option::None;
            },
        };
        let (pf, j2) = match x_pf(s, n, j) {
            Option::Some(p) => p,
            Option::None => {
                return Option::None;
            },
        };
        let ghost apre = acc@;
        acc.push((path, pf));
        proof {
            let fv = (path@, pf_view(pf));
            assert(files_pairs_view(acc@) =~= files_pairs_view(apre).push(fv));
            match d_files(s@, j2 as int, k as int - (t + 1) as int) {
                Option::Some(p) => {
                    assert(files_pairs_view(apre) + (seq![fv] + p.0) =~= files_pairs_view(acc@)
                        + p.0);
                },
                Option::None => {},
            }
        }
        cur = j2;
        t += 1;
    }
    proof {
        assert(files_pairs_view(acc@) + Seq::<(Seq<char>, PatchFileV)>::empty()
            =~= files_pairs_view(acc@));
    }
    Option::Some((acc, cur))
}

/// Value-mapping patch files commutes with storing one entry.
pub proof fn lemma_patch_put(m: Seq<(Seq<char>, PatchFile)>, k: Seq<char>, v: PatchFile)
    ensures
        files_map_view(map_put(m, k, v)) == map_put(files_map_view(m), k, pf_view(v)),
    decreases m.len(),
{
    if m.len() == 0 {
        assert(files_map_view(map_put(m, k, v)) =~= map_put(files_map_view(m), k, pf_view(v)));
    } else {
        assert(files_map_view(m)[0] == (m[0].0, pf_view(m[0].1)));
        if lex_lt(k, m[0].0) {
            assert(files_map_view(map_put(m, k, v)) =~= map_put(
                files_map_view(m),
                k,
                pf_view(v),
            ));
        } else if k == m[0].0 {
            assert(files_map_view(map_put(m, k, v)) =~= map_put(
                files_map_view(m),
                k,
                pf_view(v),
            ));
        } else {
            lemma_patch_put(m.drop_first(), k, v);
            assert(files_map_view(m).drop_first() =~= files_map_view(m.drop_first()));
            assert(files_map_view(map_put(m, k, v)) =~= seq![(m[0].0, pf_view(m[0].1))]
                + files_map_view(map_put(m.drop_first(), k, v)));
            assert(map_put(files_map_view(m), k, pf_view(v)) =~= seq![(m[0].0, pf_view(m[0].1))]
                + map_put(files_map_view(m.drop_first()), k, pf_view(v)));
        }
    }
}

/// Reads a whole patch text back into a patch; entries land in a sorted
/// file map, a later duplicate path replacing an earlier one. Anything
/// malformed, or trailing content, is rejected.
pub fn parse_patch_text(s: &str) -> (r: Option<Patch>)
    ensures
        match r {
            Option::Some(p) => p.wf() && (d_patch(s@, 0) matches Option::Some(q) && q.1
                == s@.len() && patch_view(p) == map_of(q.0)),
            Option::None => !(d_patch(s@, 0) matches Option::Some(q) && q.1 == s@.len()),
        },
{
    let n = s.unicode_len();
    proof {
        assert('\n' as u32 == 10);
    }
    let (k, j) = match x_num(s, n, 0, '\n') {
        Option::Some(p) => p,
        Option::None => {
            return Option::None;
        },
    };
    let (mut fs, e) = match x_files(s, n, j, k) {
        Option::Some(p) => p,
        Option::None => {
            return Option::None;
        },
    };
    if e != n {
        return Option::None;
    }
    let ghost fs0 = fs@;
    let total = fs.len();
    let mut files: SMap<PatchFile> = SMap::new();
    proof {
        assert(files_map_view(files@) =~= map_of(files_pairs_view(fs0.subrange(0, 0))));
    }
    let mut done: usize = 0;
    while fs.len() > 0
        invariant
            files.wf(),
            total == fs0.len(),
            done <= total,
            done + fs@.len() == fs0.len(),
            fs@ =~= fs0.subrange(done as int, fs0.len() as int),
            files_map_view(files@) == map_of(files_pairs_view(fs0.subrange(0, done as int))),
        decreases fs@.len(),
    {
        let pair = fs.remove(0);
        let ghost fpre = files@;
        files.insert(pair.0, pair.1);
        proof {
            assert(fs0[done as int] == pair);
            lemma_patch_put(fpre, pair.0@, pair.1);
            assert(files_pairs_view(fs0.subrange(0, done + 1 as int)) =~= files_pairs_view(
                fs0.subrange(0, done as int),
            ).push((pair.0@, pf_view(pair.1))));
            let pe = files_pairs_view(fs0.subrange(0, done as int));
            assert(pe.push((pair.0@, pf_view(pair.1))).drop_last() =~= pe);
        }
        done += 1;
    }
    proof {
        assert(fs0.subrange(0, done as int) =~= fs0);
    }
    Option::Some(Patch { files })
}

/// Reads a whole commit text back into its row fields and patch.
pub fn parse_commit_text(s: &str) -> (r: Option<(String, String, u128, String, String, Patch)>)
    ensures
        match r {
            Option::Some(t) => t.5.wf() && (d_commit(s@, 0) matches Option::Some(q) && q.1
                == s@.len() && q.0.0 == t.0@ && q.0.1 == t.1@ && q.0.2 == t.2 as int && q.0.3
                == t.3@ && q.0.4 == t.4@ && patch_view(t.5) == map_of(q.0.5)),
            Option::None => !(d_commit(s@, 0) matches Option::Some(q) && q.1 == s@.len()),
        },
{
    let n = s.unicode_len();
    let (id, j1) = match x_str(s, n, 0) {
        Option::Some(p) => p,
        Option::None => {
            return Option::None;
        },
    };
    let (branch, j2) = match x_str(s, n, j1) {
        Option::Some(p) => p,
        Option::None => {
            return Option::None;
        },
    };
    proof {
        assert('\n' as u32 == 10);
    }
    let (ts, j3) = match x_num(s, n, j2, '\n') {
        Option::Some(p) => p,
        Option::None => {
            return Option::None;
        },
    };
    let (author, j4) = match x_str(s, n, j3) {
        Option::Some(p) => p,
        Option::None => {
            return Option::None;
        },
    };
    let (message, j5) = match x_str(s, n, j4) {
        Option::Some(p) => p,
        Option::None => {
            return Option::None;
        },
    };
    let (k, j6) = match x_num(s, n, j5, '\n') {
        Option::Some(p) => p,
        Option::None => {
            return Option::None;
        },
    };
    let (mut fs, e) = match x_files(s, n, j6, k) {
        Option::Some(p) => p,
        Option::None => {
            return Option::None;
        },
    };
    if e != n {
        return Option::None;
    }
    let ghost fs0 = fs@;
    let total = fs.len();
    let mut files: SMap<PatchFile> = SMap::new();
    proof {
        assert(files_map_view(files@) =~= map_of(files_pairs_view(fs0.subrange(0, 0))));
    }
    let mut done: usize = 0;
    while fs.len() > 0
        invariant
            files.wf(),
            total == fs0.len(),
            done <= total,
            done + fs@.len() == fs0.len(),
            fs@ =~= fs0.subrange(done as int, fs0.len() as int),
            files_map_view(files@) == map_of(files_pairs_view(fs0.subrange(0, done as int))),
        decreases fs@.len(),
    {
        let pair = fs.remove(0);
        let ghost fpre = files@;
        files.insert(pair.0, pair.1);
        proof {
            assert(fs0[done as int] == pair);
            lemma_patch_put(fpre, pair.0@, pair.1);
            assert(files_pairs_view(fs0.subrange(0, done + 1 as int)) =~= files_pairs_view(
                fs0.subrange(0, done as int),
            ).push((pair.0@, pf_view(pair.1))));
            let pe = files_pairs_view(fs0.subrange(0, done as int));
            assert(pe.push((pair.0@, pf_view(pair.1))).drop_last() =~= pe);
        }
        done += 1;
    }
    proof {
        assert(fs0.subrange(0, done as int) =~= fs0);
    }
    Option::Some((id, branch, ts, author, message, Patch { files }))
}

/// Reads a whole branch text back into its row fields.
pub fn parse_branch_text(s: &str) -> (r: Option<(String, String, u128)>)
    ensures
        match r {
            Option::Some(t) => d_branch(s@, 0) matches Option::Some(q) && q.1 == s@.len() && q.0.0
                == t.0@ && q.0.1 == t.1@ && q.0.2 == t.2 as int,
            Option::None => !(d_branch(s@, 0) matches Option::Some(q) && q.1 == s@.len()),
        },
{
    let n = s.unicode_len();
    let (id, j1) = match x_str(s, n, 0) {
        Option::Some(p) => p,
        Option::None => {
            return Option::None;
        },
    };
    let (name, j2) = match x_str(s, n, j1) {
        Option::Some(p) => p,
        Option::None => {
            return Option::None;
        },
    };
    proof {
        assert('\n' as u32 == 10);
    }
    let (ts, e) = match x_num(s, n, j2, '\n') {
        Option::Some(p) => p,
        Option::None => {
            return Option::None;
        },
    };
    if e != n {
        return Option::None;
    }
    Option::Some((id, name, ts))
}

} // verus!
