//! Rendering patches, commits and whole gardens for display: a
//! terminal-styled form using control markers, and an HTML form obtained
//! by rewriting the markers into tags. The rewriting is a verified
//! substring replacement; the block structure of each rendering is
//! pinned by contract.

use vstd::prelude::*;

use crate::garden::Garden;
use crate::model::LilyError;
use crate::patch::count_added;
use crate::patch::count_deleted;
use crate::patch::Change;
use crate::patch::ChangeMode;
use crate::patch::Patch;
use crate::smap::SMap;
use crate::text::dec_str;
use crate::text::lemma_dec_str_val;
use crate::text::push_char;
use crate::text::split_string;
use crate::text::text_lines;
use crate::text::usize_to_string;
use crate::text::views_of;

verus! {

// ------------------------------------------------------------------
// Verified substring replacement
// ------------------------------------------------------------------

/// `s` with every occurrence of `pat` replaced by `rep`, scanning left
/// to right without rescanning replacements.
pub open spec fn replace_spec(s: Seq<char>, pat: Seq<char>, rep: Seq<char>) -> Seq<char>
    decreases s.len(),
{
    if pat.len() == 0 || s.len() < pat.len() {
        s
    } else if s.subrange(0, pat.len() as int) == pat {
        rep + replace_spec(s.skip(pat.len() as int), pat, rep)
    } else {
        seq![s[0]] + replace_spec(s.drop_first(), pat, rep)
    }
}

/// Whether `pat` occurs in `s` at position `i`.
fn match_at(s: &str, n: usize, i: usize, pat: &str, plen: usize) -> (r: bool)
    requires
        n == s@.len(),
        plen == pat@.len(),
        i <= n,
    ensures
        r == (i + plen <= n && s@.subrange(i as int, i + plen as int) == pat@),
{
    if plen > n - i {
        return false;
    }
    let mut k: usize = 0;
    while k < plen
        invariant
            k <= plen,
            i + plen <= n,
            n == s@.len(),
            plen == pat@.len(),
            forall|t: int| 0 <= t < k ==> s@[i + t] == pat@[t],
        decreases plen - k,
    {
        if s.get_char(i + k) != pat.get_char(k) {
            proof {
                assert(s@.subrange(i as int, i + plen as int)[k as int] == s@[i + k]);
            }
            return false;
        }
        k += 1;
    }
    proof {
        assert(s@.subrange(i as int, i + plen as int) =~= pat@);
    }
    true
}

/// Replaces every occurrence of `pat` in `s` with `rep`.
pub fn replace(s: &str, pat: &str, rep: &str) -> (r: String)
    requires
        pat@.len() > 0,
    ensures
        r@ == replace_spec(s@, pat@, rep@),
{
    let n = s.unicode_len();
    let plen = pat.unicode_len();
    let mut out = String::new();
    let mut i: usize = 0;
    proof {
        assert(s@.skip(0) =~= s@);
        assert(out@ + replace_spec(s@.skip(0), pat@, rep@) =~= replace_spec(s@, pat@, rep@));
    }
    while i < n
        invariant
            i <= n,
            n == s@.len(),
            plen == pat@.len(),
            plen > 0,
            replace_spec(s@, pat@, rep@) == out@ + replace_spec(s@.skip(i as int), pat@, rep@),
        decreases n - i,
    {
        proof {
            assert(s@.skip(i as int).len() == n - i);
        }
        if match_at(s, n, i, pat, plen) {
            proof {
                let t = s@.skip(i as int);
                assert(t.subrange(0, plen as int) =~= s@.subrange(i as int, i + plen as int));
                assert(t.skip(plen as int) =~= s@.skip(i + plen as int));
            }
            out.append(rep);
            i += plen;
        } else {
            proof {
                let t = s@.skip(i as int);
                if t.len() >= plen {
                    assert(t.subrange(0, plen as int) =~= s@.subrange(
                        i as int,
                        i + plen as int,
                    ));
                }
                assert(t.drop_first() =~= s@.skip(i + 1 as int));
                assert(t[0] == s@[i as int]);
            }
            let c = s.get_char(i);
            push_char(&mut out, c);
            i += 1;
        }
    }
    proof {
        assert(s@.skip(n as int).len() == 0);
        assert(replace_spec(s@.skip(n as int), pat@, rep@) == s@.skip(n as int));
        assert(out@ + s@.skip(n as int) =~= out@);
    }
    out
}

// ------------------------------------------------------------------
// Patch rendering
// ------------------------------------------------------------------

/// A run of `n` copies of one character.
pub open spec fn char_run(c: char, n: int) -> Seq<char>
    decreases n,
{
    if n <= 0 {
        Seq::<char>::empty()
    } else {
        char_run(c, n - 1).push(c)
    }
}

/// Builds a run of `n` copies of one character.
fn make_run(c: char, n: usize) -> (r: String)
    ensures
        r@ == char_run(c, n as int),
{
    let mut out = String::new();
    let mut i: usize = 0;
    while i < n
        invariant
            i <= n,
            out@ == char_run(c, i as int),
        decreases n - i,
    {
        push_char(&mut out, c);
        i += 1;
    }
    out
}

/// The opening of a file block: bold marker, path, colon, newline.
pub open spec fn file_header_prefix(path: Seq<char>) -> Seq<char> {
    "\u{1b}[1m"@ + path + ":\n"@
}

/// The aggregate summary line of a rendering.
pub open spec fn totals_line(total: int, additions: int, deletions: int) -> Seq<char> {
    dec_str(total) + " total changes \u{2022} \u{1b}[92m"@ + dec_str(additions)
        + " additions\u{1b}[0m \u{2022} \u{1b}[91m"@ + dec_str(deletions)
        + " deletions\u{1b}[0m"@
}

/// Totals only grow with more files.
proof fn lemma_patch_totals_monotone(
    files: Seq<(Seq<char>, crate::patch::PatchFile)>,
    i: int,
)
    requires
        0 <= i <= files.len(),
    ensures
        patch_totals(files).0 >= patch_totals(files.subrange(0, i)).0,
    decreases files.len() - i,
{
    if i < files.len() {
        lemma_patch_totals_monotone(files, i + 1);
        let pre = files.subrange(0, i);
        assert(files.subrange(0, i + 1) =~= pre.push(files[i]));
        assert(pre.push(files[i]).drop_last() =~= pre);
        lemma_count_nonneg(files[i].1.1@);
    } else {
        assert(files.subrange(0, i) =~= files);
    }
}

/// Change counts are not negative.
proof fn lemma_count_nonneg(cs: Seq<Change>)
    ensures
        count_added(cs) >= 0,
        count_deleted(cs) >= 0,
    decreases cs.len(),
{
    if cs.len() > 0 {
        lemma_count_nonneg(cs.drop_last());
    }
}

/// The sums of a patch's per-file change counts.
pub open spec fn patch_totals(files: Seq<(Seq<char>, crate::patch::PatchFile)>) -> (
    int,
    int,
    int,
)
    decreases files.len(),
{
    if files.len() == 0 {
        (0, 0, 0)
    } else {
        let front = patch_totals(files.drop_last());
        let cs = files.last().1.1@;
        (
            front.0 + cs.len(),
            front.1 + count_added(cs),
            front.2 + count_deleted(cs),
        )
    }
}

/// Builds the aggregate summary line.
fn build_totals_line(total: usize, additions: usize, deletions: usize) -> (r: String)
    ensures
        r@ == totals_line(total as int, additions as int, deletions as int),
{
    proof {
        reveal_strlit(" total changes \u{2022} \u{1b}[92m");
        reveal_strlit(" additions\u{1b}[0m \u{2022} \u{1b}[91m");
        reveal_strlit(" deletions\u{1b}[0m");
    }
    let mut out = usize_to_string(total);
    out.append(" total changes \u{2022} \u{1b}[92m");
    out.append(usize_to_string(additions).as_str());
    out.append(" additions\u{1b}[0m \u{2022} \u{1b}[91m");
    out.append(usize_to_string(deletions).as_str());
    out.append(" deletions\u{1b}[0m");
    proof {
        assert(out@ =~= totals_line(total as int, additions as int, deletions as int));
    }
    out
}

impl Patch {
    /// Renders the patch for a terminal: one block per file, opened by
    /// the file's path, with line numbers, unchanged lines plain,
    /// deletions kept in place and additions after their anchor, closed
    /// by the file's summary; then one aggregate summary line.
    pub fn render(&self) -> (r: Vec<String>)
        ensures
            r@.len() == self.files@.len() + 1,
            patch_totals(self.files@).0 <= usize::MAX ==> views_of(r@).last() == totals_line(
                patch_totals(self.files@).0,
                patch_totals(self.files@).1,
                patch_totals(self.files@).2,
            ),
            forall|k: int|
                0 <= k < self.files@.len() ==> #[trigger] views_of(r@)[k] == file_block_spec(
                    self.files@[k].0,
                    self.files@[k].1,
                ),
            forall|k: int|
                0 <= k < self.files@.len() ==> (#[trigger] views_of(r@)[k]).len()
                    >= file_header_prefix(self.files@[k].0).len() && views_of(r@)[k].subrange(
                    0,
                    file_header_prefix(self.files@[k].0).len() as int,
                ) == file_header_prefix(self.files@[k].0),
    {
        proof {
            reveal_strlit("\u{1b}[1m");
            reveal_strlit(":\n");
        }
        let nf = self.files.len();
        let mut out: Vec<String> = Vec::new();
        let mut total: usize = 0;
        let mut additions: usize = 0;
        let mut deletions: usize = 0;
        let mut f: usize = 0;
        while f < nf
            invariant
                f <= nf,
                nf == self.files@.len(),
                out@.len() == f,
                patch_totals(self.files@.subrange(0, f as int)).0 <= usize::MAX ==> total
                    == patch_totals(self.files@.subrange(0, f as int)).0 && additions
                    == patch_totals(self.files@.subrange(0, f as int)).1 && deletions
                    == patch_totals(self.files@.subrange(0, f as int)).2,
                patch_totals(self.files@.subrange(0, f as int)).0 > usize::MAX ==> patch_totals(
                    self.files@,
                ).0 > usize::MAX,
                total == additions + deletions,
                forall|k: int|
                    0 <= k < f ==> #[trigger] views_of(out@)[k] == file_block_spec(
                        self.files@[k].0,
                        self.files@[k].1,
                    ),
                forall|k: int|
                    0 <= k < f ==> (#[trigger] views_of(out@)[k]).len() >= file_header_prefix(
                        self.files@[k].0,
                    ).len() && views_of(out@)[k].subrange(
                        0,
                        file_header_prefix(self.files@[k].0).len() as int,
                    ) == file_header_prefix(self.files@[k].0),
            decreases nf - f,
        {
            let path = self.files.key_at(f);
            let pf = self.files.val_at(f);
            let summary = pf.summary();
            let mut block = String::from_str("\u{1b}[1m");
            block.append(path.as_str());
            block.append(":\n");
            let ghost hdr = block@;
            proof {
                assert(hdr =~= file_header_prefix(self.files@[f as int].0));
            }
            let plen0 = path.as_str().unicode_len();
            let runlen = if plen0 == usize::MAX {
                plen0
            } else {
                plen0 + 1
            };
            block.append(make_run('=', runlen).as_str());
            block.append("\n\u{1b}[0m\u{0096}");
            // Body: old lines with deletions in place, additions after
            // their anchors.
            let body = render_body(pf);
            block.append(body.as_str());
            // Footer with the per-file summary.
            block.append("\u{1b}[0m\u{0097}\n\u{1b}[1m");
            block.append(make_run('=', runlen).as_str());
            block.append("\u{1b}[0m\n");
            block.append(build_totals_line(summary.0, summary.1, summary.2).as_str());
            proof {
                assert(block@.subrange(0, hdr.len() as int) =~= hdr);
                assert(block@ =~= file_block_spec(
                    self.files@[f as int].0,
                    self.files@[f as int].1,
                ));
            }
            let ghost opre = out@;
            let ghost blockg = block@;
            out.push(block);
            proof {
                let pre = self.files@.subrange(0, f as int);
                assert(self.files@.subrange(0, f + 1 as int) =~= pre.push(
                    self.files@[f as int],
                ));
                assert(pre.push(self.files@[f as int]).drop_last() =~= pre);
                assert forall|k: int| 0 <= k < f + 1 implies #[trigger] views_of(out@)[k]
                    == file_block_spec(self.files@[k].0, self.files@[k].1) by {
                    if k < f {
                        assert(views_of(out@)[k] == views_of(opre)[k]);
                    } else {
                        assert(views_of(out@)[k] == blockg);
                    }
                }
                assert forall|k: int| 0 <= k < f + 1 implies (#[trigger] views_of(out@)[k]).len()
                    >= file_header_prefix(self.files@[k].0).len() && views_of(out@)[k].subrange(
                    0,
                    file_header_prefix(self.files@[k].0).len() as int,
                ) == file_header_prefix(self.files@[k].0) by {
                    if k < f {
                        assert(views_of(out@)[k] == views_of(opre)[k]);
                    }
                }
            }
            proof {
                let pre = self.files@.subrange(0, f as int);
                assert(patch_totals(self.files@.subrange(0, f + 1 as int)).0 == patch_totals(
                    pre,
                ).0 + self.files@[f as int].1.1@.len());
                lemma_patch_totals_monotone(self.files@, f + 1 as int);
            }
            match total.checked_add(summary.0) {
                Option::Some(t) => {
                    total = t;
                    additions = additions + summary.1;
                    deletions = deletions + summary.2;
                },
                Option::None => {
                    total = usize::MAX;
                    additions = usize::MAX;
                    deletions = 0;
                },
            }
            f += 1;
        }
        proof {
            assert(self.files@.subrange(0, nf as int) =~= self.files@);
        }
        let ghost opre2 = out@;
        let line = build_totals_line(total, additions, deletions);
        out.push(line);
        proof {
            assert forall|k: int| 0 <= k < self.files@.len() implies #[trigger] views_of(
                out@,
            )[k] == file_block_spec(self.files@[k].0, self.files@[k].1) by {
                assert(views_of(out@)[k] == views_of(opre2)[k]);
            }
            assert forall|k: int| 0 <= k < self.files@.len() implies (#[trigger] views_of(
                out@,
            )[k]).len() >= file_header_prefix(self.files@[k].0).len() && views_of(
                out@,
            )[k].subrange(0, file_header_prefix(self.files@[k].0).len() as int)
                == file_header_prefix(self.files@[k].0) by {
                assert(views_of(out@)[k] == views_of(opre2)[k]);
            }
        }
        out
    }

    /// Renders the patch as HTML: the terminal form with control markers
    /// rewritten into tags, raw angle brackets escaped first, each block
    /// wrapped in a patch container. Never double-escapes: brackets are
    /// escaped before any tag is introduced.
    pub fn render_html(&self) -> (r: Vec<String>)
        ensures
            r@.len() == self.files@.len() + 1,
            forall|k: int|
                0 <= k < self.files@.len() ==> #[trigger] views_of(r@)[k]
                    == "<pre class=\"lily:patch\">"@ + html_of(
                    file_block_spec(self.files@[k].0, self.files@[k].1),
                ) + "</pre>"@,
            patch_totals(self.files@).0 <= usize::MAX ==> views_of(r@).last()
                == "<pre class=\"lily:patch\">"@ + html_of(
                totals_line(
                    patch_totals(self.files@).0,
                    patch_totals(self.files@).1,
                    patch_totals(self.files@).2,
                ),
            ) + "</pre>"@,
            forall|k: int|
                0 <= k < r@.len() ==> (#[trigger] views_of(r@)[k]).len()
                    >= "<pre class=\"lily:patch\">"@.len() && views_of(r@)[k].subrange(
                    0,
                    "<pre class=\"lily:patch\">"@.len() as int,
                ) == "<pre class=\"lily:patch\">"@,
    {
        let blocks = self.render();
        let n = blocks.len();
        let mut out: Vec<String> = Vec::new();
        let mut i: usize = 0;
        while i < n
            invariant
                i <= n,
                n == blocks@.len(),
                n == self.files@.len() + 1,
                out@.len() == i,
                forall|k: int|
                    0 <= k < i ==> #[trigger] views_of(out@)[k]
                        == "<pre class=\"lily:patch\">"@ + html_of(views_of(blocks@)[k])
                        + "</pre>"@,
                forall|k: int|
                    0 <= k < self.files@.len() ==> #[trigger] views_of(blocks@)[k]
                        == file_block_spec(self.files@[k].0, self.files@[k].1),
                patch_totals(self.files@).0 <= usize::MAX ==> views_of(blocks@).last()
                    == totals_line(
                    patch_totals(self.files@).0,
                    patch_totals(self.files@).1,
                    patch_totals(self.files@).2,
                ),
                forall|k: int|
                    0 <= k < i ==> (#[trigger] views_of(out@)[k]).len()
                        >= "<pre class=\"lily:patch\">"@.len() && views_of(out@)[k].subrange(
                        0,
                        "<pre class=\"lily:patch\">"@.len() as int,
                    ) == "<pre class=\"lily:patch\">"@,
            decreases n - i,
        {
            let html = to_html(blocks[i].as_str());
            let mut wrapped = String::from_str("<pre class=\"lily:patch\">");
            let ghost hdr = wrapped@;
            wrapped.append(html.as_str());
            wrapped.append("</pre>");
            proof {
                assert(wrapped@ =~= "<pre class=\"lily:patch\">"@ + html_of(
                    views_of(blocks@)[i as int],
                ) + "</pre>"@);
            }
            let ghost opre = out@;
            let ghost wrappedg = wrapped@;
            out.push(wrapped);
            proof {
                assert forall|k: int| 0 <= k < i + 1 implies #[trigger] views_of(out@)[k]
                    == "<pre class=\"lily:patch\">"@ + html_of(views_of(blocks@)[k])
                    + "</pre>"@ by {
                    if k < i {
                        assert(views_of(out@)[k] == views_of(opre)[k]);
                    } else {
                        assert(views_of(out@)[k] == wrappedg);
                    }
                }
                assert forall|k: int| 0 <= k < i + 1 implies (#[trigger] views_of(out@)[k]).len()
                    >= "<pre class=\"lily:patch\">"@.len() && views_of(out@)[k].subrange(
                    0,
                    "<pre class=\"lily:patch\">"@.len() as int,
                ) == "<pre class=\"lily:patch\">"@ by {
                    if k < i {
                        assert(views_of(out@)[k] == views_of(opre)[k]);
                    } else {
                        assert(views_of(out@)[k].subrange(0, hdr.len() as int) =~= hdr);
                    }
                }
            }
            i += 1;
        }
        out
    }
}

/// Whether any change deletes old line `i`.
pub open spec fn has_deletion(cs: Seq<Change>, i: int) -> bool {
    exists|k: int|
        0 <= k < cs.len() && (#[trigger] cs[k]).1 == ChangeMode::Deleted && cs[k].0 == i
}

/// One base row of a file's body: line number, markers, the old line,
/// marked deleted where a deletion targets it.
pub open spec fn base_row(i: int, line: Seq<char>, deleted: bool) -> Seq<char> {
    "\u{1b}[94m\u{0098}"@ + dec_str(i + 1) + "\u{009C} @@\u{1b}[0m "@ + (if deleted {
        "\u{1b}[91m- \u{0002}"@
    } else {
        "\u{1b}[2m\u{2022} \u{0002}"@
    }) + line + "\u{0003}"@
}

/// The base rows: one per old line, in order.
pub open spec fn base_rows(cs: Seq<Change>, lines: Seq<Seq<char>>) -> Seq<Seq<char>> {
    Seq::new(lines.len(), |i: int| base_row(i, lines[i], has_deletion(cs, i)))
}

/// An addition's row, numbered one past its anchor (saturating).
pub open spec fn add_row(pos: int, text: Seq<char>) -> Seq<char> {
    "\u{1b}[94m\u{0098}"@ + dec_str(
        if pos >= usize::MAX {
            usize::MAX as int
        } else {
            pos + 1
        },
    ) + "\u{009C} @@\u{1b}[0m \u{1b}[92m+ \u{0002}"@ + text + "\u{0003}"@
}

/// Where one change lands among the rows: an addition goes directly
/// after its anchor position, or at the end past it; deletions add no
/// row of their own.
pub open spec fn place_change(rows: Seq<Seq<char>>, c: Change) -> Seq<Seq<char>> {
    match c.1 {
        ChangeMode::Added => {
            if c.0 >= rows.len() {
                rows.push(add_row(c.0 as int, c.2@))
            } else {
                rows.insert(c.0 + 1, add_row(c.0 as int, c.2@))
            }
        },
        ChangeMode::Deleted => rows,
    }
}

/// All changes placed, in stored order.
pub open spec fn place_changes(rows: Seq<Seq<char>>, cs: Seq<Change>) -> Seq<Seq<char>>
    decreases cs.len(),
{
    if cs.len() == 0 {
        rows
    } else {
        place_changes(place_change(rows, cs[0]), cs.drop_first())
    }
}

/// The rows joined, each on its own line.
pub open spec fn rows_text(rows: Seq<Seq<char>>) -> Seq<char>
    decreases rows.len(),
{
    if rows.len() == 0 {
        Seq::<char>::empty()
    } else {
        rows_text(rows.drop_last()) + rows.last() + "\n"@
    }
}

/// The whole body of one file's block.
pub open spec fn body_spec(pf: crate::patch::PatchFile) -> Seq<char> {
    rows_text(place_changes(base_rows(pf.1@, text_lines(pf.0@)), pf.1@))
}

/// One whole file block: header, separator, body, footer with the
/// file's own summary.
pub open spec fn file_block_spec(path: Seq<char>, pf: crate::patch::PatchFile) -> Seq<char> {
    file_header_prefix(path) + char_run('=', sep_len(path.len() as int)) + "\n\u{1b}[0m\u{0096}"@
        + body_spec(pf) + "\u{1b}[0m\u{0097}\n\u{1b}[1m"@ + char_run(
        '=',
        sep_len(path.len() as int),
    ) + "\u{1b}[0m\n"@ + totals_line(pf.1@.len() as int, count_added(pf.1@), count_deleted(pf.1@))
}

/// The separator run length: one more than the path, saturating.
pub open spec fn sep_len(n: int) -> int {
    if n >= usize::MAX {
        usize::MAX as int
    } else {
        n + 1
    }
}

/// The terminal body of one file's changes.
fn render_body(pf: &crate::patch::PatchFile) -> (r: String)
    ensures
        r@ == body_spec(*pf),
{
    let lines = split_string(pf.0.as_str());
    let ghost base = base_rows(pf.1@, text_lines(pf.0@));
    let mut rows: Vec<String> = Vec::new();
    let nl = lines.len();
    let mut i: usize = 0;
    while i < nl
        invariant
            i <= nl,
            nl == lines@.len(),
            views_of(lines@) == text_lines(pf.0@),
            base == base_rows(pf.1@, text_lines(pf.0@)),
            base.len() == nl,
            views_of(rows@) =~= base.subrange(0, i as int),
        decreases nl - i,
    {
        let deleted = find_deletion(&pf.1, i);
        let mut row = String::from_str("\u{1b}[94m\u{0098}");
        row.append(usize_to_string(i + 1).as_str());
        row.append("\u{009C} @@\u{1b}[0m ");
        if deleted {
            row.append("\u{1b}[91m- \u{0002}");
        } else {
            row.append("\u{1b}[2m\u{2022} \u{0002}");
        }
        row.append(lines[i].as_str());
        row.append("\u{0003}");
        proof {
            assert(row@ =~= base_row(i as int, views_of(lines@)[i as int], deleted));
            assert(base[i as int] == base_row(
                i as int,
                text_lines(pf.0@)[i as int],
                has_deletion(pf.1@, i as int),
            ));
        }
        let ghost rowsv = views_of(rows@);
        let ghost rowg = row@;
        rows.push(row);
        proof {
            assert(views_of(rows@) =~= rowsv.push(rowg));
            assert(views_of(rows@) =~= base.subrange(0, i + 1 as int));
        }
        i += 1;
    }
    proof {
        assert(base.subrange(0, nl as int) =~= base);
    }
    // Additions land directly after their anchor position.
    let nc = pf.1.len();
    let mut c: usize = 0;
    proof {
        assert(pf.1@.skip(0) =~= pf.1@);
    }
    while c < nc
        invariant
            c <= nc,
            nc == pf.1@.len(),
            base == base_rows(pf.1@, text_lines(pf.0@)),
            place_changes(base, pf.1@) == place_changes(views_of(rows@), pf.1@.skip(c as int)),
        decreases nc - c,
    {
        proof {
            let rest = pf.1@.skip(c as int);
            assert(rest[0] == pf.1@[c as int]);
            assert(rest.drop_first() =~= pf.1@.skip(c + 1 as int));
        }
        let pos = pf.1[c].0;
        let is_add = match pf.1[c].1 {
            ChangeMode::Added => true,
            ChangeMode::Deleted => false,
        };
        if is_add {
            let shown = if pos == usize::MAX {
                pos
            } else {
                pos + 1
            };
            let mut row = String::from_str("\u{1b}[94m\u{0098}");
            row.append(usize_to_string(shown).as_str());
            row.append("\u{009C} @@\u{1b}[0m \u{1b}[92m+ \u{0002}");
            row.append(pf.1[c].2.as_str());
            row.append("\u{0003}");
            proof {
                assert(row@ =~= add_row(pos as int, pf.1@[c as int].2@));
            }
            let ghost rpre = views_of(rows@);
            if pos >= rows.len() {
                rows.push(row);
                proof {
                    assert(views_of(rows@) =~= place_change(rpre, pf.1@[c as int]));
                }
            } else {
                rows.insert(pos + 1, row);
                proof {
                    assert(views_of(rows@) =~= place_change(rpre, pf.1@[c as int]));
                }
            }
        } else {
            proof {
                assert(views_of(rows@) == place_change(views_of(rows@), pf.1@[c as int]));
            }
        }
        c += 1;
    }
    proof {
        assert(pf.1@.skip(nc as int).len() == 0);
        assert(views_of(rows@) == place_changes(base, pf.1@));
    }
    let mut body = String::new();
    let nr = rows.len();
    let mut t: usize = 0;
    while t < nr
        invariant
            t <= nr,
            nr == rows@.len(),
            views_of(rows@) == place_changes(base, pf.1@),
            base == base_rows(pf.1@, text_lines(pf.0@)),
            body@ == rows_text(views_of(rows@).subrange(0, t as int)),
        decreases nr - t,
    {
        proof {
            let pre = views_of(rows@).subrange(0, t as int);
            assert(views_of(rows@).subrange(0, t + 1 as int) =~= pre.push(
                views_of(rows@)[t as int],
            ));
            assert(pre.push(views_of(rows@)[t as int]).drop_last() =~= pre);
        }
        body.append(rows[t].as_str());
        body.append("\n");
        proof {
            assert(body@ =~= rows_text(views_of(rows@).subrange(0, t + 1 as int)));
        }
        t += 1;
    }
    proof {
        assert(views_of(rows@).subrange(0, nr as int) =~= views_of(rows@));
    }
    body
}

/// Decides whether any change deletes old line `i`.
fn find_deletion(cs: &Vec<Change>, i: usize) -> (r: bool)
    ensures
        r == has_deletion(cs@, i as int),
{
    let n = cs.len();
    let mut k: usize = 0;
    while k < n
        invariant
            k <= n,
            n == cs@.len(),
            forall|j: int|
                0 <= j < k ==> !((#[trigger] cs@[j]).1 == ChangeMode::Deleted && cs@[j].0
                    == i),
        decreases n - k,
    {
        let is_del = match cs[k].1 {
            ChangeMode::Deleted => true,
            ChangeMode::Added => false,
        };
        if is_del && cs[k].0 == i {
            return true;
        }
        k += 1;
    }
    proof {
        if has_deletion(cs@, i as int) {
            let j = choose|j: int|
                0 <= j < cs@.len() && (#[trigger] cs@[j]).1 == ChangeMode::Deleted && cs@[j].0
                    == i as int;
            assert(false);
        }
    }
    false
}

/// The HTML form of one rendered block: raw angle brackets escaped
/// first, so no later tag is touched, then each control marker turned
/// into its tag, in the fixed rewriting order.
pub open spec fn html_of(s: Seq<char>) -> Seq<char> {
    let e1 = replace_spec(s, ">"@, "&gt;"@);
    let e2 = replace_spec(e1, "<"@, "&lt;"@);
    let m1 = replace_spec(e2, "\u{1b}[0m"@, "</span>"@);
    let m2 = replace_spec(
        m1,
        "\u{1b}[1m"@,
        "<span style=\"font-weight: bold\" class=\"lily:1m\" role=\"bold\">"@,
    );
    let m3 = replace_spec(
        m2,
        "\u{1b}[2m"@,
        "<span style=\"opacity: 75%\" class=\"lily:2m\" role=\"fade\">"@,
    );
    let m4 = replace_spec(
        m3,
        "\u{1b}[94m"@,
        "<span style=\"color: blue\" class=\"lily:94m\" role=\"extra\">"@,
    );
    let m5 = replace_spec(
        m4,
        "\u{1b}[92m"@,
        "<span style=\"color: green\" class=\"lily:92m\" role=\"addition\">"@,
    );
    let m6 = replace_spec(
        m5,
        "\u{1b}[91m"@,
        "<span style=\"color: red\" class=\"lily:91m\" role=\"deletion\">"@,
    );
    let m7 = replace_spec(m6, "\u{0002}"@, "<code class=\"lily:u0002\" role=\"line\">"@);
    let m8 = replace_spec(m7, "\u{0003}"@, "</code><!-- lily:u0003 -->"@);
    let m9 = replace_spec(
        m8,
        "\u{0098}"@,
        "<code class=\"lily:u0098\" role=\"line-number\">"@,
    );
    let m10 = replace_spec(m9, "\u{009C}"@, "</code><!-- lily:u009C -->"@);
    let m11 = replace_spec(
        m10,
        "\u{0096}"@,
        "<pre class=\"lily:u0096\" role=\"source-display\" style=\"max-width: 100%; overflow-x: auto\">"@,
    );
    replace_spec(m11, "\u{0097}"@, "</pre><!-- lily:0097 -->"@)
}

/// Rewrites one rendered block into HTML: escapes raw angle brackets,
/// then turns each control marker into its tag.
fn to_html(s: &str) -> (r: String)
    ensures
        r@ == html_of(s@),
{
    proof {
        reveal_strlit("<");
        reveal_strlit(">");
        reveal_strlit("\u{1b}[0m");
        reveal_strlit("\u{1b}[1m");
        reveal_strlit("\u{1b}[2m");
        reveal_strlit("\u{1b}[94m");
        reveal_strlit("\u{1b}[92m");
        reveal_strlit("\u{1b}[91m");
        reveal_strlit("\u{0002}");
        reveal_strlit("\u{0003}");
        reveal_strlit("\u{0098}");
        reveal_strlit("\u{009C}");
        reveal_strlit("\u{0096}");
        reveal_strlit("\u{0097}");
    }
    let mut out = replace(s, ">", "&gt;");
    out = replace(out.as_str(), "<", "&lt;");
    out = replace(out.as_str(), "\u{1b}[0m", "</span>");
    out = replace(
        out.as_str(),
        "\u{1b}[1m",
        "<span style=\"font-weight: bold\" class=\"lily:1m\" role=\"bold\">",
    );
    out = replace(
        out.as_str(),
        "\u{1b}[2m",
        "<span style=\"opacity: 75%\" class=\"lily:2m\" role=\"fade\">",
    );
    out = replace(
        out.as_str(),
        "\u{1b}[94m",
        "<span style=\"color: blue\" class=\"lily:94m\" role=\"extra\">",
    );
    out = replace(
        out.as_str(),
        "\u{1b}[92m",
        "<span style=\"color: green\" class=\"lily:92m\" role=\"addition\">",
    );
    out = replace(
        out.as_str(),
        "\u{1b}[91m",
        "<span style=\"color: red\" class=\"lily:91m\" role=\"deletion\">",
    );
    out = replace(out.as_str(), "\u{0002}", "<code class=\"lily:u0002\" role=\"line\">");
    out = replace(out.as_str(), "\u{0003}", "</code><!-- lily:u0003 -->");
    out = replace(
        out.as_str(),
        "\u{0098}",
        "<code class=\"lily:u0098\" role=\"line-number\">",
    );
    out = replace(out.as_str(), "\u{009C}", "</code><!-- lily:u009C -->");
    out = replace(
        out.as_str(),
        "\u{0096}",
        "<pre class=\"lily:u0096\" role=\"source-display\" style=\"max-width: 100%; overflow-x: auto\">",
    );
    out = replace(out.as_str(), "\u{0097}", "</pre><!-- lily:0097 -->");
    out
}

/// The header of a commit's page: its metadata, field by field.
pub open spec fn commit_header_spec(
    id: Seq<char>,
    branch: Seq<char>,
    ts: int,
    author: Seq<char>,
    message: Seq<char>,
) -> Seq<char> {
    "<header><h3>"@ + id
        + "</h3><span class=\"lily:commit_status_line\"><a href=\"../index.html\">&lt; Back</a> \u{2022} <span class=\"lily:commit_branch\">"@
        + branch + "</span> \u{2022} <span class=\"lily:commit_author\">"@ + author
        + "</span> \u{2022} <span class=\"lily:timestamp\">"@ + dec_str(ts)
        + "</span></span><hr /><p class=\"lily:commit_message\">"@ + message
        + "</p><hr /></header>"@
}

/// The wrapped HTML blocks of a patch's files, in file order.
pub open spec fn patch_html_blocks(
    files: Seq<(Seq<char>, crate::patch::PatchFile)>,
) -> Seq<char>
    decreases files.len(),
{
    if files.len() == 0 {
        Seq::<char>::empty()
    } else {
        patch_html_blocks(files.drop_last()) + ("<pre class=\"lily:patch\">"@ + html_of(
            file_block_spec(files.last().0, files.last().1),
        ) + "</pre>"@)
    }
}

/// A patch's whole HTML: the file blocks, then the wrapped totals block.
pub open spec fn patch_html_spec(p: Patch) -> Seq<char> {
    patch_html_blocks(p.files@) + ("<pre class=\"lily:patch\">"@ + html_of(
        totals_line(
            patch_totals(p.files@).0,
            patch_totals(p.files@).1,
            patch_totals(p.files@).2,
        ),
    ) + "</pre>"@)
}

impl crate::garden::Commit {
    /// Renders the commit as one HTML page: a header carrying its
    /// metadata, then the patch's HTML blocks, exactly.
    pub fn render(&self) -> (r: String)
        ensures
            r@.len() >= "<header><h3>"@.len() + self.id@.len(),
            r@.subrange(0, "<header><h3>"@.len() + self.id@.len() as int) == "<header><h3>"@
                + self.id@,
            patch_totals(self.content.files@).0 <= usize::MAX ==> r@ == commit_header_spec(
                self.id@,
                self.branch@,
                self.timestamp as int,
                self.author@,
                self.message@,
            ) + patch_html_spec(self.content),
    {
        let mut out = String::from_str("<header><h3>");
        out.append(self.id.as_str());
        let ghost hdr = out@;
        out.append(
            "</h3><span class=\"lily:commit_status_line\"><a href=\"../index.html\">&lt; Back</a> \u{2022} <span class=\"lily:commit_branch\">",
        );
        out.append(self.branch.as_str());
        out.append("</span> \u{2022} <span class=\"lily:commit_author\">");
        out.append(self.author.as_str());
        out.append("</span> \u{2022} <span class=\"lily:timestamp\">");
        out.append(crate::text::u128_to_string(self.timestamp).as_str());
        out.append("</span></span><hr /><p class=\"lily:commit_message\">");
        out.append(self.message.as_str());
        out.append("</p><hr /></header>");
        let ghost hdr_full = out@;
        proof {
            assert(hdr_full =~= commit_header_spec(
                self.id@,
                self.branch@,
                self.timestamp as int,
                self.author@,
                self.message@,
            ));
        }
        let blocks = self.content.render_html();
        let nf = self.content.files.len();
        let n = blocks.len();
        let mut i: usize = 0;
        proof {
            assert(patch_html_blocks(self.content.files@.subrange(0, 0)) =~= Seq::<
                char,
            >::empty());
            assert(out@ =~= hdr_full + patch_html_blocks(self.content.files@.subrange(0, 0)));
        }
        while i < n
            invariant
                i <= n,
                n == blocks@.len(),
                nf == self.content.files@.len(),
                n == nf + 1,
                out@.len() >= hdr.len(),
                out@.subrange(0, hdr.len() as int) == hdr,
                hdr == "<header><h3>"@ + self.id@,
                forall|k: int|
                    0 <= k < nf ==> #[trigger] views_of(blocks@)[k]
                        == "<pre class=\"lily:patch\">"@ + html_of(
                        file_block_spec(
                            self.content.files@[k].0,
                            self.content.files@[k].1,
                        ),
                    ) + "</pre>"@,
                patch_totals(self.content.files@).0 <= usize::MAX ==> views_of(blocks@).last()
                    == "<pre class=\"lily:patch\">"@ + html_of(
                    totals_line(
                        patch_totals(self.content.files@).0,
                        patch_totals(self.content.files@).1,
                        patch_totals(self.content.files@).2,
                    ),
                ) + "</pre>"@,
                i <= nf ==> out@ == hdr_full + patch_html_blocks(
                    self.content.files@.subrange(0, i as int),
                ),
                i == nf + 1 ==> (patch_totals(self.content.files@).0 <= usize::MAX ==> out@
                    == hdr_full + patch_html_spec(self.content)),
                hdr_full == commit_header_spec(
                    self.id@,
                    self.branch@,
                    self.timestamp as int,
                    self.author@,
                    self.message@,
                ),
            decreases n - i,
        {
            let ghost before = out@;
            out.append(blocks[i].as_str());
            proof {
                assert(out@.subrange(0, hdr.len() as int) =~= before.subrange(
                    0,
                    hdr.len() as int,
                ));
                if i < nf {
                    let pre = self.content.files@.subrange(0, i as int);
                    let stepped = self.content.files@.subrange(0, i + 1 as int);
                    assert(stepped =~= pre.push(self.content.files@[i as int]));
                    assert(pre.push(self.content.files@[i as int]).drop_last() =~= pre);
                    assert(patch_html_blocks(stepped) == patch_html_blocks(pre) + (
                    "<pre class=\"lily:patch\">"@ + html_of(
                        file_block_spec(
                            self.content.files@[i as int].0,
                            self.content.files@[i as int].1,
                        ),
                    ) + "</pre>"@));
                    assert(views_of(blocks@)[i as int] == blocks@[i as int]@);
                    assert(out@ =~= hdr_full + patch_html_blocks(stepped));
                } else {
                    assert(self.content.files@.subrange(0, nf as int)
                        =~= self.content.files@);
                    if patch_totals(self.content.files@).0 <= usize::MAX {
                        assert(views_of(blocks@)[i as int] == views_of(blocks@).last());
                        assert(out@ =~= hdr_full + patch_html_spec(self.content));
                    }
                }
            }
            i += 1;
        }
        proof {
            if patch_totals(self.content.files@).0 <= usize::MAX {
                assert(out@ == hdr_full + patch_html_spec(self.content));
            }
        }
        out
    }
}

// ------------------------------------------------------------------
// Static site export
// ------------------------------------------------------------------

/// The short form of a commit id: its first ten characters.
pub open spec fn short_of(id: Seq<char>) -> Seq<char> {
    if id.len() <= 10 {
        id
    } else {
        id.subrange(0, 10)
    }
}

/// The site key of a commit's page.
pub open spec fn commit_page_key(id: Seq<char>) -> Seq<char> {
    "commits/"@ + id + "/index.html"@
}

/// The site key of a commit's file-tree page.
pub open spec fn commit_tree_key(id: Seq<char>) -> Seq<char> {
    "commits/"@ + id + "/tree.html"@
}

/// One row of the commits index, for one commit's content.
pub open spec fn commit_index_row(cv: crate::codec::CommitV) -> Seq<char> {
    "<tr class=\"lily:commit_listing\" role=\"commit\"><td><a href=\""@ + cv.0
        + "/index.html\">"@ + short_of(cv.0) + "</a> (<a href=\""@ + cv.0
        + "/tree.html\">tree</a>)</td><td>"@ + cv.1 + "</td><td>"@ + cv.3
        + "</td><td class=\"lily:timestamp\">"@ + dec_str(cv.2) + "</td></tr>"@
}

/// The rows of the commits index, in listing order.
pub open spec fn commit_index_rows(ords: Seq<crate::codec::CommitV>) -> Seq<char>
    decreases ords.len(),
{
    if ords.len() == 0 {
        Seq::<char>::empty()
    } else {
        commit_index_rows(ords.drop_last()) + commit_index_row(ords.last())
    }
}

/// The whole commits index page for a listing.
pub open spec fn commit_index_page(ords: Seq<crate::codec::CommitV>) -> Seq<char> {
    "<table><thead><tr><th>ID</th><th>Branch</th><th>Author</th><th>Timestamp</th></tr></thead><tbody>"@
        + commit_index_rows(ords) + "</tbody></table>"@
}

/// Newest first, by each row's timestamp.
pub open spec fn desc_sorted(ords: Seq<crate::codec::CommitV>) -> bool {
    forall|i: int, j: int| 0 <= i < j < ords.len() ==> (#[trigger] ords[i]).2 >= (
    #[trigger] ords[j]).2
}

/// A line's HTML-escaped form: angle brackets to entities, `<` first so
/// nothing is double-escaped.
pub open spec fn escape_line(l: Seq<char>) -> Seq<char> {
    replace_spec(replace_spec(l, "<"@, "&lt;"@), ">"@, "&gt;"@)
}

/// One numbered entry of a source page's line-number column.
pub open spec fn line_num_row(i: int) -> Seq<char> {
    "<span style=\"color: blue\" class=\"lily:94m\" role=\"extra\"><code class=\"lily:u0098\" id=\"ln-"@
        + dec_str(i + 1) + "\">"@ + dec_str(i + 1) + "</code></span>\n"@
}

/// The line-number column for `n` lines.
pub open spec fn line_num_rows(n: int) -> Seq<char>
    decreases n,
{
    if n <= 0 {
        Seq::<char>::empty()
    } else {
        line_num_rows(n - 1) + line_num_row(n - 1)
    }
}

/// The escaped lines of a source page, each on its own line.
pub open spec fn escaped_lines(ls: Seq<Seq<char>>) -> Seq<char>
    decreases ls.len(),
{
    if ls.len() == 0 {
        Seq::<char>::empty()
    } else {
        escaped_lines(ls.drop_last()) + escape_line(ls.last()) + "\n"@
    }
}

/// A whole source page: header with the path, commit id and branch, then
/// the line-number column beside the escaped, line-numbered text.
pub open spec fn file_page_spec(
    id: Seq<char>,
    branch: Seq<char>,
    path: Seq<char>,
    content: Seq<char>,
) -> Seq<char> {
    "<header><h3>"@ + path
        + "</h3><span class=\"lily:file_status_line\"><span class=\"lily:file_index_link\"><a href=\"../tree.html\">&lt; Back</a></span> \u{2022} <span class=\"lily:file_commit\"><a href=\"../tree.html\">"@
        + id + "</a></span> \u{2022} <span class=\"lily:file_branch\">"@ + branch
        + "</span><hr /></header>"@
        + "<article style=\"display: flex; gap: 0.5rem\"><pre role=\"line-numbers\" class=\"lily:file_line_numbers\">"@
        + line_num_rows(text_lines(content).len() as int)
        + "</pre><pre role=\"source-display\" class=\"lily:file_lines\" style=\"width: 100%; overflow-x: auto\">"@
        + escaped_lines(text_lines(content))
        + "</pre></article>"@
}

/// A file's name as it appears in site paths: separators become `>`.
pub open spec fn escaped_name(path: Seq<char>) -> Seq<char> {
    replace_spec(path, "/"@, ">"@)
}

/// The site key of one commit's source page for one file.
pub open spec fn file_page_key(id: Seq<char>, path: Seq<char>) -> Seq<char> {
    "commits/"@ + id + "/tree/"@ + escaped_name(path) + ".html"@
}

/// One row of a commit's file-tree page.
pub open spec fn tree_row(path: Seq<char>, short: Seq<char>, branch: Seq<char>) -> Seq<char> {
    "<tr class=\"lily:file_listing\" role=\"file\"><td><a href=\"tree/"@ + escaped_name(path)
        + ".html\">"@ + path + "</a></td><td>"@ + short + "</td><td>"@ + branch + "</td></tr>"@
}

/// The rows of a commit's file-tree page: one per snapshot file, in
/// snapshot order.
pub open spec fn tree_rows(
    snap: Seq<(Seq<char>, Seq<char>)>,
    short: Seq<char>,
    branch: Seq<char>,
) -> Seq<char>
    decreases snap.len(),
{
    if snap.len() == 0 {
        Seq::<char>::empty()
    } else {
        tree_rows(snap.drop_last(), short, branch) + tree_row(snap.last().0, short, branch)
    }
}

/// A whole file-tree page: the back link and table, one row per file of
/// the commit's snapshot.
pub open spec fn tree_page_spec(
    snap: Seq<(Seq<char>, Seq<char>)>,
    short: Seq<char>,
    branch: Seq<char>,
) -> Seq<char> {
    "<a href=\"index.html\">&lt; Back</a><table><thead><tr><th>Path</th><th>Commit</th><th>Branch</th></tr></thead><tbody>"@
        + tree_rows(snap, short, branch) + "</tbody></table>"@
}

/// The snapshot a commit's page tree is rendered from: the commit's pack
/// object, the blank pack standing in for a missing object, an empty
/// snapshot for anything unreadable.
pub open spec fn commit_snapshot_spec(
    objects: Seq<(Seq<char>, Vec<u8>)>,
    id: Seq<char>,
) -> Seq<(Seq<char>, Seq<char>)> {
    match crate::smap::map_get(objects, id) {
        Option::Some(b) => match crate::garden::pack_snapshot(b@) {
            Option::Some(m) => m,
            Option::None => Seq::<(Seq<char>, Seq<char>)>::empty(),
        },
        Option::None => match crate::smap::map_get(objects, "blank"@) {
            Option::Some(b) => match crate::garden::pack_snapshot(b@) {
                Option::Some(m) => m,
                Option::None => Seq::<(Seq<char>, Seq<char>)>::empty(),
            },
            Option::None => Seq::<(Seq<char>, Seq<char>)>::empty(),
        },
    }
}

/// A commit id in the shape the engine generates: 64 lowercase
/// hexadecimal digits.
pub open spec fn id_shaped(id: Seq<char>) -> bool {
    id.len() == 64 && forall|i: int|
        0 <= i < id.len() ==> crate::util::is_lower_hex(#[trigger] id[i])
}

/// Within one snapshot, no two files share an escaped name.
pub open spec fn snapshot_names_distinct(snap: Seq<(Seq<char>, Seq<char>)>) -> bool {
    forall|f1: int, f2: int|
        0 <= f1 < f2 < snap.len() ==> escaped_name((#[trigger] snap[f1]).0) != escaped_name(
            (#[trigger] snap[f2]).0,
        )
}

/// When the site's page keys cannot collide: every listed id has the
/// generated shape, ids are pairwise distinct, and no snapshot holds two
/// files with one escaped name.
pub open spec fn site_keys_unambiguous(
    ord: Seq<crate::codec::CommitV>,
    objects: Seq<(Seq<char>, Vec<u8>)>,
) -> bool {
    &&& forall|k: int| 0 <= k < ord.len() ==> id_shaped((#[trigger] ord[k]).0)
    &&& forall|k1: int, k2: int|
        0 <= k1 < k2 < ord.len() ==> (#[trigger] ord[k1]).0 != (#[trigger] ord[k2]).0
    &&& forall|k: int|
        0 <= k < ord.len() ==> snapshot_names_distinct(
            commit_snapshot_spec(objects, (#[trigger] ord[k]).0),
        )
}

/// Keys that open with the listing prefix and a 64-character id agree
/// only on the same id and the same tail.
proof fn lemma_key_split(a: Seq<char>, sa: Seq<char>, b: Seq<char>, sb: Seq<char>)
    requires
        a.len() == 64,
        b.len() == 64,
        "commits/"@ + a + sa == "commits/"@ + b + sb,
    ensures
        a == b,
        sa == sb,
{
    let l = "commits/"@;
    assert((l + a + sa).len() == (l + b + sb).len());
    assert forall|i: int| 0 <= i < 64 implies a[i] == b[i] by {
        assert((l + a + sa)[l.len() + i] == a[i]);
        assert((l + b + sb)[l.len() + i] == b[i]);
    }
    assert(a =~= b);
    assert forall|i: int| 0 <= i < sa.len() implies sa[i] == sb[i] by {
        assert((l + a + sa)[l.len() + 64 + i] == sa[i]);
        assert((l + b + sb)[l.len() + 64 + i] == sb[i]);
    }
    assert(sa =~= sb);
}

/// The page, tree-page and source-page keys of shaped ids collide only
/// for the same id, the same shape, and — for source pages — the same
/// escaped name; the index key collides with none of them.
proof fn lemma_site_keys(id1: Seq<char>, p1: Seq<char>, id2: Seq<char>, p2: Seq<char>)
    requires
        id1.len() == 64,
        id2.len() == 64,
    ensures
        commit_page_key(id1) != commit_tree_key(id2),
        commit_page_key(id1) != file_page_key(id2, p2),
        commit_tree_key(id1) != file_page_key(id2, p2),
        id1 != id2 ==> commit_page_key(id1) != commit_page_key(id2),
        id1 != id2 ==> commit_tree_key(id1) != commit_tree_key(id2),
        (id1 != id2 || escaped_name(p1) != escaped_name(p2)) ==> file_page_key(id1, p1)
            != file_page_key(id2, p2),
        "commits/index.html"@ != commit_page_key(id2),
        "commits/index.html"@ != commit_tree_key(id2),
        "commits/index.html"@ != file_page_key(id2, p2),
{
    reveal_strlit("commits/");
    reveal_strlit("commits/index.html");
    reveal_strlit("/index.html");
    reveal_strlit("/tree.html");
    reveal_strlit("/tree/");
    reveal_strlit(".html");
    let l = "commits/"@;
    let f1 = "/tree/"@ + escaped_name(p1) + ".html"@;
    let f2 = "/tree/"@ + escaped_name(p2) + ".html"@;
    assert(file_page_key(id1, p1) =~= l + id1 + f1);
    assert(file_page_key(id2, p2) =~= l + id2 + f2);
    if commit_page_key(id1) == commit_tree_key(id2) {
        lemma_key_split(id1, "/index.html"@, id2, "/tree.html"@);
        assert(("/index.html"@).len() == ("/tree.html"@).len());
        assert(false);
    }
    if commit_page_key(id1) == file_page_key(id2, p2) {
        lemma_key_split(id1, "/index.html"@, id2, f2);
        assert(("/index.html"@)[1] == f2[1]);
        assert(f2[1] == ("/tree/"@)[1]);
        assert(false);
    }
    if commit_tree_key(id1) == file_page_key(id2, p2) {
        lemma_key_split(id1, "/tree.html"@, id2, f2);
        assert(("/tree.html"@)[5] == f2[5]);
        assert(f2[5] == ("/tree/"@)[5]);
        assert(false);
    }
    if id1 != id2 {
        if commit_page_key(id1) == commit_page_key(id2) {
            lemma_key_split(id1, "/index.html"@, id2, "/index.html"@);
            assert(false);
        }
        if commit_tree_key(id1) == commit_tree_key(id2) {
            lemma_key_split(id1, "/tree.html"@, id2, "/tree.html"@);
            assert(false);
        }
    }
    if file_page_key(id1, p1) == file_page_key(id2, p2) {
        lemma_key_split(id1, f1, id2, f2);
        assert(escaped_name(p1) =~= escaped_name(p2)) by {
            assert(f1.len() == f2.len());
            assert forall|i: int| 0 <= i < escaped_name(p1).len() implies escaped_name(
                p1,
            )[i] == escaped_name(p2)[i] by {
                assert(f1[6 + i] == escaped_name(p1)[i]);
                assert(f2[6 + i] == escaped_name(p2)[i]);
            }
        }
    }
    assert(("commits/index.html"@).len() == 18);
    assert(commit_page_key(id2).len() == 8 + 64 + 11);
    assert(commit_tree_key(id2).len() == 8 + 64 + 10);
    assert(file_page_key(id2, p2).len() >= 8 + 64 + 11);
}

/// Whether the site holds, for the listed commit `cv`, its tree page
/// with one row per snapshot file, one source page per snapshot file,
/// and its own page, all with their exact content.
pub open spec fn commit_pages_pinned(
    site: Seq<(Seq<char>, String)>,
    objects: Seq<(Seq<char>, Vec<u8>)>,
    cv: crate::codec::CommitV,
) -> bool {
    let snap = commit_snapshot_spec(objects, cv.0);
    &&& (crate::smap::map_get(site, commit_tree_key(cv.0)) matches Option::Some(tp) && tp@
        == tree_page_spec(snap, short_of(cv.0), cv.1))
    &&& forall|f: int|
        0 <= f < snap.len() ==> (crate::smap::map_get(
            site,
            file_page_key(cv.0, (#[trigger] snap[f]).0),
        ) matches Option::Some(pg) && pg@ == file_page_spec(cv.0, cv.1, snap[f].0, snap[f].1))
    &&& (crate::smap::map_get(site, commit_page_key(cv.0)) matches Option::Some(cp) && (exists|
        c: crate::garden::Commit,
    |
        #[trigger] crate::garden::csig(c) == cv && (patch_totals(c.content.files@).0
            <= usize::MAX ==> cp@ == commit_header_spec(
            c.id@,
            c.branch@,
            c.timestamp as int,
            c.author@,
            c.message@,
        ) + patch_html_spec(c.content))))
}

/// Storing under a key that is none of a commit's page keys leaves its
/// pinned pages pinned.
proof fn lemma_pages_preserved(
    s0: Seq<(Seq<char>, String)>,
    key: Seq<char>,
    v: String,
    objects: Seq<(Seq<char>, Vec<u8>)>,
    cv: crate::codec::CommitV,
)
    requires
        commit_pages_pinned(s0, objects, cv),
        key != commit_tree_key(cv.0),
        key != commit_page_key(cv.0),
        forall|f: int|
            0 <= f < commit_snapshot_spec(objects, cv.0).len() ==> key != file_page_key(
                cv.0,
                (#[trigger] commit_snapshot_spec(objects, cv.0)[f]).0,
            ),
    ensures
        commit_pages_pinned(crate::smap::map_put(s0, key, v), objects, cv),
{
    let snap = commit_snapshot_spec(objects, cv.0);
    crate::smap::lemma_map_get_put(s0, key, v, commit_tree_key(cv.0));
    crate::smap::lemma_map_get_put(s0, key, v, commit_page_key(cv.0));
    assert forall|f: int| 0 <= f < snap.len() implies (crate::smap::map_get(
        crate::smap::map_put(s0, key, v),
        file_page_key(cv.0, (#[trigger] snap[f]).0),
    ) matches Option::Some(pg) && pg@ == file_page_spec(cv.0, cv.1, snap[f].0, snap[f].1)) by {
        crate::smap::lemma_map_get_put(s0, key, v, file_page_key(cv.0, snap[f].0));
    }
}

impl Garden {
    /// Renders a branch's history as a static site: a commits index
    /// listing the branch's commits newest first; per commit its page, a
    /// file-tree page with one row per snapshot file, and one escaped,
    /// line-numbered source page per snapshot file. The result maps site
    /// paths, relative to the branch's export directory, to their HTML;
    /// it is a pure projection of the store and the objects, and
    /// succeeds exactly when every commit row of the branch decodes.
    /// The per-commit pages are pinned wherever the page keys cannot
    /// collide — generated-shape, pairwise-distinct ids and no two
    /// snapshot files sharing an escaped name; a colliding key would be
    /// overwritten by the later page, as in any file tree.
    #[verifier::rlimit(100)]
    pub fn render(&self, branch: &String) -> (r: Result<SMap<String>, LilyError>)
        ensures
            (r is Ok) == crate::garden::branch_recs_ok(self.commits@, branch@),
            r matches Ok(site) ==> site.wf(),
            r matches Ok(site) ==> (exists|ord: Seq<crate::codec::CommitV>|
                {
                    &&& desc_sorted(ord)
                    &&& ord.to_multiset() == crate::garden::rec_views(
                        crate::garden::recs_of_branch(self.commits@, branch@),
                    ).to_multiset()
                    &&& (crate::smap::map_get(site@, "commits/index.html"@)
                        matches Option::Some(pg) && pg@ == #[trigger] commit_index_page(ord))
                    &&& forall|k: int|
                        0 <= k < ord.len() ==> crate::smap::map_get(
                            site@,
                            commit_page_key((#[trigger] ord[k]).0),
                        ) is Some && crate::smap::map_get(site@, commit_tree_key(ord[k].0))
                            is Some
                    &&& (site_keys_unambiguous(ord, self.objects@) ==> forall|k: int|
                        0 <= k < ord.len() ==> commit_pages_pinned(
                            site@,
                            self.objects@,
                            #[trigger] ord[k],
                        ))
                }),
            r matches Err(e) ==> e == LilyError::ValueError,
    {
        let commits = match self.get_all_commits(branch) {
            Ok(v) => v,
            Err(_) => {
                return Err(LilyError::ValueError);
            },
        };
        let ghost ord = crate::garden::commit_views(commits@);
        let ghost unamb = site_keys_unambiguous(ord, self.objects@);
        let mut site: SMap<String> = SMap::new();
        let mut index = String::from_str(
            "<table><thead><tr><th>ID</th><th>Branch</th><th>Author</th><th>Timestamp</th></tr></thead><tbody>",
        );
        let ghost index_header = index@;
        let n = commits.len();
        let mut i: usize = 0;
        proof {
            assert(index@ =~= index_header + commit_index_rows(ord.subrange(0, 0)));
        }
        while i < n
            invariant
                i <= n,
                n == commits@.len(),
                ord == crate::garden::commit_views(commits@),
                unamb == site_keys_unambiguous(ord, self.objects@),
                ord.len() == n,
                site.wf(),
                index@ == index_header + commit_index_rows(ord.subrange(0, i as int)),
                index_header
                    == "<table><thead><tr><th>ID</th><th>Branch</th><th>Author</th><th>Timestamp</th></tr></thead><tbody>"@,
                forall|k: int|
                    0 <= k < i ==> crate::smap::map_get(
                        site@,
                        commit_page_key((#[trigger] ord[k]).0),
                    ) is Some && crate::smap::map_get(site@, commit_tree_key(ord[k].0))
                        is Some,
                unamb ==> forall|k: int|
                    0 <= k < i ==> commit_pages_pinned(site@, self.objects@, #[trigger] ord[k]),
            decreases n - i,
        {
            proof {
                assert(ord.subrange(0, i + 1 as int) =~= ord.subrange(0, i as int).push(
                    ord[i as int],
                ));
                assert(ord.subrange(0, i as int).push(ord[i as int]).drop_last()
                    =~= ord.subrange(0, i as int));
                assert(ord[i as int] == crate::garden::csig(commits@[i as int]));
            }
            let c = &commits[i];
            let short = c.short();
            index.append("<tr class=\"lily:commit_listing\" role=\"commit\"><td><a href=\"");
            index.append(c.id.as_str());
            index.append("/index.html\">");
            index.append(short.as_str());
            index.append("</a> (<a href=\"");
            index.append(c.id.as_str());
            index.append("/tree.html\">tree</a>)</td><td>");
            index.append(c.branch.as_str());
            index.append("</td><td>");
            index.append(c.author.as_str());
            index.append("</td><td class=\"lily:timestamp\">");
            index.append(crate::text::u128_to_string(c.timestamp).as_str());
            index.append("</td></tr>");
            proof {
                assert(short@ == short_of(ord[i as int].0));
                assert(index@ =~= index_header + commit_index_rows(
                    ord.subrange(0, i + 1 as int),
                ));
            }
            // The commit's own page.
            let mut page_path = String::from_str("commits/");
            page_path.append(c.id.as_str());
            page_path.append("/index.html");
            let ghost page_key = page_path@;
            let ghost s0 = site@;
            let page = c.render();
            let ghost pageg = page;
            site.insert(page_path, page);
            proof {
                assert(page_key == commit_page_key(ord[i as int].0));
                assert forall|q: Seq<char>|
                    crate::smap::map_get(s0, q) is Some || q == page_key implies crate::smap::map_get(
                    site@,
                    q,
                ) is Some by {
                    crate::smap::lemma_map_get_put(s0, page_key, pageg, q);
                }
                crate::smap::lemma_map_get_put(s0, page_key, pageg, page_key);
                assert(crate::garden::csig(commits@[i as int]) == ord[i as int]);
                assert(exists|cc: crate::garden::Commit|
                    #[trigger] crate::garden::csig(cc) == ord[i as int] && (patch_totals(
                        cc.content.files@,
                    ).0 <= usize::MAX ==> pageg@ == commit_header_spec(
                        cc.id@,
                        cc.branch@,
                        cc.timestamp as int,
                        cc.author@,
                        cc.message@,
                    ) + patch_html_spec(cc.content)));
                if unamb {
                    assert forall|k: int| 0 <= k < i implies commit_pages_pinned(
                        site@,
                        self.objects@,
                        #[trigger] ord[k],
                    ) by {
                        assert(ord[k].0 != ord[i as int].0);
                        lemma_site_keys(ord[k].0, Seq::<char>::empty(), ord[i as int].0, Seq::<char>::empty());
                        lemma_site_keys(ord[i as int].0, Seq::<char>::empty(), ord[k].0, Seq::<char>::empty());
                        assert forall|f: int|
                            0 <= f < commit_snapshot_spec(self.objects@, ord[k].0).len()
                            implies page_key != file_page_key(
                            ord[k].0,
                            (#[trigger] commit_snapshot_spec(self.objects@, ord[k].0)[f]).0,
                        ) by {
                            lemma_site_keys(
                                ord[i as int].0,
                                Seq::<char>::empty(),
                                ord[k].0,
                                commit_snapshot_spec(self.objects@, ord[k].0)[f].0,
                            );
                        }
                        lemma_pages_preserved(s0, page_key, pageg, self.objects@, ord[k]);
                    }
                }
            }
            // The commit's snapshot pages.
            let snapshot = self.commit_snapshot(&c.id);
            let ghost snapv = commit_snapshot_spec(self.objects@, ord[i as int].0);
            proof {
                assert(crate::pack::snapshot_entries(snapshot@) == snapv);
            }
            let mut tree_page = String::from_str(
                "<a href=\"index.html\">&lt; Back</a><table><thead><tr><th>Path</th><th>Commit</th><th>Branch</th></tr></thead><tbody>",
            );
            let ghost tree_header = tree_page@;
            let nf = snapshot.len();
            let mut f: usize = 0;
            proof {
                assert(tree_page@ =~= tree_header + tree_rows(
                    snapv.subrange(0, 0),
                    short_of(ord[i as int].0),
                    ord[i as int].1,
                ));
            }
            while f < nf
                invariant
                    f <= nf,
                    nf == snapshot@.len(),
                    nf == snapv.len(),
                    i < n,
                    n == commits@.len(),
                    site.wf(),
                    ord == crate::garden::commit_views(commits@),
                    unamb == site_keys_unambiguous(ord, self.objects@),
                    ord.len() == n,
                    snapv == commit_snapshot_spec(self.objects@, ord[i as int].0),
                    crate::pack::snapshot_entries(snapshot@) == snapv,
                    ord[i as int] == crate::garden::csig(commits@[i as int]),
                    tree_header
                        == "<a href=\"index.html\">&lt; Back</a><table><thead><tr><th>Path</th><th>Commit</th><th>Branch</th></tr></thead><tbody>"@,
                    tree_page@ == tree_header + tree_rows(
                        snapv.subrange(0, f as int),
                        short_of(ord[i as int].0),
                        ord[i as int].1,
                    ),
                    crate::smap::map_get(site@, commit_page_key(ord[i as int].0)) is Some,
                    unamb ==> (crate::smap::map_get(
                        site@,
                        commit_page_key(ord[i as int].0),
                    ) matches Option::Some(cp) && (exists|cc: crate::garden::Commit|
                        #[trigger] crate::garden::csig(cc) == ord[i as int] && (patch_totals(
                            cc.content.files@,
                        ).0 <= usize::MAX ==> cp@ == commit_header_spec(
                            cc.id@,
                            cc.branch@,
                            cc.timestamp as int,
                            cc.author@,
                            cc.message@,
                        ) + patch_html_spec(cc.content)))),
                    unamb ==> forall|f2: int|
                        0 <= f2 < f ==> (crate::smap::map_get(
                            site@,
                            file_page_key(ord[i as int].0, (#[trigger] snapv[f2]).0),
                        ) matches Option::Some(pg) && pg@ == file_page_spec(
                            ord[i as int].0,
                            ord[i as int].1,
                            snapv[f2].0,
                            snapv[f2].1,
                        )),
                    forall|k: int|
                        0 <= k < i ==> crate::smap::map_get(
                            site@,
                            commit_page_key((#[trigger] ord[k]).0),
                        ) is Some && crate::smap::map_get(site@, commit_tree_key(ord[k].0))
                            is Some,
                    unamb ==> forall|k: int|
                        0 <= k < i ==> commit_pages_pinned(
                            site@,
                            self.objects@,
                            #[trigger] ord[k],
                        ),
                decreases nf - f,
            {
                proof {
                    reveal_strlit("/");
                    reveal_strlit(">");
                    assert(snapv[f as int].0 == crate::smap::mkey(snapshot@, f as int));
                    assert(snapv[f as int].1 == snapshot@[f as int].1@);
                    assert(snapv.subrange(0, f + 1 as int) =~= snapv.subrange(0, f as int).push(
                        snapv[f as int],
                    ));
                    assert(snapv.subrange(0, f as int).push(snapv[f as int]).drop_last()
                        =~= snapv.subrange(0, f as int));
                }
                let fname = replace(snapshot.key_at(f).as_str(), "/", ">");
                let mut fpath = String::from_str("commits/");
                fpath.append(commits[i].id.as_str());
                fpath.append("/tree/");
                fpath.append(fname.as_str());
                fpath.append(".html");
                let ghost fkey = fpath@;
                let ghost s1 = site@;
                let fpage = render_file_page(&commits[i], snapshot.key_at(f), snapshot.val_at(f));
                let ghost fpageg = fpage;
                site.insert(fpath, fpage);
                proof {
                    assert(fname@ == escaped_name(snapv[f as int].0));
                    assert(fkey =~= file_page_key(ord[i as int].0, snapv[f as int].0));
                    assert(fpageg@ == file_page_spec(
                        ord[i as int].0,
                        ord[i as int].1,
                        snapv[f as int].0,
                        snapv[f as int].1,
                    ));
                    assert forall|q: Seq<char>|
                        crate::smap::map_get(s1, q) is Some || q == fkey implies crate::smap::map_get(
                        site@,
                        q,
                    ) is Some by {
                        crate::smap::lemma_map_get_put(s1, fkey, fpageg, q);
                    }
                    crate::smap::lemma_map_get_put(s1, fkey, fpageg, fkey);
                    if unamb {
                        // This commit's page survives.
                        lemma_site_keys(
                            ord[i as int].0,
                            Seq::<char>::empty(),
                            ord[i as int].0,
                            snapv[f as int].0,
                        );
                        crate::smap::lemma_map_get_put(
                            s1,
                            fkey,
                            fpageg,
                            commit_page_key(ord[i as int].0),
                        );
                        // Earlier file pages of this commit survive.
                        assert forall|f2: int|
                            0 <= f2 < f + 1 implies (crate::smap::map_get(
                            site@,
                            file_page_key(ord[i as int].0, (#[trigger] snapv[f2]).0),
                        ) matches Option::Some(pg) && pg@ == file_page_spec(
                            ord[i as int].0,
                            ord[i as int].1,
                            snapv[f2].0,
                            snapv[f2].1,
                        )) by {
                            if f2 < f {
                                lemma_site_keys(
                                    ord[i as int].0,
                                    snapv[f as int].0,
                                    ord[i as int].0,
                                    snapv[f2].0,
                                );
                                crate::smap::lemma_map_get_put(
                                    s1,
                                    fkey,
                                    fpageg,
                                    file_page_key(ord[i as int].0, snapv[f2].0),
                                );
                            }
                        }
                        // Earlier commits' pages survive.
                        assert forall|k: int| 0 <= k < i implies commit_pages_pinned(
                            site@,
                            self.objects@,
                            #[trigger] ord[k],
                        ) by {
                            lemma_site_keys(
                                ord[k].0,
                                Seq::<char>::empty(),
                                ord[i as int].0,
                                snapv[f as int].0,
                            );
                            assert forall|f2: int|
                                0 <= f2 < commit_snapshot_spec(self.objects@, ord[k].0).len()
                                implies fkey != file_page_key(
                                ord[k].0,
                                (#[trigger] commit_snapshot_spec(
                                    self.objects@,
                                    ord[k].0,
                                )[f2]).0,
                            ) by {
                                lemma_site_keys(
                                    ord[i as int].0,
                                    snapv[f as int].0,
                                    ord[k].0,
                                    commit_snapshot_spec(self.objects@, ord[k].0)[f2].0,
                                );
                            }
                            lemma_pages_preserved(s1, fkey, fpageg, self.objects@, ord[k]);
                        }
                    }
                }
                tree_page.append(
                    "<tr class=\"lily:file_listing\" role=\"file\"><td><a href=\"tree/",
                );
                tree_page.append(fname.as_str());
                tree_page.append(".html\">");
                tree_page.append(snapshot.key_at(f).as_str());
                tree_page.append("</a></td><td>");
                tree_page.append(commits[i].short().as_str());
                tree_page.append("</td><td>");
                tree_page.append(commits[i].branch.as_str());
                tree_page.append("</td></tr>");
                proof {
                    assert(tree_page@ =~= tree_header + tree_rows(
                        snapv.subrange(0, f + 1 as int),
                        short_of(ord[i as int].0),
                        ord[i as int].1,
                    ));
                }
                f += 1;
            }
            tree_page.append("</tbody></table>");
            proof {
                assert(snapv.subrange(0, nf as int) =~= snapv);
                assert(tree_page@ =~= tree_page_spec(
                    snapv,
                    short_of(ord[i as int].0),
                    ord[i as int].1,
                ));
            }
            let mut tree_path = String::from_str("commits/");
            tree_path.append(commits[i].id.as_str());
            tree_path.append("/tree.html");
            let ghost tree_key = tree_path@;
            let ghost s2 = site@;
            let ghost treeg = tree_page;
            site.insert(tree_path, tree_page);
            proof {
                assert(tree_key == commit_tree_key(ord[i as int].0));
                assert forall|q: Seq<char>|
                    crate::smap::map_get(s2, q) is Some || q == tree_key implies crate::smap::map_get(
                    site@,
                    q,
                ) is Some by {
                    crate::smap::lemma_map_get_put(s2, tree_key, treeg, q);
                }
                if unamb {
                    crate::smap::lemma_map_get_put(s2, tree_key, treeg, tree_key);
                    lemma_site_keys(
                        ord[i as int].0,
                        Seq::<char>::empty(),
                        ord[i as int].0,
                        Seq::<char>::empty(),
                    );
                    crate::smap::lemma_map_get_put(
                        s2,
                        tree_key,
                        treeg,
                        commit_page_key(ord[i as int].0),
                    );
                    assert forall|f2: int| 0 <= f2 < snapv.len() implies (crate::smap::map_get(
                        site@,
                        file_page_key(ord[i as int].0, (#[trigger] snapv[f2]).0),
                    ) matches Option::Some(pg) && pg@ == file_page_spec(
                        ord[i as int].0,
                        ord[i as int].1,
                        snapv[f2].0,
                        snapv[f2].1,
                    )) by {
                        lemma_site_keys(
                            ord[i as int].0,
                            Seq::<char>::empty(),
                            ord[i as int].0,
                            snapv[f2].0,
                        );
                        crate::smap::lemma_map_get_put(
                            s2,
                            tree_key,
                            treeg,
                            file_page_key(ord[i as int].0, snapv[f2].0),
                        );
                    }
                    assert(commit_pages_pinned(site@, self.objects@, ord[i as int]));
                    assert forall|k: int| 0 <= k < i + 1 implies commit_pages_pinned(
                        site@,
                        self.objects@,
                        #[trigger] ord[k],
                    ) by {
                        if k < i {
                            lemma_site_keys(
                                ord[k].0,
                                Seq::<char>::empty(),
                                ord[i as int].0,
                                Seq::<char>::empty(),
                            );
                            assert forall|f2: int|
                                0 <= f2 < commit_snapshot_spec(self.objects@, ord[k].0).len()
                                implies tree_key != file_page_key(
                                ord[k].0,
                                (#[trigger] commit_snapshot_spec(
                                    self.objects@,
                                    ord[k].0,
                                )[f2]).0,
                            ) by {
                                lemma_site_keys(
                                    ord[i as int].0,
                                    Seq::<char>::empty(),
                                    ord[k].0,
                                    commit_snapshot_spec(self.objects@, ord[k].0)[f2].0,
                                );
                            }
                            lemma_pages_preserved(s2, tree_key, treeg, self.objects@, ord[k]);
                        }
                    }
                }
            }
            i += 1;
        }
        index.append("</tbody></table>");
        let key = String::from_str("commits/index.html");
        let ghost spre = site@;
        let ghost indexg = index;
        site.insert(key, index);
        proof {
            assert(ord.subrange(0, n as int) =~= ord);
            crate::smap::lemma_map_get_put(
                spre,
                "commits/index.html"@,
                indexg,
                "commits/index.html"@,
            );
            assert(crate::smap::map_get(site@, "commits/index.html"@) == Option::Some(indexg));
            assert(indexg@ =~= commit_index_page(ord));
            assert forall|q: Seq<char>|
                crate::smap::map_get(spre, q) is Some implies crate::smap::map_get(
                site@,
                q,
            ) is Some by {
                crate::smap::lemma_map_get_put(spre, "commits/index.html"@, indexg, q);
            }
            if unamb {
                assert forall|k: int| 0 <= k < ord.len() implies commit_pages_pinned(
                    site@,
                    self.objects@,
                    #[trigger] ord[k],
                ) by {
                    lemma_site_keys(ord[k].0, Seq::<char>::empty(), ord[k].0, Seq::<char>::empty());
                    assert forall|f2: int|
                        0 <= f2 < commit_snapshot_spec(self.objects@, ord[k].0).len()
                        implies "commits/index.html"@ != file_page_key(
                        ord[k].0,
                        (#[trigger] commit_snapshot_spec(self.objects@, ord[k].0)[f2]).0,
                    ) by {
                        lemma_site_keys(
                            ord[k].0,
                            Seq::<char>::empty(),
                            ord[k].0,
                            commit_snapshot_spec(self.objects@, ord[k].0)[f2].0,
                        );
                    }
                    lemma_pages_preserved(
                        spre,
                        "commits/index.html"@,
                        indexg,
                        self.objects@,
                        ord[k],
                    );
                }
            }
            // The decoded listing is the witness ordering.
            assert(desc_sorted(ord)) by {
                assert forall|i2: int, j2: int| 0 <= i2 < j2 < ord.len() implies (
                #[trigger] ord[i2]).2 >= (#[trigger] ord[j2]).2 by {
                    assert(ord[i2] == crate::garden::csig(commits@[i2]));
                    assert(ord[j2] == crate::garden::csig(commits@[j2]));
                }
            }
        }
        Ok(site)
    }

    /// The snapshot of a commit's pack object, the blank pack standing in
    /// for a missing object, an empty snapshot for anything unreadable.
    fn commit_snapshot(&self, id: &String) -> (r: SMap<String>)
        ensures
            r.wf(),
            crate::pack::snapshot_entries(r@) == commit_snapshot_spec(self.objects@, id@),
    {
        proof {
            reveal_strlit("blank");
        }
        let bytes = match self.objects.get(id.as_str()) {
            Option::Some(b) => Option::Some(b),
            Option::None => self.objects.get("blank"),
        };
        match bytes {
            Option::Some(b) => {
                let pack = crate::pack::Pack { data: crate::garden::clone_bytes(b) };
                match pack.open() {
                    Ok(m) => m,
                    Err(_) => {
                        let m: SMap<String> = SMap::new();
                        proof {
                            assert(crate::pack::snapshot_entries(m@) =~= Seq::<
                                (Seq<char>, Seq<char>),
                            >::empty());
                        }
                        m
                    },
                }
            },
            Option::None => {
                let m: SMap<String> = SMap::new();
                proof {
                    assert(crate::pack::snapshot_entries(m@) =~= Seq::<
                        (Seq<char>, Seq<char>),
                    >::empty());
                }
                m
            },
        }
    }
}

/// One file's source page: header, then the line-numbered, escaped text.
fn render_file_page(c: &crate::garden::Commit, path: &String, content: &String) -> (r: String)
    ensures
        r@ == file_page_spec(c.id@, c.branch@, path@, content@),
{
    let mut out = String::from_str("<header><h3>");
    out.append(path.as_str());
    out.append(
        "</h3><span class=\"lily:file_status_line\"><span class=\"lily:file_index_link\"><a href=\"../tree.html\">&lt; Back</a></span> \u{2022} <span class=\"lily:file_commit\"><a href=\"../tree.html\">",
    );
    out.append(c.id.as_str());
    out.append("</a></span> \u{2022} <span class=\"lily:file_branch\">");
    out.append(c.branch.as_str());
    out.append("</span><hr /></header>");
    let ghost head = out@;
    proof {
        assert(head =~= "<header><h3>"@ + path@
            + "</h3><span class=\"lily:file_status_line\"><span class=\"lily:file_index_link\"><a href=\"../tree.html\">&lt; Back</a></span> \u{2022} <span class=\"lily:file_commit\"><a href=\"../tree.html\">"@
            + c.id@ + "</a></span> \u{2022} <span class=\"lily:file_branch\">"@ + c.branch@
            + "</span><hr /></header>"@);
    }
    let lines = split_string(content.as_str());
    let mut line_numbers = String::new();
    let mut body = String::new();
    let nl = lines.len();
    let mut i: usize = 0;
    while i < nl
        invariant
            i <= nl,
            nl == lines@.len(),
            out@ == head,
            head == "<header><h3>"@ + path@
                + "</h3><span class=\"lily:file_status_line\"><span class=\"lily:file_index_link\"><a href=\"../tree.html\">&lt; Back</a></span> \u{2022} <span class=\"lily:file_commit\"><a href=\"../tree.html\">"@
                + c.id@ + "</a></span> \u{2022} <span class=\"lily:file_branch\">"@
                + c.branch@ + "</span><hr /></header>"@,
            views_of(lines@) == text_lines(content@),
            line_numbers@ == line_num_rows(i as int),
            body@ == escaped_lines(views_of(lines@).subrange(0, i as int)),
        decreases nl - i,
    {
        proof {
            reveal_strlit("<");
            reveal_strlit(">");
            let pre = views_of(lines@).subrange(0, i as int);
            assert(views_of(lines@).subrange(0, i + 1 as int) =~= pre.push(
                views_of(lines@)[i as int],
            ));
            assert(pre.push(views_of(lines@)[i as int]).drop_last() =~= pre);
        }
        line_numbers.append(
            "<span style=\"color: blue\" class=\"lily:94m\" role=\"extra\"><code class=\"lily:u0098\" id=\"ln-",
        );
        line_numbers.append(usize_to_string(i + 1).as_str());
        line_numbers.append("\">");
        line_numbers.append(usize_to_string(i + 1).as_str());
        line_numbers.append("</code></span>\n");
        proof {
            assert(line_numbers@ =~= line_num_rows(i + 1 as int));
        }
        let escaped = replace(replace(lines[i].as_str(), "<", "&lt;").as_str(), ">", "&gt;");
        body.append(escaped.as_str());
        body.append("\n");
        proof {
            assert(escaped@ == escape_line(views_of(lines@)[i as int]));
            assert(body@ =~= escaped_lines(views_of(lines@).subrange(0, i + 1 as int)));
        }
        i += 1;
    }
    proof {
        assert(views_of(lines@).subrange(0, nl as int) =~= views_of(lines@));
    }
    out.append(
        "<article style=\"display: flex; gap: 0.5rem\"><pre role=\"line-numbers\" class=\"lily:file_line_numbers\">",
    );
    out.append(line_numbers.as_str());
    out.append(
        "</pre><pre role=\"source-display\" class=\"lily:file_lines\" style=\"width: 100%; overflow-x: auto\">",
    );
    out.append(body.as_str());
    out.append("</pre></article>");
    proof {
        assert(out@ =~= file_page_spec(c.id@, c.branch@, path@, content@));
    }
    out
}

} // verus!
