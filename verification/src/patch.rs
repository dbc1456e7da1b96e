//! Line-level patches: the difference between two texts as an ordered list
//! of positioned additions and deletions, with application, summary and
//! rendering. The central guarantee: applying the patch computed for a pair
//! of texts to the first text yields the second, for every pair.

use vstd::prelude::*;

use crate::script::add_changes;
use crate::script::apply_edit;
use crate::script::del_changes;
use crate::script::diff_script;
use crate::script::lemma_replay_snoc;
use crate::script::op_text;
use crate::script::lemma_script_adds_bounds;
use crate::script::lemma_script_dels_bounds;
use crate::script::lemma_script_news_len;
use crate::script::lemma_script_olds_len;
use crate::script::lemma_script_round_trip;
use crate::script::replay;
use crate::script::script_adds;
use crate::script::script_changes;
use crate::script::script_dels;
use crate::script::script_keeps;
use crate::script::script_news;
use crate::script::script_olds;
use crate::script::LineEdit;
use crate::script::ScriptOp;
use crate::smap::map_put;
use crate::smap::SMap;
use crate::text::join_lines;
use crate::text::lemma_join_text_lines;
use crate::text::split_string;
use crate::text::str_eq;
use crate::text::text_lines;
use crate::text::views_of;

verus! {

/// Whether a change adds a line or deletes one.
#[derive(Clone, Copy, Debug, PartialEq, Eq, Structural)]
pub enum ChangeMode {
    /// Something was added
    Added,
    /// Something was deleted
    Deleted,
}

/// A single change to a file: `(line position, mode, line text)`.
pub type Change = (usize, ChangeMode, String);

/// The changes as the replay semantics sees them.
pub open spec fn changes_view(cs: Seq<Change>) -> Seq<LineEdit> {
    cs.map_values(|c: Change| (c.0 as int, c.1, c.2@))
}

pub open spec fn count_added(cs: Seq<Change>) -> int
    decreases cs.len(),
{
    if cs.len() == 0 {
        0
    } else {
        count_added(cs.drop_last()) + if cs.last().1 == ChangeMode::Added {
            1int
        } else {
            0int
        }
    }
}

pub open spec fn count_deleted(cs: Seq<Change>) -> int
    decreases cs.len(),
{
    if cs.len() == 0 {
        0
    } else {
        count_deleted(cs.drop_last()) + if cs.last().1 == ChangeMode::Deleted {
            1int
        } else {
            0int
        }
    }
}

proof fn lemma_count_snoc(cs: Seq<Change>, c: Change)
    ensures
        count_added(cs.push(c)) == count_added(cs) + if c.1 == ChangeMode::Added {
            1int
        } else {
            0int
        },
        count_deleted(cs.push(c)) == count_deleted(cs) + if c.1 == ChangeMode::Deleted {
            1int
        } else {
            0int
        },
{
    assert(cs.push(c).drop_last() =~= cs);
    assert(cs.push(c).last() == c);
}

/// A file inside a [`Patch`]: the full previous content and the ordered
/// changes against it.
pub struct PatchFile(pub String, pub Vec<Change>);

impl PatchFile {
    /// The text that applying this patch file to `source` yields.
    pub open spec fn apply_spec(self, source: Seq<char>) -> Seq<char> {
        join_lines(replay(text_lines(source), changes_view(self.1@)))
    }

    /// A summary of the changes: `(total changes, additions, deletions)`.
    /// The total is always the additions plus the deletions.
    pub fn summary(&self) -> (r: (usize, usize, usize))
        ensures
            r.0 == self.1@.len(),
            r.1 == count_added(self.1@),
            r.2 == count_deleted(self.1@),
            r.0 == r.1 + r.2,
    {
        let n = self.1.len();
        let mut additions: usize = 0;
        let mut deletions: usize = 0;
        let mut i: usize = 0;
        while i < n
            invariant
                i <= n,
                n == self.1@.len(),
                additions == count_added(self.1@.subrange(0, i as int)),
                deletions == count_deleted(self.1@.subrange(0, i as int)),
                additions + deletions == i,
            decreases n - i,
        {
            proof {
                lemma_count_snoc(self.1@.subrange(0, i as int), self.1@[i as int]);
                assert(self.1@.subrange(0, i + 1 as int) =~= self.1@.subrange(0, i as int).push(
                    self.1@[i as int],
                ));
            }
            match self.1[i].1 {
                ChangeMode::Added => {
                    additions += 1;
                },
                ChangeMode::Deleted => {
                    deletions += 1;
                },
            }
            i += 1;
        }
        proof {
            assert(self.1@.subrange(0, n as int) =~= self.1@);
        }
        (n, additions, deletions)
    }

    /// Applies the changes to `source`: deletions remove their line where
    /// it exists, additions insert at their position or append past the
    /// end.
    pub fn apply(&self, source: String) -> (r: String)
        ensures
            r@ == self.apply_spec(source@),
    {
        let mut lines = split_string(source.as_str());
        let n = self.1.len();
        let mut i: usize = 0;
        while i < n
            invariant
                i <= n,
                n == self.1@.len(),
                views_of(lines@) == replay(
                    text_lines(source@),
                    changes_view(self.1@.subrange(0, i as int)),
                ),
            decreases n - i,
        {
            proof {
                let pre = changes_view(self.1@.subrange(0, i as int));
                let c = self.1@[i as int];
                assert(self.1@.subrange(0, i + 1 as int) =~= self.1@.subrange(0, i as int).push(
                    c,
                ));
                assert(changes_view(self.1@.subrange(0, i + 1 as int)) =~= pre.push(
                    (c.0 as int, c.1, c.2@),
                ));
                lemma_replay_snoc(text_lines(source@), pre, (c.0 as int, c.1, c.2@));
            }
            let pos = self.1[i].0;
            match self.1[i].1 {
                ChangeMode::Added => {
                    let line = self.1[i].2.clone();
                    if pos > lines.len() {
                        lines.push(line);
                        proof {
                            assert(views_of(lines@) =~= replay(
                                text_lines(source@),
                                changes_view(self.1@.subrange(0, i + 1 as int)),
                            ));
                        }
                    } else {
                        lines.insert(pos, line);
                        proof {
                            assert(views_of(lines@) =~= replay(
                                text_lines(source@),
                                changes_view(self.1@.subrange(0, i + 1 as int)),
                            ));
                        }
                    }
                },
                ChangeMode::Deleted => {
                    if pos < lines.len() {
                        lines.remove(pos);
                    }
                    proof {
                        assert(views_of(lines@) =~= replay(
                            text_lines(source@),
                            changes_view(self.1@.subrange(0, i + 1 as int)),
                        ));
                    }
                },
            }
            i += 1;
        }
        proof {
            assert(self.1@.subrange(0, n as int) =~= self.1@);
        }
        crate::text::join_strings(&lines)
    }

    /// Computes the changes from `old_text` to `new_text`: deletions at old
    /// line indices, highest first, then additions at new line indices,
    /// lowest first. The change list is exactly the positioned form of an
    /// edit script between the two line sequences; applying it to
    /// `old_text` yields `new_text`. Equal texts yield no changes; an
    /// empty old text adds every new line; an empty new text deletes
    /// every old line.
    pub fn diff(old_text: String, new_text: &String) -> (pf: PatchFile)
        ensures
            pf.0 == old_text,
            pf.apply_spec(old_text@) == new_text@,
            (old_text@ == new_text@) == (pf.1@.len() == 0),
            old_text@ != new_text@ ==> (exists|sc: Seq<ScriptOp>|
                script_olds(sc) == text_lines(old_text@) && script_news(sc) == text_lines(
                    new_text@,
                ) && changes_view(pf.1@) == #[trigger] script_changes(sc)),
            old_text@.len() == 0 ==> forall|k: int|
                0 <= k < pf.1@.len() ==> (#[trigger] pf.1@[k]).1 == ChangeMode::Added,
            old_text@.len() == 0 ==> pf.1@.len() == text_lines(new_text@).len(),
            new_text@.len() == 0 ==> forall|k: int|
                0 <= k < pf.1@.len() ==> (#[trigger] pf.1@[k]).1 == ChangeMode::Deleted,
            new_text@.len() == 0 ==> pf.1@.len() == text_lines(old_text@).len(),
    {
        if str_eq(old_text.as_str(), new_text.as_str()) {
            let pf = PatchFile(old_text, Vec::new());
            proof {
                assert(changes_view(pf.1@) =~= Seq::<LineEdit>::empty());
                assert(replay(text_lines(old_text@), changes_view(pf.1@)) == text_lines(
                    old_text@,
                ));
                lemma_join_text_lines(old_text@);
            }
            return pf;
        }
        let old_lines = split_string(old_text.as_str());
        let new_lines = split_string(new_text.as_str());
        let script = diff_script(&old_lines, &new_lines);
        let ghost sc = script@;
        let n = script.len();
        let mut dels: Vec<Change> = Vec::new();
        let mut adds: Vec<Change> = Vec::new();
        let mut oi: usize = 0;
        let mut ni: usize = 0;
        let mut i: usize = 0;
        while i < n
            invariant
                i <= n,
                n == sc.len(),
                sc == script@,
                oi == script_olds(sc.subrange(0, i as int)).len(),
                ni == script_news(sc.subrange(0, i as int)).len(),
                oi <= i,
                ni <= i,
                changes_view(dels@) == del_changes(script_dels(sc.subrange(0, i as int))),
                changes_view(adds@) == add_changes(script_adds(sc.subrange(0, i as int))),
            decreases n - i,
        {
            proof {
                let pre = sc.subrange(0, i as int);
                assert(sc.subrange(0, i + 1 as int) =~= pre.push(sc[i as int]));
                assert(pre.push(sc[i as int]).drop_last() =~= pre);
                assert(pre.push(sc[i as int]).last() == sc[i as int]);
            }
            match &script[i] {
                ScriptOp::Keep(s) => {
                    proof {
                        assert(sc[i as int] == ScriptOp::Keep(*s));
                        assert(changes_view(dels@) =~= del_changes(
                            script_dels(sc.subrange(0, i + 1 as int)),
                        ));
                        assert(changes_view(adds@) =~= add_changes(
                            script_adds(sc.subrange(0, i + 1 as int)),
                        ));
                    }
                    oi += 1;
                    ni += 1;
                },
                ScriptOp::Drop(s) => {
                    proof {
                        assert(sc[i as int] == ScriptOp::Drop(*s));
                    }
                    let ghost pre = sc.subrange(0, i as int);
                    let ghost dpre = dels@;
                    dels.push((oi, ChangeMode::Deleted, s.clone()));
                    proof {
                        assert(op_text(sc[i as int]) == (*s)@);
                        assert(script_dels(sc.subrange(0, i + 1 as int)) =~= script_dels(
                            pre,
                        ).push((script_olds(pre).len() as int, (*s)@)));
                        assert(dels@.last().2@ == (*s)@);
                        assert(changes_view(dels@) =~= changes_view(dpre).push(
                            (oi as int, ChangeMode::Deleted, (*s)@),
                        ));
                        assert(changes_view(dels@) =~= del_changes(
                            script_dels(sc.subrange(0, i + 1 as int)),
                        ));
                        assert(changes_view(adds@) =~= add_changes(
                            script_adds(sc.subrange(0, i + 1 as int)),
                        ));
                    }
                    oi += 1;
                },
                ScriptOp::Put(s) => {
                    proof {
                        assert(sc[i as int] == ScriptOp::Put(*s));
                    }
                    let ghost pre = sc.subrange(0, i as int);
                    let ghost apre = adds@;
                    adds.push((ni, ChangeMode::Added, s.clone()));
                    proof {
                        assert(op_text(sc[i as int]) == (*s)@);
                        assert(script_adds(sc.subrange(0, i + 1 as int)) =~= script_adds(
                            pre,
                        ).push((script_news(pre).len() as int, (*s)@)));
                        assert(adds@.last().2@ == (*s)@);
                        assert(changes_view(adds@) =~= changes_view(apre).push(
                            (ni as int, ChangeMode::Added, (*s)@),
                        ));
                        assert(changes_view(adds@) =~= add_changes(
                            script_adds(sc.subrange(0, i + 1 as int)),
                        ));
                        assert(changes_view(dels@) =~= del_changes(
                            script_dels(sc.subrange(0, i + 1 as int)),
                        ));
                    }
                    ni += 1;
                },
            }
            i += 1;
        }
        proof {
            assert(sc.subrange(0, n as int) =~= sc);
        }
        // Deletions leave in descending line order.
        let ghost dels0 = dels@;
        let mut changes: Vec<Change> = Vec::new();
        while dels.len() > 0
            invariant
                changes@.len() + dels@.len() == dels0.len(),
                dels@ =~= dels0.subrange(0, dels@.len() as int),
                forall|t: int|
                    0 <= t < changes@.len() ==> changes@[t] == dels0[dels0.len() - 1 - t],
            decreases dels@.len(),
        {
            let c = dels.pop().unwrap();
            changes.push(c);
        }
        proof {
            assert(changes@ =~= dels0.reverse());
            lemma_map_reverse_changes(dels0);
            lemma_map_reverse_pairs(script_dels(sc));
            assert(changes_view(changes@) == changes_view(dels0).reverse());
            assert(changes_view(changes@) =~= del_changes(script_dels(sc).reverse()));
        }
        // Additions follow in ascending line order.
        let ghost adds0 = adds@;
        let ghost delpart = changes@;
        while adds.len() > 0
            invariant
                changes@.len() == delpart.len() + (adds0.len() - adds@.len()),
                changes@ =~= delpart + adds0.subrange(0, (adds0.len() - adds@.len()) as int),
                adds@ =~= adds0.subrange(
                    (adds0.len() - adds@.len()) as int,
                    adds0.len() as int,
                ),
            decreases adds@.len(),
        {
            let c = adds.remove(0);
            changes.push(c);
        }
        proof {
            assert(adds0.subrange(0, adds0.len() as int) =~= adds0);
            assert(changes@ =~= delpart + adds0);
            lemma_changes_view_concat(delpart, adds0);
            assert(changes_view(changes@) =~= script_changes(sc));
        }
        let pf = PatchFile(old_text, changes);
        proof {
            lemma_script_round_trip(sc);
            assert(views_of(old_lines@) == text_lines(old_text@));
            assert(views_of(new_lines@) == text_lines(new_text@));
            assert(replay(text_lines(old_text@), changes_view(pf.1@)) == text_lines(new_text@));
            lemma_join_text_lines(new_text@);
            lemma_join_text_lines(old_text@);
            // Distinct texts always yield at least one change.
            if pf.1@.len() == 0 {
                assert(changes_view(pf.1@) =~= Seq::<LineEdit>::empty());
                assert(text_lines(old_text@) == text_lines(new_text@));
                assert(old_text@ == new_text@);
            }
            // The changes are exactly a script's positioned form.
            assert(script_olds(sc) == text_lines(old_text@) && script_news(sc) == text_lines(
                new_text@,
            ) && changes_view(pf.1@) == script_changes(sc));
            // An empty old text adds every new line.
            if old_text@.len() == 0 {
                lemma_script_news_len(sc);
                lemma_script_olds_len(sc);
                assert(script_olds(sc).len() == 0);
                assert(script_dels(sc).len() == 0);
                assert(script_keeps(sc).len() == 0);
                assert(del_changes(script_dels(sc).reverse()) =~= Seq::<LineEdit>::empty());
                assert(pf.1@.len() == script_adds(sc).len());
                assert(pf.1@.len() == text_lines(new_text@).len());
                assert forall|k: int| 0 <= k < pf.1@.len() implies (#[trigger] pf.1@[k]).1
                    == ChangeMode::Added by {
                    assert(changes_view(pf.1@)[k] == (
                        pf.1@[k].0 as int,
                        pf.1@[k].1,
                        pf.1@[k].2@,
                    ));
                    assert(changes_view(pf.1@)[k] == add_changes(script_adds(sc))[k]);
                }
            }
            // An empty new text deletes every old line.
            if new_text@.len() == 0 {
                lemma_script_news_len(sc);
                lemma_script_olds_len(sc);
                assert(script_news(sc).len() == 0);
                assert(script_adds(sc).len() == 0);
                assert(add_changes(script_adds(sc)) =~= Seq::<LineEdit>::empty());
                assert(pf.1@.len() == script_dels(sc).len());
                assert(pf.1@.len() == text_lines(old_text@).len());
                assert forall|k: int| 0 <= k < pf.1@.len() implies (#[trigger] pf.1@[k]).1
                    == ChangeMode::Deleted by {
                    assert(changes_view(pf.1@)[k] == (
                        pf.1@[k].0 as int,
                        pf.1@[k].1,
                        pf.1@[k].2@,
                    ));
                    assert(changes_view(pf.1@)[k] == del_changes(script_dels(sc).reverse())[k]);
                }
            }
        }
        pf
    }
}

/// Mapping to the replay view commutes with reversal.
proof fn lemma_map_reverse_changes(cs: Seq<Change>)
    ensures
        changes_view(cs.reverse()) == changes_view(cs).reverse(),
{
    assert(changes_view(cs.reverse()) =~= changes_view(cs).reverse());
}

/// Turning drop records into deletions commutes with reversal.
proof fn lemma_map_reverse_pairs(ps: Seq<(int, Seq<char>)>)
    ensures
        del_changes(ps.reverse()) == del_changes(ps).reverse(),
{
    assert(del_changes(ps.reverse()) =~= del_changes(ps).reverse());
}

/// The replay view of concatenated change lists.
proof fn lemma_changes_view_concat(a: Seq<Change>, b: Seq<Change>)
    ensures
        changes_view(a + b) == changes_view(a) + changes_view(b),
{
    assert(changes_view(a + b) =~= changes_view(a) + changes_view(b));
}

/// A list of changes to many files, keyed by working-tree relative path.
pub struct Patch {
    /// The changed files and their changes, ordered by path.
    pub files: SMap<PatchFile>,
}

impl Patch {
    /// A patch is well formed when its file keys are sorted and unique.
    pub open spec fn wf(&self) -> bool {
        self.files.wf()
    }

    /// An empty patch.
    pub fn empty() -> (p: Patch)
        ensures
            p.files@ == Seq::<(Seq<char>, PatchFile)>::empty(),
            p.wf(),
    {
        Patch { files: SMap::new() }
    }

    /// Builds a patch holding the diff of two versions of one file.
    pub fn from_file(path: String, old_text: String, new_text: String) -> (p: Patch)
        ensures
            p.wf(),
            p.files@.len() == 1,
            p.files@[0].0 == path@,
            p.files@[0].1.0 == old_text,
            p.files@[0].1.apply_spec(old_text@) == new_text@,
            (old_text@ == new_text@) == (p.files@[0].1.1@.len() == 0),
            old_text@ != new_text@ ==> (exists|sc: Seq<ScriptOp>|
                script_olds(sc) == text_lines(old_text@) && script_news(sc) == text_lines(
                    new_text@,
                ) && changes_view(p.files@[0].1.1@) == #[trigger] script_changes(sc)),
            old_text@.len() == 0 ==> forall|k: int|
                0 <= k < p.files@[0].1.1@.len() ==> (#[trigger] p.files@[0].1.1@[k]).1
                    == ChangeMode::Added,
            old_text@.len() == 0 ==> p.files@[0].1.1@.len() == text_lines(new_text@).len(),
            new_text@.len() == 0 ==> forall|k: int|
                0 <= k < p.files@[0].1.1@.len() ==> (#[trigger] p.files@[0].1.1@[k]).1
                    == ChangeMode::Deleted,
            new_text@.len() == 0 ==> p.files@[0].1.1@.len() == text_lines(old_text@).len(),
    {
        let ghost old_snapshot = old_text@;
        let pf = PatchFile::diff(old_text, &new_text);
        let mut files: SMap<PatchFile> = SMap::new();
        let ghost empty_files = files@;
        files.insert(path, pf);
        proof {
            assert(files@ == map_put(empty_files, path@, pf));
            assert(files@ =~= seq![(path@, pf)]);
        }
        Patch { files }
    }
}

} // verus!
