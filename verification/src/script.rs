//! The edit-script model behind the diff engine.
//!
//! A diff of two line sequences is an edit script: every old line is either
//! kept or dropped, every new line is either kept or put, both in order.
//! The outside diff engine produces such a script; everything after that is
//! verified: the script is turned into positioned changes (deletions at old
//! line indices in descending order, then additions at new line indices in
//! ascending order), and replaying those changes over the old lines provably
//! rebuilds the new lines.

use vstd::prelude::*;

use crate::patch::ChangeMode;
use crate::text::views_of;

verus! {

/// One step of an edit script over lines.
pub enum ScriptOp {
    /// A line common to both texts.
    Keep(String),
    /// A line of the old text only.
    Drop(String),
    /// A line of the new text only.
    Put(String),
}

pub open spec fn op_text(op: ScriptOp) -> Seq<char> {
    match op {
        ScriptOp::Keep(s) => s@,
        ScriptOp::Drop(s) => s@,
        ScriptOp::Put(s) => s@,
    }
}

pub open spec fn is_keep(op: ScriptOp) -> bool {
    op matches ScriptOp::Keep(_)
}

pub open spec fn is_drop(op: ScriptOp) -> bool {
    op matches ScriptOp::Drop(_)
}

pub open spec fn is_put(op: ScriptOp) -> bool {
    op matches ScriptOp::Put(_)
}

/// The old lines described by a script: kept and dropped ones, in order.
pub open spec fn script_olds(sc: Seq<ScriptOp>) -> Seq<Seq<char>>
    decreases sc.len(),
{
    if sc.len() == 0 {
        Seq::<Seq<char>>::empty()
    } else {
        let front = script_olds(sc.drop_last());
        if is_put(sc.last()) {
            front
        } else {
            front.push(op_text(sc.last()))
        }
    }
}

/// The new lines described by a script: kept and put ones, in order.
pub open spec fn script_news(sc: Seq<ScriptOp>) -> Seq<Seq<char>>
    decreases sc.len(),
{
    if sc.len() == 0 {
        Seq::<Seq<char>>::empty()
    } else {
        let front = script_news(sc.drop_last());
        if is_drop(sc.last()) {
            front
        } else {
            front.push(op_text(sc.last()))
        }
    }
}

/// The lines a script keeps.
pub open spec fn script_keeps(sc: Seq<ScriptOp>) -> Seq<Seq<char>>
    decreases sc.len(),
{
    if sc.len() == 0 {
        Seq::<Seq<char>>::empty()
    } else {
        let front = script_keeps(sc.drop_last());
        if is_keep(sc.last()) {
            front.push(op_text(sc.last()))
        } else {
            front
        }
    }
}

/// The dropped lines, each with its index in the old text.
pub open spec fn script_dels(sc: Seq<ScriptOp>) -> Seq<(int, Seq<char>)>
    decreases sc.len(),
{
    if sc.len() == 0 {
        Seq::<(int, Seq<char>)>::empty()
    } else {
        let front = script_dels(sc.drop_last());
        if is_drop(sc.last()) {
            front.push((script_olds(sc.drop_last()).len() as int, op_text(sc.last())))
        } else {
            front
        }
    }
}

/// The put lines, each with its index in the new text.
pub open spec fn script_adds(sc: Seq<ScriptOp>) -> Seq<(int, Seq<char>)>
    decreases sc.len(),
{
    if sc.len() == 0 {
        Seq::<(int, Seq<char>)>::empty()
    } else {
        let front = script_adds(sc.drop_last());
        if is_put(sc.last()) {
            front.push((script_news(sc.drop_last()).len() as int, op_text(sc.last())))
        } else {
            front
        }
    }
}

/// A positioned line change, as the replay semantics sees it.
pub type LineEdit = (int, ChangeMode, Seq<char>);

/// One change applied to a line buffer: additions insert at their position
/// (or append past the end), deletions remove their position (or are
/// ignored past the end).
pub open spec fn apply_edit(lines: Seq<Seq<char>>, e: LineEdit) -> Seq<Seq<char>> {
    match e.1 {
        ChangeMode::Added => {
            if e.0 > lines.len() {
                lines.push(e.2)
            } else if e.0 < 0 {
                lines
            } else {
                lines.insert(e.0, e.2)
            }
        },
        ChangeMode::Deleted => {
            if 0 <= e.0 < lines.len() {
                lines.remove(e.0)
            } else {
                lines
            }
        },
    }
}

/// Changes applied one after the other, in stored order.
pub open spec fn replay(lines: Seq<Seq<char>>, es: Seq<LineEdit>) -> Seq<Seq<char>>
    decreases es.len(),
{
    if es.len() == 0 {
        lines
    } else {
        replay(apply_edit(lines, es[0]), es.drop_first())
    }
}

pub proof fn lemma_replay_concat(lines: Seq<Seq<char>>, a: Seq<LineEdit>, b: Seq<LineEdit>)
    ensures
        replay(lines, a + b) == replay(replay(lines, a), b),
    decreases a.len(),
{
    if a.len() == 0 {
        assert(a + b =~= b);
    } else {
        assert((a + b)[0] == a[0]);
        assert((a + b).drop_first() =~= a.drop_first() + b);
        lemma_replay_concat(apply_edit(lines, a[0]), a.drop_first(), b);
    }
}

pub proof fn lemma_replay_snoc(lines: Seq<Seq<char>>, es: Seq<LineEdit>, e: LineEdit)
    ensures
        replay(lines, es.push(e)) == apply_edit(replay(lines, es), e),
{
    lemma_replay_concat(lines, es, seq![e]);
    assert(es.push(e) =~= es + seq![e]);
    assert(seq![e][0] == e);
    assert(seq![e].drop_first() =~= Seq::<LineEdit>::empty());
    assert(replay(apply_edit(replay(lines, es), e), Seq::<LineEdit>::empty()) == apply_edit(
        replay(lines, es),
        e,
    ));
    assert(replay(replay(lines, es), seq![e]) == apply_edit(replay(lines, es), e));
}

/// Positioned deletions, as stored in a patch.
pub open spec fn del_changes(ps: Seq<(int, Seq<char>)>) -> Seq<LineEdit> {
    ps.map_values(|p: (int, Seq<char>)| (p.0, ChangeMode::Deleted, p.1))
}

/// Positioned additions, as stored in a patch.
pub open spec fn add_changes(ps: Seq<(int, Seq<char>)>) -> Seq<LineEdit> {
    ps.map_values(|p: (int, Seq<char>)| (p.0, ChangeMode::Added, p.1))
}

/// Drop positions sit inside the old lines and ascend strictly.
pub proof fn lemma_script_dels_bounds(sc: Seq<ScriptOp>)
    ensures
        forall|k: int|
            0 <= k < script_dels(sc).len() ==> 0 <= #[trigger] script_dels(sc)[k].0
                < script_olds(sc).len(),
        forall|k1: int, k2: int|
            0 <= k1 < k2 < script_dels(sc).len() ==> #[trigger] script_dels(sc)[k1].0
                < #[trigger] script_dels(sc)[k2].0,
    decreases sc.len(),
{
    if sc.len() > 0 {
        let sc0 = sc.drop_last();
        lemma_script_dels_bounds(sc0);
        if is_drop(sc.last()) {
            let fresh = (script_olds(sc0).len() as int, op_text(sc.last()));
            assert(script_dels(sc) == script_dels(sc0).push(fresh));
            assert(script_olds(sc) == script_olds(sc0).push(op_text(sc.last())));
            assert forall|k: int| 0 <= k < script_dels(sc).len() implies 0
                <= #[trigger] script_dels(sc)[k].0 < script_olds(sc).len() by {
                if k < script_dels(sc0).len() {
                    assert(script_dels(sc)[k] == script_dels(sc0)[k]);
                } else {
                    assert(script_dels(sc)[k] == fresh);
                }
            }
            assert forall|k1: int, k2: int|
                0 <= k1 < k2 < script_dels(sc).len() implies #[trigger] script_dels(sc)[k1].0
                < #[trigger] script_dels(sc)[k2].0 by {
                assert(script_dels(sc)[k1] == script_dels(sc0)[k1]);
                if k2 < script_dels(sc0).len() {
                    assert(script_dels(sc)[k2] == script_dels(sc0)[k2]);
                } else {
                    assert(script_dels(sc)[k2] == fresh);
                    assert(script_dels(sc0)[k1].0 < script_olds(sc0).len());
                }
            }
        } else {
            assert(script_dels(sc) == script_dels(sc0));
            if is_keep(sc.last()) {
                assert(script_olds(sc) == script_olds(sc0).push(op_text(sc.last())));
            } else {
                assert(script_olds(sc) == script_olds(sc0));
            }
        }
    }
}

/// The new lines are the kept ones with the put ones mixed in.
pub proof fn lemma_script_news_len(sc: Seq<ScriptOp>)
    ensures
        script_news(sc).len() == script_keeps(sc).len() + script_adds(sc).len(),
    decreases sc.len(),
{
    if sc.len() > 0 {
        lemma_script_news_len(sc.drop_last());
    }
}

/// The old lines are the kept ones with the dropped ones mixed in.
pub proof fn lemma_script_olds_len(sc: Seq<ScriptOp>)
    ensures
        script_olds(sc).len() == script_keeps(sc).len() + script_dels(sc).len(),
    decreases sc.len(),
{
    if sc.len() > 0 {
        lemma_script_olds_len(sc.drop_last());
    }
}

/// Put position `k` never exceeds the kept line count plus `k`.
pub proof fn lemma_script_adds_bounds(sc: Seq<ScriptOp>)
    ensures
        forall|k: int|
            0 <= k < script_adds(sc).len() ==> 0 <= #[trigger] script_adds(sc)[k].0
                <= script_keeps(sc).len() + k,
    decreases sc.len(),
{
    if sc.len() > 0 {
        let sc0 = sc.drop_last();
        lemma_script_adds_bounds(sc0);
        lemma_script_news_len(sc0);
        if is_put(sc.last()) {
            let fresh = (script_news(sc0).len() as int, op_text(sc.last()));
            assert(script_adds(sc) == script_adds(sc0).push(fresh));
            assert(script_keeps(sc) == script_keeps(sc0));
            assert forall|k: int| 0 <= k < script_adds(sc).len() implies 0
                <= #[trigger] script_adds(sc)[k].0 <= script_keeps(sc).len() + k by {
                if k < script_adds(sc0).len() {
                    assert(script_adds(sc)[k] == script_adds(sc0)[k]);
                } else {
                    assert(script_adds(sc)[k] == fresh);
                    assert(fresh.0 == script_keeps(sc0).len() + script_adds(sc0).len());
                }
            }
        } else {
            assert(script_adds(sc) == script_adds(sc0));
            assert forall|k: int| 0 <= k < script_adds(sc).len() implies 0
                <= #[trigger] script_adds(sc)[k].0 <= script_keeps(sc).len() + k by {
                assert(script_adds(sc)[k] == script_adds(sc0)[k]);
                assert(script_keeps(sc).len() >= script_keeps(sc0).len());
            }
        }
    }
}

/// Deleting strictly descending in-range positions commutes with a line
/// appended past them.
proof fn lemma_replay_dels_push(lines: Seq<Seq<char>>, v: Seq<char>, dl: Seq<(int, Seq<char>)>)
    requires
        forall|k1: int, k2: int|
            0 <= k1 < k2 < dl.len() ==> #[trigger] dl[k1].0 > #[trigger] dl[k2].0,
        forall|k: int| 0 <= k < dl.len() ==> 0 <= #[trigger] dl[k].0,
        dl.len() > 0 ==> dl[0].0 < lines.len(),
    ensures
        replay(lines.push(v), del_changes(dl)) == replay(lines, del_changes(dl)).push(v),
    decreases dl.len(),
{
    if dl.len() == 0 {
        assert(del_changes(dl) =~= Seq::<LineEdit>::empty());
    } else {
        let p = dl[0].0;
        let t = dl[0].1;
        assert(del_changes(dl)[0] == (p, ChangeMode::Deleted, t));
        assert(del_changes(dl).drop_first() =~= del_changes(dl.drop_first()));
        assert(0 <= p < lines.len());
        assert(apply_edit(lines.push(v), (p, ChangeMode::Deleted, t)) =~= lines.remove(p).push(v));
        assert(apply_edit(lines, (p, ChangeMode::Deleted, t)) == lines.remove(p));
        assert forall|k1: int, k2: int|
            0 <= k1 < k2 < dl.drop_first().len() implies #[trigger] dl.drop_first()[k1].0
            > #[trigger] dl.drop_first()[k2].0 by {
            assert(dl.drop_first()[k1] == dl[k1 + 1]);
            assert(dl.drop_first()[k2] == dl[k2 + 1]);
        }
        assert forall|k: int| 0 <= k < dl.drop_first().len() implies 0
            <= #[trigger] dl.drop_first()[k].0 by {
            assert(dl.drop_first()[k] == dl[k + 1]);
        }
        if dl.drop_first().len() > 0 {
            assert(dl.drop_first()[0] == dl[1]);
            assert(dl[1].0 < dl[0].0);
        }
        lemma_replay_dels_push(lines.remove(p), v, dl.drop_first());
    }
}

/// Replaying the deletions, highest position first, pares the old lines
/// down to exactly the kept ones.
pub proof fn lemma_replay_dels(sc: Seq<ScriptOp>)
    ensures
        replay(script_olds(sc), del_changes(script_dels(sc).reverse())) == script_keeps(sc),
    decreases sc.len(),
{
    if sc.len() == 0 {
        assert(script_dels(sc).reverse() =~= Seq::<(int, Seq<char>)>::empty());
        assert(del_changes(script_dels(sc).reverse()) =~= Seq::<LineEdit>::empty());
    } else {
        let sc0 = sc.drop_last();
        lemma_replay_dels(sc0);
        lemma_script_dels_bounds(sc0);
        let dl0 = script_dels(sc0).reverse();
        assert forall|k1: int, k2: int|
            0 <= k1 < k2 < dl0.len() implies #[trigger] dl0[k1].0 > #[trigger] dl0[k2].0 by {
            assert(dl0[k1] == script_dels(sc0)[dl0.len() - 1 - k1]);
            assert(dl0[k2] == script_dels(sc0)[dl0.len() - 1 - k2]);
        }
        assert forall|k: int| 0 <= k < dl0.len() implies 0 <= #[trigger] dl0[k].0 by {
            assert(dl0[k] == script_dels(sc0)[dl0.len() - 1 - k]);
        }
        match sc.last() {
            ScriptOp::Keep(s) => {
                assert(script_dels(sc) == script_dels(sc0));
                assert(script_olds(sc) == script_olds(sc0).push(s@));
                assert(script_keeps(sc) == script_keeps(sc0).push(s@));
                if dl0.len() > 0 {
                    assert(dl0[0] == script_dels(sc0)[dl0.len() - 1]);
                    assert(dl0[0].0 < script_olds(sc0).len());
                }
                lemma_replay_dels_push(script_olds(sc0), s@, dl0);
            },
            ScriptOp::Drop(s) => {
                let n0 = script_olds(sc0).len() as int;
                assert(script_dels(sc) == script_dels(sc0).push((n0, s@)));
                assert(script_olds(sc) == script_olds(sc0).push(s@));
                assert(script_keeps(sc) == script_keeps(sc0));
                let dl = script_dels(sc).reverse();
                assert(dl =~= seq![(n0, s@)] + dl0) by {
                    assert forall|k: int| 0 <= k < dl.len() implies dl[k] == (seq![(n0, s@)]
                        + dl0)[k] by {
                        assert(dl[k] == script_dels(sc)[dl.len() - 1 - k]);
                        if k > 0 {
                            assert(dl0[k - 1] == script_dels(sc0)[dl0.len() - k]);
                        }
                    }
                }
                assert(del_changes(dl) =~= seq![(n0, ChangeMode::Deleted, s@)] + del_changes(dl0));
                let first: LineEdit = (n0, ChangeMode::Deleted, s@);
                assert(apply_edit(script_olds(sc), first) =~= script_olds(sc0));
                assert(del_changes(dl)[0] == first);
                assert(del_changes(dl).drop_first() =~= del_changes(dl0));
            },
            ScriptOp::Put(s) => {
                assert(script_dels(sc) == script_dels(sc0));
                assert(script_olds(sc) == script_olds(sc0));
                assert(script_keeps(sc) == script_keeps(sc0));
            },
        }
    }
}

/// Inserting at positions within range commutes with a line appended past
/// them.
proof fn lemma_replay_adds_push(lines: Seq<Seq<char>>, v: Seq<char>, al: Seq<(int, Seq<char>)>)
    requires
        forall|k: int| 0 <= k < al.len() ==> 0 <= #[trigger] al[k].0 <= lines.len() + k,
    ensures
        replay(lines.push(v), add_changes(al)) == replay(lines, add_changes(al)).push(v),
    decreases al.len(),
{
    if al.len() == 0 {
        assert(add_changes(al) =~= Seq::<LineEdit>::empty());
    } else {
        let p = al[0].0;
        let t = al[0].1;
        assert(al[0] == al[0]);
        assert(0 <= p <= lines.len());
        assert(add_changes(al)[0] == (p, ChangeMode::Added, t));
        assert(add_changes(al).drop_first() =~= add_changes(al.drop_first()));
        assert(apply_edit(lines.push(v), (p, ChangeMode::Added, t)) =~= lines.insert(p, t).push(
            v,
        ));
        assert(apply_edit(lines, (p, ChangeMode::Added, t)) == lines.insert(p, t));
        assert forall|k: int| 0 <= k < al.drop_first().len() implies 0
            <= #[trigger] al.drop_first()[k].0 <= lines.insert(p, t).len() + k by {
            assert(al.drop_first()[k] == al[k + 1]);
        }
        lemma_replay_adds_push(lines.insert(p, t), v, al.drop_first());
    }
}

/// Replaying the additions, lowest position first, grows the kept lines
/// into exactly the new lines.
pub proof fn lemma_replay_adds(sc: Seq<ScriptOp>)
    ensures
        replay(script_keeps(sc), add_changes(script_adds(sc))) == script_news(sc),
    decreases sc.len(),
{
    if sc.len() == 0 {
        assert(add_changes(script_adds(sc)) =~= Seq::<LineEdit>::empty());
    } else {
        let sc0 = sc.drop_last();
        lemma_replay_adds(sc0);
        lemma_script_adds_bounds(sc0);
        lemma_script_news_len(sc0);
        match sc.last() {
            ScriptOp::Keep(s) => {
                assert(script_adds(sc) == script_adds(sc0));
                assert(script_keeps(sc) == script_keeps(sc0).push(s@));
                assert(script_news(sc) == script_news(sc0).push(s@));
                lemma_replay_adds_push(script_keeps(sc0), s@, script_adds(sc0));
            },
            ScriptOp::Put(s) => {
                let n0 = script_news(sc0).len() as int;
                assert(script_adds(sc) == script_adds(sc0).push((n0, s@)));
                assert(script_keeps(sc) == script_keeps(sc0));
                assert(script_news(sc) == script_news(sc0).push(s@));
                let e: LineEdit = (n0, ChangeMode::Added, s@);
                assert(add_changes(script_adds(sc)) =~= add_changes(script_adds(sc0)).push(e));
                lemma_replay_snoc(script_keeps(sc0), add_changes(script_adds(sc0)), e);
                assert(apply_edit(script_news(sc0), e) =~= script_news(sc0).push(s@));
            },
            ScriptOp::Drop(s) => {
                assert(script_adds(sc) == script_adds(sc0));
                assert(script_keeps(sc) == script_keeps(sc0));
                assert(script_news(sc) == script_news(sc0));
            },
        }
    }
}

/// The change list a diff stores: deletions at old positions, highest
/// first, then additions at new positions, lowest first. Replayed over the
/// old lines it rebuilds the new lines.
pub open spec fn script_changes(sc: Seq<ScriptOp>) -> Seq<LineEdit> {
    del_changes(script_dels(sc).reverse()) + add_changes(script_adds(sc))
}

/// The round trip: replaying a script's changes over its old lines yields
/// its new lines.
pub proof fn lemma_script_round_trip(sc: Seq<ScriptOp>)
    ensures
        replay(script_olds(sc), script_changes(sc)) == script_news(sc),
{
    lemma_replay_concat(
        script_olds(sc),
        del_changes(script_dels(sc).reverse()),
        add_changes(script_adds(sc)),
    );
    lemma_replay_dels(sc);
    lemma_replay_adds(sc);
}

/// Relies on similar's `TextDiff::from_slices` and `iter_all_changes`: the
/// flattened diff of two line slices classifies every old line as kept
/// (`Equal`) or dropped (`Delete`) in order, and every new line as kept or
/// put (`Insert`) in order; `Equal` lines are common to both.
#[verifier::external_body]
pub(crate) fn diff_script(old_lines: &Vec<String>, new_lines: &Vec<String>) -> (r: Vec<ScriptOp>)
    ensures
        script_olds(r@) == views_of(old_lines@),
        script_news(r@) == views_of(new_lines@),
{
    let o: Vec<&str> = old_lines.iter().map(|s| s.as_str()).collect();
    let n: Vec<&str> = new_lines.iter().map(|s| s.as_str()).collect();
    let diff = similar::TextDiff::from_slices(&o, &n);
    let mut out = Vec::new();
    for c in diff.iter_all_changes() {
        out.push(match c.tag() {
            similar::ChangeTag::Equal => ScriptOp::Keep(c.value().to_string()),
            similar::ChangeTag::Delete => ScriptOp::Drop(c.value().to_string()),
            similar::ChangeTag::Insert => ScriptOp::Put(c.value().to_string()),
        });
    }
    out
}

} // verus!
