//! The stage and the local tracker: flat newline-delimited lists. The
//! stage queues working-tree paths for the next commit; the local tracker
//! lists commit ids not yet pushed to the remote. Both are modeled as
//! their backing file's content, so every operation on them is verified;
//! reading and writing the backing file is the caller's concern.

use vstd::prelude::*;

use crate::model::LilyError;
use crate::text::lemma_split_text_len;
use crate::text::split_string;
use crate::text::split_text;
use crate::text::text_lines;
use crate::text::views_of;
use crate::text::push_char;

verus! {

/// The lines that carry an entry: empty lines are skipped.
pub open spec fn nonempty_lines(ls: Seq<Seq<char>>) -> Seq<Seq<char>>
    decreases ls.len(),
{
    if ls.len() == 0 {
        Seq::<Seq<char>>::empty()
    } else {
        let front = nonempty_lines(ls.drop_last());
        if ls.last().len() > 0 {
            front.push(ls.last())
        } else {
            front
        }
    }
}

/// The entries a tracker file's content lists.
pub open spec fn entry_list(content: Seq<char>) -> Seq<Seq<char>> {
    nonempty_lines(text_lines(content))
}

/// Splitting distributes over a newline that joins two texts.
proof fn lemma_split_concat(a: Seq<char>, b: Seq<char>)
    ensures
        split_text(a + seq!['\n'] + b) == split_text(a) + split_text(b),
    decreases a.len(),
{
    lemma_split_text_len(b);
    if a.len() == 0 {
        let w = a + seq!['\n'] + b;
        assert(w[0] == '\n');
        assert(w.drop_first() =~= b);
        assert(split_text(w) == seq![Seq::<char>::empty()] + split_text(b));
        assert(split_text(a) =~= seq![Seq::<char>::empty()]);
        assert(split_text(w) =~= split_text(a) + split_text(b));
    } else {
        lemma_split_concat(a.drop_first(), b);
        lemma_split_text_len(a.drop_first());
        lemma_split_text_len(a);
        let w = a + seq!['\n'] + b;
        assert(w[0] == a[0]);
        assert(w.drop_first() =~= a.drop_first() + seq!['\n'] + b);
        let rw = split_text(a.drop_first() + seq!['\n'] + b);
        let ra = split_text(a.drop_first());
        assert(rw == ra + split_text(b));
        if a[0] == '\n' {
            assert(split_text(w) == seq![Seq::<char>::empty()] + rw);
            assert(split_text(a) == seq![Seq::<char>::empty()] + ra);
            assert(split_text(w) =~= split_text(a) + split_text(b));
        } else {
            assert(rw[0] == ra[0]);
            assert(split_text(w) == seq![seq![a[0]] + rw[0]] + rw.drop_first());
            assert(split_text(a) == seq![seq![a[0]] + ra[0]] + ra.drop_first());
            assert(rw.drop_first() =~= ra.drop_first() + split_text(b));
            assert(split_text(w) =~= split_text(a) + split_text(b));
        }
    }
}

/// A text without newlines is a single line.
proof fn lemma_split_single(b: Seq<char>)
    requires
        !b.contains('\n'),
    ensures
        split_text(b) == seq![b],
    decreases b.len(),
{
    if b.len() == 0 {
        assert(b =~= Seq::<char>::empty());
        assert(split_text(b) =~= seq![b]);
    } else {
        assert(b[0] != '\n');
        assert forall|j: int| 0 <= j < b.drop_first().len() implies b.drop_first()[j] != '\n' by {
            assert(b.drop_first()[j] == b[j + 1]);
        }
        assert(!b.drop_first().contains('\n'));
        lemma_split_single(b.drop_first());
        lemma_split_text_len(b.drop_first());
        assert(split_text(b) =~= seq![b]) by {
            assert(split_text(b) == seq![seq![b[0]] + b.drop_first()] + split_text(
                b.drop_first(),
            ).drop_first());
            assert(seq![b[0]] + b.drop_first() =~= b);
            assert(split_text(b.drop_first()).drop_first() =~= Seq::<Seq<char>>::empty());
        }
    }
}

/// Skipping empty lines distributes over concatenation.
proof fn lemma_nonempty_concat(x: Seq<Seq<char>>, y: Seq<Seq<char>>)
    ensures
        nonempty_lines(x + y) == nonempty_lines(x) + nonempty_lines(y),
    decreases y.len(),
{
    if y.len() == 0 {
        assert(x + y =~= x);
        assert(nonempty_lines(x + y) =~= nonempty_lines(x) + nonempty_lines(y));
    } else {
        lemma_nonempty_concat(x, y.drop_last());
        assert((x + y).drop_last() =~= x + y.drop_last());
        assert((x + y).last() == y.last());
        assert(nonempty_lines(x + y) =~= nonempty_lines(x) + nonempty_lines(y));
    }
}

/// Appending a newline and a clean entry appends exactly that entry to
/// the list. A clean entry is nonempty and free of newlines.
pub proof fn lemma_entry_append(content: Seq<char>, entry: Seq<char>)
    requires
        entry.len() > 0,
        !entry.contains('\n'),
    ensures
        entry_list(content + seq!['\n'] + entry) == entry_list(content).push(entry),
{
    lemma_split_concat(content, entry);
    lemma_split_single(entry);
    let w = content + seq!['\n'] + entry;
    assert(w.len() > 0);
    assert(split_text(w) == split_text(content) + seq![entry]);
    lemma_nonempty_concat(split_text(content), seq![entry]);
    assert(nonempty_lines(seq![entry]) =~= seq![entry]) by {
        assert(seq![entry].drop_last() =~= Seq::<Seq<char>>::empty());
        assert(seq![entry].last() == entry);
        assert(nonempty_lines(Seq::<Seq<char>>::empty()) =~= Seq::<Seq<char>>::empty());
    }
    if content.len() == 0 {
        assert(split_text(content) =~= seq![Seq::<char>::empty()]);
        assert(nonempty_lines(seq![Seq::<char>::empty()]) =~= Seq::<Seq<char>>::empty()) by {
            assert(seq![Seq::<char>::empty()].drop_last() =~= Seq::<Seq<char>>::empty());
            assert(seq![Seq::<char>::empty()].last() =~= Seq::<char>::empty());
            assert(nonempty_lines(Seq::<Seq<char>>::empty()) =~= Seq::<Seq<char>>::empty());
        }
        assert(entry_list(content) =~= Seq::<Seq<char>>::empty());
        assert(entry_list(w) =~= entry_list(content).push(entry));
    } else {
        assert(text_lines(content) == split_text(content));
        assert(entry_list(w) =~= entry_list(content).push(entry));
    }
}

/// The stage: paths queued for the next commit, one per line.
pub struct Stage {
    /// The stage file's content.
    pub content: String,
}

impl Stage {
    /// Opens the stage over existing backing content; a missing backing
    /// file starts empty.
    pub fn init(existing: Option<String>) -> (s: Stage)
        ensures
            match existing {
                Option::Some(c) => s.content@ == c@,
                Option::None => s.content@.len() == 0,
            },
    {
        match existing {
            Option::Some(c) => Stage { content: c },
            Option::None => Stage { content: String::new() },
        }
    }

    /// The staged paths: nonempty lines, in append order.
    pub fn get_files(&self) -> (r: Vec<String>)
        ensures
            views_of(r@) == entry_list(self.content@),
    {
        list_entries(&self.content)
    }

    /// Empties the stage.
    pub fn clear(&mut self)
        ensures
            final(self).content@.len() == 0,
    {
        self.content = String::new();
    }

    /// Appends one path on its own line.
    pub fn add(&mut self, file: String)
        ensures
            final(self).content@ == old(self).content@ + seq!['\n'] + file@,
    {
        push_char(&mut self.content, '\n');
        self.content.append(file.as_str());
    }
}

/// The local tracker: commit ids not yet synced to the remote.
pub struct LocalStage {
    /// The tracker file's content.
    pub content: String,
}

impl LocalStage {
    /// Opens the tracker over existing backing content; a missing backing
    /// file starts empty.
    pub fn init(existing: Option<String>) -> (s: LocalStage)
        ensures
            match existing {
                Option::Some(c) => s.content@ == c@,
                Option::None => s.content@.len() == 0,
            },
    {
        match existing {
            Option::Some(c) => LocalStage { content: c },
            Option::None => LocalStage { content: String::new() },
        }
    }

    /// The recorded commit ids: nonempty lines, in append order.
    pub fn get_files(&self) -> (r: Vec<String>)
        ensures
            views_of(r@) == entry_list(self.content@),
    {
        list_entries(&self.content)
    }

    /// Appends one commit id on its own line.
    pub fn add(&mut self, id: String)
        ensures
            final(self).content@ == old(self).content@ + seq!['\n'] + id@,
    {
        push_char(&mut self.content, '\n');
        self.content.append(id.as_str());
    }
}

/// Lists the nonempty lines of a tracker file's content, in order.
fn list_entries(content: &String) -> (r: Vec<String>)
    ensures
        views_of(r@) == entry_list(content@),
{
    let lines = split_string(content.as_str());
    let n = lines.len();
    let mut out: Vec<String> = Vec::new();
    let mut i: usize = 0;
    while i < n
        invariant
            i <= n,
            n == lines@.len(),
            views_of(lines@) == text_lines(content@),
            views_of(out@) == nonempty_lines(views_of(lines@).subrange(0, i as int)),
        decreases n - i,
    {
        proof {
            let pre = views_of(lines@).subrange(0, i as int);
            assert(views_of(lines@).subrange(0, i + 1 as int) =~= pre.push(
                views_of(lines@)[i as int],
            ));
            assert(pre.push(views_of(lines@)[i as int]).drop_last() =~= pre);
            assert(views_of(lines@)[i as int] == lines@[i as int]@);
        }
        if lines[i].as_str().unicode_len() > 0 {
            out.push(lines[i].clone());
            proof {
                assert(views_of(out@) =~= nonempty_lines(
                    views_of(lines@).subrange(0, i + 1 as int),
                ));
            }
        } else {
            proof {
                assert(views_of(out@) =~= nonempty_lines(
                    views_of(lines@).subrange(0, i + 1 as int),
                ));
            }
        }
        i += 1;
    }
    proof {
        assert(views_of(lines@).subrange(0, n as int) =~= views_of(lines@));
    }
    out
}

// ------------------------------------------------------------------
// Staging the whole tree, with glob exclusions
// ------------------------------------------------------------------

/// Whether a glob list is well formed, as globset's builder decides it.
pub uninterp spec fn glob_set_ok(globs: Seq<Seq<char>>) -> bool;

/// Whether any glob of a well-formed list matches a path, as globset
/// decides it.
pub uninterp spec fn glob_match_of(globs: Seq<Seq<char>>, path: Seq<char>) -> bool;

/// Relies on globset's `Glob::new`, `GlobSetBuilder` and
/// `GlobSet::matches`: whether any of the globs matches the path; fails
/// only when a glob does not compile.
#[verifier::external_body]
fn matches_any(globs: &Vec<String>, path: &String) -> (r: Option<bool>)
    ensures
        (r is Some) == glob_set_ok(crate::text::views_of(globs@)),
        r matches Some(b) ==> b == glob_match_of(crate::text::views_of(globs@), path@),
{
    let mut builder = globset::GlobSetBuilder::new();
    for g in globs {
        match globset::Glob::new(g) {
            Ok(glob) => {
                builder.add(glob);
            },
            Err(_) => return None,
        }
    }
    let set = match builder.build() {
        Ok(s) => s,
        Err(_) => return None,
    };
    Some(set.matches(path).len() != 0)
}

/// Relies on walkdir's `WalkDir`: lists the tree under `root`, each entry
/// as its root-relative path and whether it is a directory. What comes
/// back depends on the disk; nothing is promised of it.
#[verifier::external_body]
fn walk_tree(root: &String) -> (r: Option<Vec<(String, bool)>>)
{
    let mut out = Vec::new();
    for entry in walkdir::WalkDir::new(root).min_depth(1) {
        let e = match entry {
            Ok(e) => e,
            Err(_) => return None,
        };
        let is_dir = e.file_type().is_dir();
        let p = e.path().strip_prefix(root).ok()?.to_str()?.to_string();
        out.push((p, is_dir));
    }
    Some(out)
}

/// A path under the engine's own metadata directory or the host
/// environment's version-control directory: never staged.
pub open spec fn under_meta(p: Seq<char>) -> bool {
    ||| p == ".garden"@
    ||| p.len() >= 8 && p.subrange(0, 8) == ".garden/"@
    ||| p == ".git"@
    ||| p.len() >= 5 && p.subrange(0, 5) == ".git/"@
}

/// Decides `under_meta` on a path.
fn is_under_meta(p: &String) -> (r: bool)
    ensures
        r == under_meta(p@),
{
    proof {
        reveal_strlit(".garden");
        reveal_strlit(".garden/");
        reveal_strlit(".git");
        reveal_strlit(".git/");
    }
    let n = p.as_str().unicode_len();
    if crate::text::str_eq(p.as_str(), ".garden") || crate::text::str_eq(p.as_str(), ".git") {
        return true;
    }
    if n >= 8 && crate::text::str_eq(p.as_str().substring_char(0, 8), ".garden/") {
        return true;
    }
    if n >= 5 && crate::text::str_eq(p.as_str().substring_char(0, 5), ".git/") {
        return true;
    }
    false
}

/// Decides whether a string holds a given character.
fn contains_char(s: &String, c: char) -> (r: bool)
    ensures
        r == s@.contains(c),
{
    let n = s.as_str().unicode_len();
    let mut i: usize = 0;
    while i < n
        invariant
            i <= n,
            n == s@.len(),
            forall|j: int| 0 <= j < i ==> s@[j] != c,
        decreases n - i,
    {
        if s.as_str().get_char(i) == c {
            return true;
        }
        i += 1;
    }
    proof {
        if s@.contains(c) {
            let j = choose|j: int| 0 <= j < s@.len() && s@[j] == c;
            assert(false);
        }
    }
    false
}

/// The paths a walk listing stages: its non-directory entries with
/// clean paths — nonempty, free of newlines — outside the metadata
/// directories and unmatched by the ignore globs, in listing order.
pub open spec fn staged_additions(
    listing: Seq<(String, bool)>,
    globs: Seq<Seq<char>>,
) -> Seq<Seq<char>>
    decreases listing.len(),
{
    if listing.len() == 0 {
        Seq::<Seq<char>>::empty()
    } else {
        let front = staged_additions(listing.drop_last(), globs);
        let e = listing.last();
        if !e.1 && e.0@.len() > 0 && !e.0@.contains('\n') && !under_meta(e.0@)
            && !glob_match_of(globs, e.0@) {
            front.push(e.0@)
        } else {
            front
        }
    }
}

/// Every staged addition is a clean, non-metadata, unmatched path.
pub proof fn lemma_staged_additions_props(listing: Seq<(String, bool)>, globs: Seq<Seq<char>>)
    ensures
        forall|k: int|
            0 <= k < staged_additions(listing, globs).len() ==> {
                let p = #[trigger] staged_additions(listing, globs)[k];
                p.len() > 0 && !p.contains('\n') && !under_meta(p) && !glob_match_of(globs, p)
            },
    decreases listing.len(),
{
    if listing.len() > 0 {
        lemma_staged_additions_props(listing.drop_last(), globs);
        let front = staged_additions(listing.drop_last(), globs);
        let whole = staged_additions(listing, globs);
        assert forall|k: int| 0 <= k < whole.len() implies {
            let p = #[trigger] whole[k];
            p.len() > 0 && !p.contains('\n') && !under_meta(p) && !glob_match_of(globs, p)
        } by {
            if k < front.len() {
                assert(whole[k] == front[k]);
            } else {
                assert(whole == front.push(listing.last().0@));
                assert(whole[k] == listing.last().0@);
            }
        }
    }
}

impl Stage {
    /// Appends exactly the stageable entries of a walk listing, in
    /// listing order: every non-directory entry whose path is clean,
    /// outside the metadata directories and unmatched by the ignore
    /// globs. The globs are validated first: a glob that does not
    /// compile is a value error and the stage is unchanged.
    pub fn stage_listing(
        &mut self,
        listing: &Vec<(String, bool)>,
        ignore_globs: &Vec<String>,
    ) -> (r: Result<(), LilyError>)
        ensures
            glob_set_ok(crate::text::views_of(ignore_globs@)) ==> r is Ok && entry_list(
                final(self).content@,
            ) == entry_list(old(self).content@) + staged_additions(
                listing@,
                crate::text::views_of(ignore_globs@),
            ),
            !glob_set_ok(crate::text::views_of(ignore_globs@)) ==> (r matches Err(e) && e
                == LilyError::ValueError && final(self).content@ == old(self).content@),
    {
        let probe = String::new();
        if matches_any(ignore_globs, &probe).is_none() {
            return Err(LilyError::ValueError);
        }
        let ghost globs = crate::text::views_of(ignore_globs@);
        let n = listing.len();
        let mut i: usize = 0;
        proof {
            assert(staged_additions(listing@.subrange(0, 0), globs) =~= Seq::<Seq<char>>::empty());
            assert(entry_list(self.content@) =~= entry_list(old(self).content@)
                + staged_additions(listing@.subrange(0, 0), globs));
        }
        while i < n
            invariant
                i <= n,
                n == listing@.len(),
                glob_set_ok(globs),
                globs == crate::text::views_of(ignore_globs@),
                entry_list(self.content@) == entry_list(old(self).content@) + staged_additions(
                    listing@.subrange(0, i as int),
                    globs,
                ),
            decreases n - i,
        {
            proof {
                let pre = listing@.subrange(0, i as int);
                assert(listing@.subrange(0, i + 1 as int) =~= pre.push(listing@[i as int]));
                assert(pre.push(listing@[i as int]).drop_last() =~= pre);
            }
            let path = crate::garden::clone_string(&listing[i].0);
            let is_dir = listing[i].1;
            let plen = path.as_str().unicode_len();
            if !is_dir && plen > 0 && !contains_char(&path, '\n') && !is_under_meta(&path) {
                let matched = matches_any(ignore_globs, &path).unwrap();
                if !matched {
                    let ghost before_c = self.content@;
                    proof {
                        lemma_entry_append(before_c, path@);
                    }
                    push_char(&mut self.content, '\n');
                    self.content.append(path.as_str());
                    proof {
                        assert(self.content@ =~= before_c + seq!['\n'] + path@);
                        assert(entry_list(self.content@) =~= entry_list(old(self).content@)
                            + staged_additions(listing@.subrange(0, i + 1 as int), globs));
                    }
                } else {
                    proof {
                        assert(entry_list(self.content@) =~= entry_list(old(self).content@)
                            + staged_additions(listing@.subrange(0, i + 1 as int), globs));
                    }
                }
            } else {
                proof {
                    assert(entry_list(self.content@) =~= entry_list(old(self).content@)
                        + staged_additions(listing@.subrange(0, i + 1 as int), globs));
                }
            }
            i += 1;
        }
        proof {
            assert(listing@.subrange(0, n as int) =~= listing@);
        }
        Ok(())
    }

    /// Walks the working tree under `root` and stages every regular file
    /// whose relative path no supplied glob matches, through
    /// `stage_listing`. Paths under the metadata directory or the host
    /// environment's version-control directory are never staged,
    /// whatever the globs say; directories and paths holding a newline
    /// are skipped. A tree that cannot be walked is a storage error; a
    /// glob that does not compile is a value error, and in both cases
    /// the stage is unchanged.
    pub fn add_glob(&mut self, root: &String, ignore_globs: &Vec<String>) -> (r: Result<
        (),
        LilyError,
    >)
        ensures
            r matches Err(e) ==> final(self).content@ == old(self).content@ && (e
                == LilyError::Other || e == LilyError::ValueError),
            r matches Err(e) && e == LilyError::ValueError ==> !glob_set_ok(
                crate::text::views_of(ignore_globs@),
            ),
            r is Ok ==> glob_set_ok(crate::text::views_of(ignore_globs@)) && (exists|
                listing: Seq<(String, bool)>,
            |
                entry_list(final(self).content@) == entry_list(old(self).content@)
                    + #[trigger] staged_additions(
                    listing,
                    crate::text::views_of(ignore_globs@),
                )),
            r is Ok ==> {
                let before = entry_list(old(self).content@);
                let after = entry_list(final(self).content@);
                &&& after.len() >= before.len()
                &&& after.subrange(0, before.len() as int) == before
                &&& forall|k: int|
                    before.len() <= k < after.len() ==> !under_meta(#[trigger] after[k])
                &&& forall|k: int|
                    before.len() <= k < after.len() ==> !glob_match_of(
                        crate::text::views_of(ignore_globs@),
                        #[trigger] after[k],
                    )
            },
    {
        let listing = match walk_tree(root) {
            Option::Some(l) => l,
            Option::None => {
                return Err(LilyError::Other);
            },
        };
        let ghost listingv = listing@;
        let r = self.stage_listing(&listing, ignore_globs);
        proof {
            if glob_set_ok(crate::text::views_of(ignore_globs@)) {
                let globs = crate::text::views_of(ignore_globs@);
                lemma_staged_additions_props(listingv, globs);
                let before = entry_list(old(self).content@);
                let after = entry_list(self.content@);
                assert(after == before + staged_additions(listingv, globs));
                assert(after.subrange(0, before.len() as int) =~= before);
                assert forall|k: int|
                    before.len() <= k < after.len() implies !under_meta(#[trigger] after[k])
                    && !glob_match_of(globs, after[k]) by {
                    assert(after[k] == staged_additions(listingv, globs)[k - before.len()]);
                }
            }
        }
        r
    }
}

} // verus!
