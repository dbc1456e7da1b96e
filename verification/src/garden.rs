//! The garden: a repository as an explicit value. Branch and commit rows,
//! the object store of snapshot packs, the stage and the local tracker
//! all live in the garden value; every operation on them is verified.
//! Reading and writing the on-disk mirror of this state is the embedding
//! program's concern.

use vstd::prelude::*;

use crate::codec::d_patch;
use crate::codec::parse_patch_text;
use crate::codec::patch_view;
use crate::codec::PatchV;
use crate::model::LilyError;
use crate::pack::gunzip_of;
use crate::patch::Patch;
use crate::smap::map_of;
use crate::smap::SMap;
use crate::stage::LocalStage;
use crate::stage::Stage;

verus! {

/// A branch row.
#[derive(Clone, Debug)]
pub struct Branch {
    /// A unique id assigned at creation.
    pub id: String,
    /// A human-chosen label; not required to be unique.
    pub name: String,
    /// Creation time, in milliseconds since the Unix epoch.
    pub timestamp: u128,
}

/// The mathematical content of a branch row.
pub open spec fn branch_view(b: Branch) -> (Seq<char>, Seq<char>, int) {
    (b.id@, b.name@, b.timestamp as int)
}

/// The mathematical content of a branch table.
pub open spec fn branch_views(bs: Seq<Branch>) -> Seq<(Seq<char>, Seq<char>, int)> {
    bs.map_values(|b: Branch| branch_view(b))
}

/// A stored commit row: the patch is kept compressed, exactly as the
/// metadata store holds it.
#[derive(Debug)]
pub struct CommitRecord {
    /// A unique id assigned at creation.
    pub id: String,
    /// The name of the branch the commit belongs to.
    pub branch: String,
    /// Creation time, in milliseconds since the Unix epoch.
    pub timestamp: u128,
    /// Who created the commit.
    pub author: String,
    /// The author's description of the change.
    pub message: String,
    /// The compressed, serialized patch: a display artifact only.
    pub content: Vec<u8>,
}

/// A commit with its patch decoded.
pub struct Commit {
    /// A unique id assigned at creation.
    pub id: String,
    /// The name of the branch the commit belongs to.
    pub branch: String,
    /// Creation time, in milliseconds since the Unix epoch.
    pub timestamp: u128,
    /// Who created the commit.
    pub author: String,
    /// The author's description of the change.
    pub message: String,
    /// The decoded patch.
    pub content: Patch,
}

/// The patch a stored row decodes to: the compressed bytes must read back
/// as text, the text must parse as a patch with nothing left over; the
/// entries land in a sorted file map.
pub open spec fn rec_patch(rec: CommitRecord) -> Option<PatchV> {
    match gunzip_of(rec.content@) {
        Option::None => Option::None,
        Option::Some(txt) => match d_patch(txt, 0) {
            Option::None => Option::None,
            Option::Some(q) => {
                if q.1 == txt.len() {
                    Option::Some(map_of(q.0))
                } else {
                    Option::None
                }
            },
        },
    }
}

/// Whether a stored row's patch decodes.
pub open spec fn rec_ok(rec: CommitRecord) -> bool {
    rec_patch(rec) is Some
}

/// Whether a decoded commit faithfully presents a stored row.
pub open spec fn commit_matches(c: Commit, rec: CommitRecord) -> bool {
    &&& c.id@ == rec.id@
    &&& c.branch@ == rec.branch@
    &&& c.timestamp == rec.timestamp
    &&& c.author@ == rec.author@
    &&& c.message@ == rec.message@
    &&& c.content.wf()
    &&& rec_patch(rec) == Option::Some(patch_view(c.content))
}

/// Information about a garden's branches.
#[derive(Clone, Debug)]
pub struct GardenBranchConfig {
    /// The default branch.
    pub default: String,
    /// The local current branch.
    pub current: String,
}

impl Default for GardenBranchConfig {
    /// Both pointers start at `main`.
    fn default() -> (r: Self)
        ensures
            r.default@ == "main"@,
            r.current@ == "main"@,
    {
        GardenBranchConfig { default: String::from_str("main"), current: String::from_str("main") }
    }
}

/// Information about a garden.
#[derive(Clone, Debug)]
pub struct GardenInfo {
    /// Configuration for garden branches.
    pub branch: GardenBranchConfig,
    /// The URL of the remote repository to sync to; empty for none.
    pub remote: String,
}

impl Default for GardenInfo {
    /// Default branch pointers and no remote.
    fn default() -> (r: Self)
        ensures
            r.branch.default@ == "main"@,
            r.branch.current@ == "main"@,
            r.remote@.len() == 0,
    {
        GardenInfo { branch: GardenBranchConfig::default(), remote: String::new() }
    }
}

/// A repository of files tracked for version control.
pub struct Garden {
    /// The source location of the garden's files.
    pub source: String,
    /// The info file's content.
    pub info: GardenInfo,
    /// The branch rows.
    pub branches: Vec<Branch>,
    /// The commit rows.
    pub commits: Vec<CommitRecord>,
    /// The object store: pack archive bytes by id.
    pub objects: SMap<Vec<u8>>,
    /// The stage.
    pub stage: Stage,
    /// The local, not-yet-synced commit tracker.
    pub local: LocalStage,
}

// ------------------------------------------------------------------
// Lookups, as first-match scans
// ------------------------------------------------------------------

/// The first branch row carrying `id`.
pub open spec fn find_branch(bs: Seq<Branch>, id: Seq<char>) -> Option<Branch>
    decreases bs.len(),
{
    if bs.len() == 0 {
        Option::None
    } else if bs[0].id@ == id {
        Option::Some(bs[0])
    } else {
        find_branch(bs.drop_first(), id)
    }
}

/// The first branch row carrying `name`.
pub open spec fn find_branch_by_name(bs: Seq<Branch>, name: Seq<char>) -> Option<Branch>
    decreases bs.len(),
{
    if bs.len() == 0 {
        Option::None
    } else if bs[0].name@ == name {
        Option::Some(bs[0])
    } else {
        find_branch_by_name(bs.drop_first(), name)
    }
}

/// The first commit row carrying `id`.
pub open spec fn find_record(rs: Seq<CommitRecord>, id: Seq<char>) -> Option<CommitRecord>
    decreases rs.len(),
{
    if rs.len() == 0 {
        Option::None
    } else if rs[0].id@ == id {
        Option::Some(rs[0])
    } else {
        find_record(rs.drop_first(), id)
    }
}

/// What a position-wise scan finds agrees with `find_branch`.
proof fn lemma_find_branch_at(bs: Seq<Branch>, id: Seq<char>, i: int)
    requires
        0 <= i <= bs.len(),
        forall|j: int| 0 <= j < i ==> (#[trigger] bs[j]).id@ != id,
    ensures
        i < bs.len() && bs[i].id@ == id ==> find_branch(bs, id) == Option::Some(bs[i]),
        i == bs.len() ==> find_branch(bs, id) is None,
    decreases i,
{
    if i > 0 {
        assert(bs[0].id@ != id);
        assert forall|j: int| 0 <= j < i - 1 implies (#[trigger] bs.drop_first()[j]).id@
            != id by {
            assert(bs.drop_first()[j] == bs[j + 1]);
        }
        lemma_find_branch_at(bs.drop_first(), id, i - 1);
        if i < bs.len() {
            assert(bs.drop_first()[i - 1] == bs[i]);
        }
    }
}

/// What a position-wise scan finds agrees with `find_branch_by_name`.
proof fn lemma_find_branch_by_name_at(bs: Seq<Branch>, name: Seq<char>, i: int)
    requires
        0 <= i <= bs.len(),
        forall|j: int| 0 <= j < i ==> (#[trigger] bs[j]).name@ != name,
    ensures
        i < bs.len() && bs[i].name@ == name ==> find_branch_by_name(bs, name) == Option::Some(
            bs[i],
        ),
        i == bs.len() ==> find_branch_by_name(bs, name) is None,
    decreases i,
{
    if i > 0 {
        assert(bs[0].name@ != name);
        assert forall|j: int| 0 <= j < i - 1 implies (#[trigger] bs.drop_first()[j]).name@
            != name by {
            assert(bs.drop_first()[j] == bs[j + 1]);
        }
        lemma_find_branch_by_name_at(bs.drop_first(), name, i - 1);
        if i < bs.len() {
            assert(bs.drop_first()[i - 1] == bs[i]);
        }
    }
}

/// What a position-wise scan finds agrees with `find_record`.
proof fn lemma_find_record_at(rs: Seq<CommitRecord>, id: Seq<char>, i: int)
    requires
        0 <= i <= rs.len(),
        forall|j: int| 0 <= j < i ==> (#[trigger] rs[j]).id@ != id,
    ensures
        i < rs.len() && rs[i].id@ == id ==> find_record(rs, id) == Option::Some(rs[i]),
        i == rs.len() ==> find_record(rs, id) is None,
    decreases i,
{
    if i > 0 {
        assert(rs[0].id@ != id);
        assert forall|j: int| 0 <= j < i - 1 implies (#[trigger] rs.drop_first()[j]).id@
            != id by {
            assert(rs.drop_first()[j] == rs[j + 1]);
        }
        lemma_find_record_at(rs.drop_first(), id, i - 1);
        if i < rs.len() {
            assert(rs.drop_first()[i - 1] == rs[i]);
        }
    }
}

/// The newest commit row: the first among those with the greatest
/// timestamp.
pub open spec fn latest_record(rs: Seq<CommitRecord>) -> Option<CommitRecord>
    decreases rs.len(),
{
    if rs.len() == 0 {
        Option::None
    } else {
        match latest_record(rs.drop_first()) {
            Option::None => Option::Some(rs[0]),
            Option::Some(c) => {
                if rs[0].timestamp >= c.timestamp {
                    Option::Some(rs[0])
                } else {
                    Option::Some(c)
                }
            },
        }
    }
}

/// The newest commit row on a branch: the first among those of the
/// branch with the greatest timestamp.
pub open spec fn latest_branch_record(rs: Seq<CommitRecord>, branch: Seq<char>) -> Option<
    CommitRecord,
>
    decreases rs.len(),
{
    if rs.len() == 0 {
        Option::None
    } else {
        let rest = latest_branch_record(rs.drop_first(), branch);
        if rs[0].branch@ != branch {
            rest
        } else {
            match rest {
                Option::None => Option::Some(rs[0]),
                Option::Some(c) => {
                    if rs[0].timestamp >= c.timestamp {
                        Option::Some(rs[0])
                    } else {
                        Option::Some(c)
                    }
                },
            }
        }
    }
}

/// How the newest-row choice grows when a row is appended at the end.
proof fn lemma_latest_snoc(rs: Seq<CommitRecord>, x: CommitRecord)
    ensures
        latest_record(rs.push(x)) == (match latest_record(rs) {
            Option::None => Option::<CommitRecord>::Some(x),
            Option::Some(c) => {
                if x.timestamp > c.timestamp {
                    Option::<CommitRecord>::Some(x)
                } else {
                    Option::<CommitRecord>::Some(c)
                }
            },
        }),
    decreases rs.len(),
{
    if rs.len() == 0 {
        assert(rs.push(x)[0] == x);
        assert(rs.push(x).drop_first() =~= rs);
    } else {
        assert(rs.push(x)[0] == rs[0]);
        assert(rs.push(x).drop_first() =~= rs.drop_first().push(x));
        lemma_latest_snoc(rs.drop_first(), x);
    }
}

/// How the newest-on-branch choice grows when a row is appended.
proof fn lemma_latest_branch_snoc(rs: Seq<CommitRecord>, branch: Seq<char>, x: CommitRecord)
    ensures
        latest_branch_record(rs.push(x), branch) == (if x.branch@ != branch {
            latest_branch_record(rs, branch)
        } else {
            match latest_branch_record(rs, branch) {
                Option::None => Option::<CommitRecord>::Some(x),
                Option::Some(c) => {
                    if x.timestamp > c.timestamp {
                        Option::<CommitRecord>::Some(x)
                    } else {
                        Option::<CommitRecord>::Some(c)
                    }
                },
            }
        }),
    decreases rs.len(),
{
    if rs.len() == 0 {
        assert(rs.push(x)[0] == x);
        assert(rs.push(x).drop_first() =~= rs);
    } else {
        assert(rs.push(x)[0] == rs[0]);
        assert(rs.push(x).drop_first() =~= rs.drop_first().push(x));
        lemma_latest_branch_snoc(rs.drop_first(), branch, x);
    }
}

// ------------------------------------------------------------------
// Helpers
// ------------------------------------------------------------------

/// Copies a byte vector; the copy holds the same bytes.
pub(crate) fn clone_bytes(v: &Vec<u8>) -> (r: Vec<u8>)
    ensures
        r@ == v@,
{
    let r = v.clone();
    proof {
        assert forall|i: int| 0 <= i < v@.len() implies r@[i] == v@[i] by {
            assert(vstd::pervasive::cloned::<u8>(v[i], r[i]));
        }
        assert(r@ =~= v@);
    }
    r
}

/// A text with its ASCII capitals folded to lower case; every other
/// character is untouched.
pub open spec fn ascii_lower(s: Seq<char>) -> Seq<char> {
    s.map_values(|c: char| ascii_lower_char(c))
}

/// One character, ASCII-case-folded.
pub open spec fn ascii_lower_char(c: char) -> char {
    if 'A' <= c && c <= 'Z' {
        ((c as u32) + 32) as char
    } else {
        c
    }
}

/// Folds a string's ASCII capitals to lower case.
fn ascii_lower_string(s: &String) -> (r: String)
    ensures
        r@ == ascii_lower(s@),
{
    let n = s.as_str().unicode_len();
    let mut out = String::new();
    let mut i: usize = 0;
    while i < n
        invariant
            i <= n,
            n == s@.len(),
            out@ =~= s@.subrange(0, i as int).map_values(|c: char| ascii_lower_char(c)),
        decreases n - i,
    {
        let c = s.as_str().get_char(i);
        let folded = if 'A' <= c && c <= 'Z' {
            proof {
                assert('A' as u32 == 65);
                assert('Z' as u32 == 90);
            }
            (((c as u32) + 32) as u8) as char
        } else {
            c
        };
        proof {
            assert(s@.subrange(0, i + 1 as int) =~= s@.subrange(0, i as int).push(
                s@[i as int],
            ));
            assert(folded == ascii_lower_char(s@[i as int]));
        }
        crate::text::push_char(&mut out, folded);
        proof {
            assert(out@ =~= s@.subrange(0, i + 1 as int).map_values(
                |c2: char| ascii_lower_char(c2),
            ));
        }
        i += 1;
    }
    proof {
        assert(s@.subrange(0, n as int) =~= s@);
        assert(out@ =~= ascii_lower(s@));
    }
    out
}

/// Decodes a stored commit row: decompress, parse, validate.
pub fn decode_record(rec: &CommitRecord) -> (r: Result<Commit, LilyError>)
    ensures
        (r is Ok) == rec_ok(*rec),
        r matches Ok(c) ==> commit_matches(c, *rec),
        r matches Err(e) ==> e == LilyError::ValueError,
{
    let txt = match crate::pack::Pack::decode_vec(clone_bytes(&rec.content)) {
        Ok(t) => t,
        Err(_) => {
            return Err(LilyError::ValueError);
        },
    };
    let patch = match parse_patch_text(txt.as_str()) {
        Option::Some(p) => p,
        Option::None => {
            return Err(LilyError::ValueError);
        },
    };
    Ok(
        Commit {
            id: rec.id.clone(),
            branch: rec.branch.clone(),
            timestamp: rec.timestamp,
            author: rec.author.clone(),
            message: rec.message.clone(),
            content: patch,
        },
    )
}

impl Garden {
    /// The structural invariant: the object store is well formed.
    pub open spec fn wf(&self) -> bool {
        self.objects.wf()
    }

    /// Creates a bare garden: info only, no rows, no objects, empty
    /// stage and tracker.
    pub fn bare(source: String) -> (g: Garden)
        ensures
            g.source == source,
            g.info.branch.default@ == "main"@,
            g.info.branch.current@ == "main"@,
            g.info.remote@.len() == 0,
            g.branches@.len() == 0,
            g.commits@.len() == 0,
            g.objects@.len() == 0,
            g.stage.content@.len() == 0,
            g.local.content@.len() == 0,
            g.wf(),
    {
        Garden {
            source,
            info: GardenInfo::default(),
            branches: Vec::new(),
            commits: Vec::new(),
            objects: SMap::new(),
            stage: Stage::init(Option::None),
            local: LocalStage::init(Option::None),
        }
    }

    /// Initializes the garden: writes the blank pack object and, when no
    /// branch named `main` exists yet, creates the initial `main` branch.
    /// Idempotent: re-running it on an initialized garden changes no row.
    pub fn init(&mut self) -> (r: Result<(), LilyError>)
        requires
            old(self).wf(),
        ensures
            r is Ok,
            final(self).wf(),
            find_branch_by_name(old(self).branches@, "main"@) is Some ==> final(self).branches@
                == old(self).branches@,
            find_branch_by_name(old(self).branches@, "main"@) is None ==> final(self).branches@.len() == old(self).branches@.len() + 1 && final(self).branches@.subrange(
                0,
                old(self).branches@.len() as int,
            ) == old(self).branches@ && final(self).branches@.last().name@ == "main"@ && final(self).branches@.last().id@.len() == 64,
            crate::smap::map_get(final(self).objects@, "blank"@) matches Some(bytes)
                && crate::pack::untargz_of(bytes@) == Option::Some(
                Seq::<(Seq<char>, Seq<char>)>::empty(),
            ),
            final(self).commits@ == old(self).commits@,
            final(self).stage.content@ == old(self).stage.content@,
            final(self).local.content@ == old(self).local.content@,
    {
        let empty_files: SMap<String> = SMap::new();
        proof {
            assert(crate::pack::snapshot_entries(empty_files@) =~= Seq::<
                (Seq<char>, Seq<char>),
            >::empty());
        }
        let blank = crate::pack::Pack::new(&empty_files);
        let ghost bdata = blank.data;
        let key = String::from_str("blank");
        proof {
            reveal_strlit("blank");
        }
        self.objects.insert(key, blank.data);
        proof {
            crate::smap::lemma_map_get_put(old(self).objects@, "blank"@, bdata, "blank"@);
        }
        let main_name = String::from_str("main");
        match self.get_branch_by_name(&main_name) {
            Ok(_) => Ok(()),
            Err(_) => match self.create_branch(main_name) {
                Ok(_) => Ok(()),
                Err(e) => Err(e),
            },
        }
    }

    /// Creates a new branch row with a fresh random id and the current
    /// time; duplicate names are permitted by design.
    pub fn create_branch(&mut self, name: String) -> (r: Result<String, LilyError>)
        requires
            old(self).wf(),
        ensures
            r is Ok,
            final(self).wf(),
            final(self).branches@.len() == old(self).branches@.len() + 1,
            final(self).branches@.subrange(0, old(self).branches@.len() as int) == old(
                self,
            ).branches@,
            final(self).branches@.last().name == name,
            final(self).branches@.last().id@.len() == 64,
            r matches Ok(id) ==> id@ == final(self).branches@.last().id@,
            final(self).commits@ == old(self).commits@,
            final(self).objects@ == old(self).objects@,
            final(self).stage.content@ == old(self).stage.content@,
            final(self).local.content@ == old(self).local.content@,
    {
        let id = crate::util::random_id();
        let timestamp = crate::util::unix_epoch_timestamp();
        let id_copy = clone_string(&id);
        self.branches.push(Branch { id, name, timestamp });
        Ok(id_copy)
    }

    /// Looks a branch up by id; the first row with that id answers.
    pub fn get_branch(&self, id: &String) -> (r: Result<Branch, LilyError>)
        ensures
            match r {
                Ok(b) => find_branch(self.branches@, id@) matches Option::Some(bb)
                    && branch_view(bb) == branch_view(b),
                Err(e) => find_branch(self.branches@, id@) is None && e == LilyError::NotFound,
            },
    {
        let n = self.branches.len();
        let mut i: usize = 0;
        while i < n
            invariant
                i <= n,
                n == self.branches@.len(),
                forall|j: int| 0 <= j < i ==> (#[trigger] self.branches@[j]).id@ != id@,
            decreases n - i,
        {
            if crate::text::str_eq(self.branches[i].id.as_str(), id.as_str()) {
                proof {
                    lemma_find_branch_at(self.branches@, id@, i as int);
                }
                return Ok(clone_branch(&self.branches[i]));
            }
            i += 1;
        }
        proof {
            lemma_find_branch_at(self.branches@, id@, n as int);
        }
        Err(LilyError::NotFound)
    }

    /// Looks a branch up by name; the first row with that name answers.
    pub fn get_branch_by_name(&self, name: &String) -> (r: Result<Branch, LilyError>)
        ensures
            match r {
                Ok(b) => find_branch_by_name(self.branches@, name@) matches Option::Some(bb)
                    && branch_view(bb) == branch_view(b),
                Err(e) => find_branch_by_name(self.branches@, name@) is None && e
                    == LilyError::NotFound,
            },
    {
        let n = self.branches.len();
        let mut i: usize = 0;
        while i < n
            invariant
                i <= n,
                n == self.branches@.len(),
                forall|j: int| 0 <= j < i ==> (#[trigger] self.branches@[j]).name@ != name@,
            decreases n - i,
        {
            if crate::text::str_eq(self.branches[i].name.as_str(), name.as_str()) {
                proof {
                    lemma_find_branch_by_name_at(self.branches@, name@, i as int);
                }
                return Ok(clone_branch(&self.branches[i]));
            }
            i += 1;
        }
        proof {
            lemma_find_branch_by_name_at(self.branches@, name@, n as int);
        }
        Err(LilyError::NotFound)
    }

    /// All branches, newest first. Rows with equal timestamps keep their
    /// table order.
    pub fn get_all_branches(&self) -> (r: Result<Vec<Branch>, LilyError>)
        ensures
            r matches Ok(v) && v@.len() == self.branches@.len(),
            r matches Ok(v) ==> branch_views(v@).to_multiset() == branch_views(
                self.branches@,
            ).to_multiset(),
            r matches Ok(v) ==> forall|i: int, j: int|
                0 <= i < j < v@.len() ==> (#[trigger] v@[i]).timestamp >= (
                #[trigger] v@[j]).timestamp,
    {
        broadcast use vstd::seq_lib::group_to_multiset_ensures;

        let n = self.branches.len();
        let mut rem: Vec<Branch> = Vec::new();
        let mut i: usize = 0;
        while i < n
            invariant
                i <= n,
                n == self.branches@.len(),
                rem@.len() == i,
                branch_views(rem@) =~= branch_views(self.branches@.subrange(0, i as int)),
                forall|j: int|
                    0 <= j < i ==> (#[trigger] rem@[j]).timestamp == self.branches@[j].timestamp,
            decreases n - i,
        {
            let nb = clone_branch(&self.branches[i]);
            let ghost rpre = rem@;
            rem.push(nb);
            proof {
                assert(branch_views(rem@) =~= branch_views(rpre).push(
                    branch_view(self.branches@[i as int]),
                ));
                assert(self.branches@.subrange(0, i + 1 as int) =~= self.branches@.subrange(
                    0,
                    i as int,
                ).push(self.branches@[i as int]));
                assert(branch_views(self.branches@.subrange(0, i + 1 as int))
                    =~= branch_views(self.branches@.subrange(0, i as int)).push(
                    branch_view(self.branches@[i as int]),
                ));
                assert(branch_views(rem@) =~= branch_views(
                    self.branches@.subrange(0, i + 1 as int),
                ));
            }
            i += 1;
        }
        proof {
            assert(self.branches@.subrange(0, n as int) =~= self.branches@);
            assert(branch_views(rem@).to_multiset() == branch_views(
                self.branches@,
            ).to_multiset());
        }
        let ghost orig = branch_views(rem@).to_multiset();
        let mut out: Vec<Branch> = Vec::new();
        while rem.len() > 0
            invariant
                branch_views(out@).to_multiset().add(branch_views(rem@).to_multiset()) =~= orig,
                out@.len() + rem@.len() == n,
                forall|i2: int, j2: int|
                    0 <= i2 < j2 < out@.len() ==> (#[trigger] out@[i2]).timestamp >= (
                    #[trigger] out@[j2]).timestamp,
                forall|i2: int, j2: int|
                    0 <= i2 < out@.len() && 0 <= j2 < rem@.len() ==> (
                    #[trigger] out@[i2]).timestamp >= (#[trigger] rem@[j2]).timestamp,
            decreases rem@.len(),
        {
            let m = rem.len();
            let mut best: usize = 0;
            let mut k: usize = 1;
            while k < m
                invariant
                    best < k <= m,
                    m == rem@.len(),
                    forall|j2: int|
                        0 <= j2 < k ==> rem@[best as int].timestamp >= (
                        #[trigger] rem@[j2]).timestamp,
                decreases m - k,
            {
                if rem[k].timestamp > rem[best].timestamp {
                    best = k;
                }
                k += 1;
            }
            let ghost rpre = rem@;
            let ghost opre = out@;
            let picked = rem.remove(best);
            out.push(picked);
            proof {
                broadcast use vstd::seq_lib::group_to_multiset_ensures;

                let bv = branch_view(rpre[best as int]);
                assert(branch_views(rem@) =~= branch_views(rpre).remove(best as int));
                assert(branch_views(rpre)[best as int] == bv);
                assert(branch_views(rpre).remove(best as int).to_multiset() == branch_views(
                    rpre,
                ).to_multiset().remove(bv));
                assert(branch_views(out@) =~= branch_views(opre).push(bv));
                assert(branch_views(opre).push(bv).to_multiset() == branch_views(
                    opre,
                ).to_multiset().insert(bv));
                assert(branch_views(out@).to_multiset().add(branch_views(rem@).to_multiset())
                    =~= orig);
                assert forall|j2: int| 0 <= j2 < rem@.len() implies picked.timestamp >= (
                #[trigger] rem@[j2]).timestamp by {
                    if j2 < best {
                        assert(rem@[j2] == rpre[j2]);
                    } else {
                        assert(rem@[j2] == rpre[j2 + 1]);
                    }
                }
            }
        }
        Ok(out)
    }
}

// ------------------------------------------------------------------
// Commits
// ------------------------------------------------------------------

/// The content of the working tree at a path: the tracked text, or the
/// empty text for an unreadable or absent file.
pub open spec fn wt_content(wt: Seq<(Seq<char>, String)>, p: Seq<char>) -> Seq<char> {
    match crate::smap::map_get(wt, p) {
        Option::Some(s) => s@,
        Option::None => Seq::<char>::empty(),
    }
}

/// The snapshot entries a staged path list induces over a working tree:
/// each archivable path paired with its current content, in list order.
pub open spec fn staged_entries_spec(
    paths: Seq<Seq<char>>,
    wt: Seq<(Seq<char>, String)>,
) -> Seq<(Seq<char>, Seq<char>)>
    decreases paths.len(),
{
    if paths.len() == 0 {
        Seq::<(Seq<char>, Seq<char>)>::empty()
    } else {
        let front = staged_entries_spec(paths.drop_last(), wt);
        if crate::pack::pack_path_ok(paths.last()) {
            front.push((paths.last(), wt_content(wt, paths.last())))
        } else {
            front
        }
    }
}

/// The snapshot held by pack bytes, when they decode.
pub open spec fn pack_snapshot(bytes: Seq<u8>) -> Option<Seq<(Seq<char>, Seq<char>)>> {
    match crate::pack::untargz_of(bytes) {
        Option::Some(es) => Option::Some(crate::pack::load_snapshot(es)),
        Option::None => Option::None,
    }
}

/// The blank pack's snapshot: empty when no blank object exists, its
/// decoded contents otherwise.
pub open spec fn blank_snapshot(objects: Seq<(Seq<char>, Vec<u8>)>) -> Option<
    Seq<(Seq<char>, Seq<char>)>,
> {
    match crate::smap::map_get(objects, "blank"@) {
        Option::Some(b) => pack_snapshot(b@),
        Option::None => Option::Some(Seq::<(Seq<char>, Seq<char>)>::empty()),
    }
}

/// The snapshot a new commit on `branch` diffs against: the newest commit
/// on that branch, its pack falling back to the blank pack when the
/// object is missing; the blank pack when the branch has no commit.
pub open spec fn base_snapshot_spec(
    objects: Seq<(Seq<char>, Vec<u8>)>,
    commits: Seq<CommitRecord>,
    branch: Seq<char>,
) -> Option<Seq<(Seq<char>, Seq<char>)>> {
    match latest_branch_record(commits, branch) {
        Option::None => blank_snapshot(objects),
        Option::Some(rec) => match crate::smap::map_get(objects, rec.id@) {
            Option::Some(b) => pack_snapshot(b@),
            Option::None => blank_snapshot(objects),
        },
    }
}

/// The previous content of a path: what the base snapshot holds, or the
/// empty text for a path the base does not know.
pub open spec fn prev_content(base: Seq<(Seq<char>, Seq<char>)>, p: Seq<char>) -> Seq<char> {
    match crate::smap::map_get(base, p) {
        Option::Some(c) => c,
        Option::None => Seq::<char>::empty(),
    }
}

/// Whether a change list is exactly the positioned form of some edit
/// script between two texts' lines: deletions at old line indices,
/// highest first, then additions at new line indices, lowest first.
pub open spec fn change_list_from_script(
    pfv: (Seq<char>, Seq<crate::script::LineEdit>),
    old_s: Seq<char>,
    new_s: Seq<char>,
) -> bool {
    exists|sc: Seq<crate::script::ScriptOp>|
        crate::script::script_olds(sc) == crate::text::text_lines(old_s)
            && crate::script::script_news(sc) == crate::text::text_lines(new_s) && pfv.1
            == #[trigger] crate::script::script_changes(sc)
}

/// What a freshly built commit patch says, relative to the staged paths,
/// the working tree and the base snapshot.
pub open spec fn commit_patch_describes(
    pv: PatchV,
    staged: Seq<Seq<char>>,
    wt: Seq<(Seq<char>, String)>,
    base: Seq<(Seq<char>, Seq<char>)>,
) -> bool {
    &&& forall|k: int| 0 <= k < pv.len() ==> (#[trigger] pv[k]).1.1.len() > 0
    &&& forall|p: Seq<char>|
        staged.contains(p) ==> #[trigger] crate::smap::map_get(pv, p) == (
        if prev_content(base, p) == wt_content(wt, p) {
            Option::<(Seq<char>, Seq<crate::script::LineEdit>)>::None
        } else {
            crate::smap::map_get(pv, p)
        })
    &&& forall|p: Seq<char>|
        staged.contains(p) && prev_content(base, p) != wt_content(wt, p) ==> (
        #[trigger] crate::smap::map_get(pv, p) matches Option::Some(pfv) && pfv.0
            == prev_content(base, p) && crate::text::join_lines(
            crate::script::replay(crate::text::text_lines(pfv.0), pfv.1),
        ) == wt_content(wt, p) && change_list_from_script(
            pfv,
            prev_content(base, p),
            wt_content(wt, p),
        ))
    &&& forall|p: Seq<char>|
        !staged.contains(p) && (#[trigger] crate::smap::map_get(base, p) matches Option::Some(c)
            && c.len() > 0) ==> (crate::smap::map_get(pv, p) matches Option::Some(pfv) && pfv.0
            == prev_content(base, p) && pfv.1.len() == crate::text::text_lines(pfv.0).len() && (
        forall|t: int|
            0 <= t < pfv.1.len() ==> (#[trigger] pfv.1[t]).1
                == crate::patch::ChangeMode::Deleted) && crate::text::join_lines(
            crate::script::replay(crate::text::text_lines(pfv.0), pfv.1),
        ) =~= Seq::<char>::empty() && change_list_from_script(
            pfv,
            prev_content(base, p),
            Seq::<char>::empty(),
        ))
    &&& forall|p: Seq<char>|
        #[trigger] crate::smap::map_get(pv, p) is Some ==> staged.contains(p) || crate::smap::map_get(
            base,
            p,
        ) is Some
}

/// A key-preserving value map keeps keys sorted.
proof fn lemma_files_view_sorted(m: Seq<(Seq<char>, crate::patch::PatchFile)>)
    requires
        crate::smap::sorted_keys(m),
    ensures
        crate::smap::sorted_keys(crate::codec::files_map_view(m)),
{
    let fm = crate::codec::files_map_view(m);
    assert forall|i: int, j: int| 0 <= i < j < fm.len() implies crate::text::lex_lt(
        #[trigger] crate::smap::mkey(fm, i),
        #[trigger] crate::smap::mkey(fm, j),
    ) by {
        assert(crate::smap::mkey(fm, i) == crate::smap::mkey(m, i));
        assert(crate::smap::mkey(fm, j) == crate::smap::mkey(m, j));
    }
}

impl Garden {
    /// Sets the current branch pointer; the branch need not exist.
    pub fn set_branch(&mut self, name: String)
        ensures
            final(self).info.branch.current == name,
            final(self).info.branch.default == old(self).info.branch.default,
            final(self).info.remote == old(self).info.remote,
            final(self).branches@ == old(self).branches@,
            final(self).commits@ == old(self).commits@,
            final(self).objects@ == old(self).objects@,
            final(self).stage.content@ == old(self).stage.content@,
            final(self).local.content@ == old(self).local.content@,
    {
        self.info.branch.current = name;
    }

    /// Sets the remote URL.
    pub fn set_remote(&mut self, url: String)
        ensures
            final(self).info.remote == url,
            final(self).info.branch == old(self).info.branch,
            final(self).branches@ == old(self).branches@,
            final(self).commits@ == old(self).commits@,
            final(self).objects@ == old(self).objects@,
            final(self).stage.content@ == old(self).stage.content@,
            final(self).local.content@ == old(self).local.content@,
    {
        self.info.remote = url;
    }

    /// Looks a commit up by id and decodes its patch; the first row
    /// whose id matches the query after ASCII case folding answers, so
    /// an upper-case spelling of a generated hexadecimal id still finds
    /// its commit. A missing id is not found; a row whose stored patch
    /// does not decode is a value error.
    pub fn get_commit(&self, id: &String) -> (r: Result<Commit, LilyError>)
        ensures
            r matches Ok(c) ==> (find_record(self.commits@, ascii_lower(id@))
                matches Option::Some(rec) && commit_matches(c, rec)),
            r matches Err(e) ==> e == LilyError::NotFound || e == LilyError::ValueError,
            r matches Err(e) && e == LilyError::NotFound ==> find_record(
                self.commits@,
                ascii_lower(id@),
            ) is None,
            r matches Err(e) && e == LilyError::ValueError ==> (find_record(
                self.commits@,
                ascii_lower(id@),
            ) matches Option::Some(rec) && !rec_ok(rec)),
    {
        let lowered = ascii_lower_string(id);
        let n = self.commits.len();
        let mut i: usize = 0;
        while i < n
            invariant
                i <= n,
                n == self.commits@.len(),
                lowered@ == ascii_lower(id@),
                forall|j: int|
                    0 <= j < i ==> (#[trigger] self.commits@[j]).id@ != ascii_lower(id@),
            decreases n - i,
        {
            if crate::text::str_eq(self.commits[i].id.as_str(), lowered.as_str()) {
                proof {
                    lemma_find_record_at(self.commits@, ascii_lower(id@), i as int);
                }
                return decode_record(&self.commits[i]);
            }
            i += 1;
        }
        proof {
            lemma_find_record_at(self.commits@, ascii_lower(id@), n as int);
        }
        Err(LilyError::NotFound)
    }

    /// The newest commit overall, decoded. An empty history is not
    /// found; a stored patch that does not decode is a value error.
    pub fn get_latest_commit(&self) -> (r: Result<Commit, LilyError>)
        ensures
            r matches Ok(c) ==> (latest_record(self.commits@) matches Option::Some(rec)
                && commit_matches(c, rec)),
            r matches Err(e) ==> e == LilyError::NotFound || e == LilyError::ValueError,
            r matches Err(e) && e == LilyError::NotFound ==> latest_record(self.commits@)
                is None,
            r matches Err(e) && e == LilyError::ValueError ==> (latest_record(self.commits@)
                matches Option::Some(rec) && !rec_ok(rec)),
    {
        let n = self.commits.len();
        if n == 0 {
            proof {
                assert(self.commits@.subrange(0, 0) =~= self.commits@);
            }
            return Err(LilyError::NotFound);
        }
        let mut best: usize = 0;
        let mut i: usize = 1;
        proof {
            assert(self.commits@.subrange(0, 1) =~= Seq::<CommitRecord>::empty().push(
                self.commits@[0],
            ));
            lemma_latest_snoc(Seq::<CommitRecord>::empty(), self.commits@[0]);
        }
        while i < n
            invariant
                best < i <= n,
                n == self.commits@.len(),
                latest_record(self.commits@.subrange(0, i as int)) == Option::Some(
                    self.commits@[best as int],
                ),
            decreases n - i,
        {
            proof {
                lemma_latest_snoc(self.commits@.subrange(0, i as int), self.commits@[i as int]);
                assert(self.commits@.subrange(0, i + 1 as int) =~= self.commits@.subrange(
                    0,
                    i as int,
                ).push(self.commits@[i as int]));
            }
            if self.commits[i].timestamp > self.commits[best].timestamp {
                best = i;
            }
            i += 1;
        }
        proof {
            assert(self.commits@.subrange(0, n as int) =~= self.commits@);
        }
        decode_record(&self.commits[best])
    }
}

impl Garden {
    /// The snapshot a new commit on `branch` would diff against.
    fn base_snapshot(&self, branch: &String) -> (r: Result<SMap<String>, LilyError>)
        ensures
            (r is Ok) == (base_snapshot_spec(self.objects@, self.commits@, branch@) is Some),
            r matches Ok(m) ==> m.wf() && base_snapshot_spec(self.objects@, self.commits@, branch@)
                == Option::Some(crate::pack::snapshot_entries(m@)),
            r matches Err(e) ==> e == LilyError::ValueError,
    {
        let n = self.commits.len();
        let mut found: bool = false;
        let mut best: usize = 0;
        let mut i: usize = 0;
        proof {
            assert(self.commits@.subrange(0, 0) =~= Seq::<CommitRecord>::empty());
        }
        while i < n
            invariant
                i <= n,
                n == self.commits@.len(),
                found ==> best < i,
                found ==> latest_branch_record(self.commits@.subrange(0, i as int), branch@)
                    == Option::Some(self.commits@[best as int]),
                !found ==> latest_branch_record(self.commits@.subrange(0, i as int), branch@)
                    is None,
            decreases n - i,
        {
            proof {
                lemma_latest_branch_snoc(
                    self.commits@.subrange(0, i as int),
                    branch@,
                    self.commits@[i as int],
                );
                assert(self.commits@.subrange(0, i + 1 as int) =~= self.commits@.subrange(
                    0,
                    i as int,
                ).push(self.commits@[i as int]));
            }
            if crate::text::str_eq(self.commits[i].branch.as_str(), branch.as_str()) {
                if !found {
                    found = true;
                    best = i;
                } else if self.commits[i].timestamp > self.commits[best].timestamp {
                    best = i;
                }
            }
            i += 1;
        }
        proof {
            assert(self.commits@.subrange(0, n as int) =~= self.commits@);
        }
        let bytes: Option<&Vec<u8>> = if found {
            match self.objects.get(self.commits[best].id.as_str()) {
                Option::Some(b) => Option::Some(b),
                Option::None => self.objects.get("blank"),
            }
        } else {
            self.objects.get("blank")
        };
        proof {
            reveal_strlit("blank");
        }
        match bytes {
            Option::Some(b) => {
                let pack = crate::pack::Pack { data: clone_bytes(b) };
                match pack.open() {
                    Ok(m) => Ok(m),
                    Err(_) => Err(LilyError::ValueError),
                }
            },
            Option::None => {
                let m: SMap<String> = SMap::new();
                proof {
                    assert(crate::pack::snapshot_entries(m@) =~= Seq::<
                        (Seq<char>, Seq<char>),
                    >::empty());
                }
                Ok(m)
            },
        }
    }

    /// Creates a new commit on `branch`: diffs every staged path's base
    /// content against its current content in `worktree`, records a full
    /// deletion for every base path no longer staged, writes a full
    /// snapshot pack of the staged files under a fresh id, notes the id
    /// in the local tracker and appends the commit row. The base is the
    /// newest commit on the same branch; the stage is left for the
    /// caller to clear.
    #[verifier::rlimit(100)]
    pub fn create_commit(
        &mut self,
        branch: String,
        message: String,
        author: String,
        worktree: &SMap<String>,
    ) -> (r: Result<String, LilyError>)
        requires
            old(self).wf(),
        ensures
            final(self).wf(),
            (r is Ok) == (base_snapshot_spec(old(self).objects@, old(self).commits@, branch@)
                is Some),
            r matches Err(e) ==> e == LilyError::ValueError && *final(self) == *old(self),
            r matches Ok(id) ==> ({
                let staged = crate::stage::entry_list(old(self).stage.content@);
                let base = base_snapshot_spec(
                    old(self).objects@,
                    old(self).commits@,
                    branch@,
                )->Some_0;
                let rec = final(self).commits@.last();
                &&& id@.len() == 64
                &&& final(self).commits@.len() == old(self).commits@.len() + 1
                &&& final(self).commits@.subrange(0, old(self).commits@.len() as int) == old(
                    self,
                ).commits@
                &&& rec.id@ == id@
                &&& rec.branch@ == branch@
                &&& rec.author@ == author@
                &&& rec.message@ == message@
                &&& (rec_patch(rec) matches Option::Some(pv) && commit_patch_describes(
                    pv,
                    staged,
                    worktree@,
                    base,
                ))
                &&& (crate::smap::map_get(final(self).objects@, id@) matches Option::Some(bytes)
                    && crate::pack::untargz_of(bytes@) == Option::Some(
                    crate::smap::map_of(staged_entries_spec(staged, worktree@)),
                ) && pack_snapshot(bytes@) == Option::Some(
                    crate::smap::map_of(staged_entries_spec(staged, worktree@)),
                ) && final(self).objects@ == crate::smap::map_put(
                    old(self).objects@,
                    id@,
                    bytes,
                ))
                &&& final(self).local.content@ == old(self).local.content@ + seq!['\n'] + id@
                &&& final(self).stage.content@ == old(self).stage.content@
                &&& final(self).branches@ == old(self).branches@
            }),
    {
        let base = match self.base_snapshot(&branch) {
            Ok(m) => m,
            Err(_) => {
                return Err(LilyError::ValueError);
            },
        };
        let ghost basev = crate::pack::snapshot_entries(base@);
        proof {
            lemma_snapshot_view_sorted(base@);
        }
        let staged = self.stage.get_files();
        let ghost stagedv = crate::stage::entry_list(self.stage.content@);
        let ns = staged.len();
        let mut patch = Patch::empty();
        let mut i: usize = 0;
        while i < ns
            invariant
                i <= ns,
                ns == staged@.len(),
                crate::text::views_of(staged@) == stagedv,
                base.wf(),
                crate::pack::snapshot_entries(base@) == basev,
                patch.wf(),
                forall|k: int|
                    0 <= k < patch_view(patch).len() ==> (#[trigger] patch_view(
                        patch,
                    )[k]).1.1.len() > 0,
                forall|p: Seq<char>|
                    #[trigger] crate::smap::map_get(patch_view(patch), p) is Some ==> (exists|
                        j: int,
                    |
                        0 <= j < i && stagedv[j] == p),
                forall|j: int|
                    0 <= j < i ==> #[trigger] crate::smap::map_get(
                        patch_view(patch),
                        stagedv[j],
                    ) == (if prev_content(basev, stagedv[j]) == wt_content(
                        worktree@,
                        stagedv[j],
                    ) {
                        Option::<crate::codec::PatchFileV>::None
                    } else {
                        crate::smap::map_get(patch_view(patch), stagedv[j])
                    }),
                forall|j: int|
                    0 <= j < i && prev_content(basev, stagedv[j]) != wt_content(
                        worktree@,
                        stagedv[j],
                    ) ==> (#[trigger] crate::smap::map_get(patch_view(patch), stagedv[j])
                        matches Option::Some(pfv) && pfv.0 == prev_content(basev, stagedv[j])
                        && crate::text::join_lines(
                        crate::script::replay(crate::text::text_lines(pfv.0), pfv.1),
                    ) == wt_content(worktree@, stagedv[j]) && change_list_from_script(
                        pfv,
                        prev_content(basev, stagedv[j]),
                        wt_content(worktree@, stagedv[j]),
                    )),
            decreases ns - i,
        {
            let path = clone_string(&staged[i]);
            let prev = match base.get(path.as_str()) {
                Option::Some(c) => clone_string(c),
                Option::None => String::new(),
            };
            let cur = match worktree.get(path.as_str()) {
                Option::Some(c) => clone_string(c),
                Option::None => String::new(),
            };
            proof {
                assert(stagedv[i as int] == path@);
                lemma_snapshot_get(base@, path@);
                assert(prev@ == prev_content(basev, path@));
                assert(cur@ == wt_content(worktree@, path@));
            }
            let pf = crate::patch::PatchFile::diff(prev, &cur);
            let ghost pvpre = patch_view(patch);
            if pf.1.len() > 0 {
                let ghost fpre = patch.files@;
                patch.files.insert(path, pf);
                proof {
                    assert(pvpre == crate::codec::files_map_view(fpre));
                    crate::codec::lemma_patch_put(fpre, stagedv[i as int], pf);
                    assert forall|p: Seq<char>| true implies #[trigger] crate::smap::map_get(
                        patch_view(patch),
                        p,
                    ) == (if p == stagedv[i as int] {
                        Option::Some(crate::codec::pf_view(pf))
                    } else {
                        crate::smap::map_get(pvpre, p)
                    }) by {
                        crate::smap::lemma_map_get_put(
                            pvpre,
                            stagedv[i as int],
                            crate::codec::pf_view(pf),
                            p,
                        );
                    }
                    assert forall|k: int| 0 <= k < patch_view(patch).len() implies (
                    #[trigger] patch_view(patch)[k]).1.1.len() > 0 by {
                        crate::smap::lemma_map_put_entry_source(
                            pvpre,
                            stagedv[i as int],
                            crate::codec::pf_view(pf),
                            k,
                        );
                        if patch_view(patch)[k] != (stagedv[i as int], crate::codec::pf_view(
                            pf,
                        )) {
                            let src = choose|src: int|
                                0 <= src < pvpre.len() && pvpre[src] == patch_view(patch)[k];
                            assert(pvpre[src].1.1.len() > 0);
                        } else {
                            assert(crate::codec::pf_view(pf).1.len() == pf.1@.len());
                        }
                    }
                    assert forall|p: Seq<char>|
                        #[trigger] crate::smap::map_get(patch_view(patch), p) is Some implies (
                    exists|j: int| 0 <= j < i + 1 && stagedv[j] == p) by {
                        if p == stagedv[i as int] {
                            assert(0 <= i < i + 1 && stagedv[i as int] == p);
                        } else {
                            assert(crate::smap::map_get(pvpre, p) is Some);
                        }
                    }
                    assert forall|j: int| 0 <= j < i + 1 implies #[trigger] crate::smap::map_get(
                        patch_view(patch),
                        stagedv[j],
                    ) == (if prev_content(basev, stagedv[j]) == wt_content(
                        worktree@,
                        stagedv[j],
                    ) {
                        Option::<crate::codec::PatchFileV>::None
                    } else {
                        crate::smap::map_get(patch_view(patch), stagedv[j])
                    }) by {
                        if stagedv[j] == stagedv[i as int] {
                            assert(prev_content(basev, stagedv[j]) != wt_content(
                                worktree@,
                                stagedv[j],
                            ));
                        }
                    }
                    assert(change_list_from_script(
                        crate::codec::pf_view(pf),
                        prev@,
                        cur@,
                    )) by {
                        let sc = choose|sc: Seq<crate::script::ScriptOp>|
                            crate::script::script_olds(sc) == crate::text::text_lines(prev@)
                                && crate::script::script_news(sc) == crate::text::text_lines(
                                cur@,
                            ) && crate::patch::changes_view(pf.1@)
                                == #[trigger] crate::script::script_changes(sc);
                        assert(crate::codec::pf_view(pf).1 == crate::script::script_changes(
                            sc,
                        ));
                    }
                    assert forall|j: int|
                        0 <= j < i + 1 && prev_content(basev, stagedv[j]) != wt_content(
                            worktree@,
                            stagedv[j],
                        ) implies (#[trigger] crate::smap::map_get(
                        patch_view(patch),
                        stagedv[j],
                    ) matches Option::Some(pfv) && pfv.0 == prev_content(basev, stagedv[j])
                        && crate::text::join_lines(
                        crate::script::replay(crate::text::text_lines(pfv.0), pfv.1),
                    ) == wt_content(worktree@, stagedv[j]) && change_list_from_script(
                        pfv,
                        prev_content(basev, stagedv[j]),
                        wt_content(worktree@, stagedv[j]),
                    )) by {
                        if stagedv[j] == stagedv[i as int] {
                            assert(crate::smap::map_get(patch_view(patch), stagedv[j])
                                == Option::Some(crate::codec::pf_view(pf)));
                            assert(crate::codec::pf_view(pf).0 == prev@);
                        }
                    }
                }
            } else {
                proof {
                    assert(prev@ == cur@);
                    assert forall|j: int| 0 <= j < i + 1 implies #[trigger] crate::smap::map_get(
                        patch_view(patch),
                        stagedv[j],
                    ) == (if prev_content(basev, stagedv[j]) == wt_content(
                        worktree@,
                        stagedv[j],
                    ) {
                        Option::<crate::codec::PatchFileV>::None
                    } else {
                        crate::smap::map_get(patch_view(patch), stagedv[j])
                    }) by {
                        if j == i && crate::smap::map_get(patch_view(patch), stagedv[j])
                            is Some {
                            let j2 = choose|j2: int|
                                0 <= j2 < i && stagedv[j2] == stagedv[i as int];
                            assert(crate::smap::map_get(patch_view(patch), stagedv[j2])
                                is Some);
                        }
                    }
                }
            }
            i += 1;
        }
        proof {
            assert forall|p: Seq<char>|
                stagedv.contains(p) implies #[trigger] crate::smap::map_get(
                patch_view(patch),
                p,
            ) == (if prev_content(basev, p) == wt_content(worktree@, p) {
                Option::<crate::codec::PatchFileV>::None
            } else {
                crate::smap::map_get(patch_view(patch), p)
            }) by {
                let j = choose|j: int| 0 <= j < stagedv.len() && stagedv[j] == p;
            }
            assert forall|p: Seq<char>|
                stagedv.contains(p) && prev_content(basev, p) != wt_content(
                    worktree@,
                    p,
                ) implies (#[trigger] crate::smap::map_get(patch_view(patch), p)
                matches Option::Some(pfv) && pfv.0 == prev_content(basev, p)
                && crate::text::join_lines(
                crate::script::replay(crate::text::text_lines(pfv.0), pfv.1),
            ) == wt_content(worktree@, p) && change_list_from_script(
                pfv,
                prev_content(basev, p),
                wt_content(worktree@, p),
            )) by {
                let j = choose|j: int| 0 <= j < stagedv.len() && stagedv[j] == p;
            }
        }
        // Record a full deletion for every base path no longer staged.
        let nb = base.len();
        let empty_text = String::new();
        let mut b: usize = 0;
        while b < nb
            invariant
                b <= nb,
                ns == staged@.len(),
                crate::text::views_of(staged@) == stagedv,
                base.wf(),
                crate::pack::snapshot_entries(base@) == basev,
                nb == base@.len(),
                empty_text@.len() == 0,
                patch.wf(),
                forall|k: int|
                    0 <= k < patch_view(patch).len() ==> (#[trigger] patch_view(
                        patch,
                    )[k]).1.1.len() > 0,
                forall|p: Seq<char>|
                    #[trigger] crate::smap::map_get(patch_view(patch), p) is Some ==> (
                    stagedv.contains(p) || crate::smap::map_get(basev, p) is Some),
                forall|p: Seq<char>|
                    stagedv.contains(p) ==> #[trigger] crate::smap::map_get(patch_view(patch), p)
                        == (if prev_content(basev, p) == wt_content(worktree@, p) {
                        Option::<crate::codec::PatchFileV>::None
                    } else {
                        crate::smap::map_get(patch_view(patch), p)
                    }),
                forall|p: Seq<char>|
                    stagedv.contains(p) && prev_content(basev, p) != wt_content(worktree@, p)
                        ==> (#[trigger] crate::smap::map_get(patch_view(patch), p)
                        matches Option::Some(pfv) && pfv.0 == prev_content(basev, p)
                        && crate::text::join_lines(
                        crate::script::replay(crate::text::text_lines(pfv.0), pfv.1),
                    ) == wt_content(worktree@, p) && change_list_from_script(
                        pfv,
                        prev_content(basev, p),
                        wt_content(worktree@, p),
                    )),
                forall|j: int|
                    0 <= j < b && !stagedv.contains(#[trigger] crate::smap::mkey(basev, j))
                        && basev[j].1.len() > 0 ==> (crate::smap::map_get(
                        patch_view(patch),
                        crate::smap::mkey(basev, j),
                    ) matches Option::Some(pfv) && pfv.0 == basev[j].1 && pfv.1.len()
                        == crate::text::text_lines(pfv.0).len() && (forall|t: int|
                        0 <= t < pfv.1.len() ==> (#[trigger] pfv.1[t]).1
                            == crate::patch::ChangeMode::Deleted) && crate::text::join_lines(
                        crate::script::replay(crate::text::text_lines(pfv.0), pfv.1),
                    ) == Seq::<char>::empty() && change_list_from_script(
                        pfv,
                        basev[j].1,
                        Seq::<char>::empty(),
                    )),
            decreases nb - b,
        {
            let path = clone_string(base.key_at(b));
            proof {
                assert(path@ == crate::smap::mkey(basev, b as int));
                assert(basev[b as int].1 == base@[b as int].1@);
            }
            let mut is_staged: bool = false;
            let mut t: usize = 0;
            while t < ns
                invariant
                    t <= ns,
                    ns == staged@.len(),
                    crate::text::views_of(staged@) == stagedv,
                    is_staged ==> stagedv.contains(path@),
                    !is_staged ==> forall|j: int| 0 <= j < t ==> stagedv[j] != path@,
                decreases ns - t,
            {
                if crate::text::str_eq(staged[t].as_str(), path.as_str()) {
                    proof {
                        assert(stagedv[t as int] == path@);
                    }
                    is_staged = true;
                }
                t += 1;
            }
            if !is_staged {
                proof {
                    if stagedv.contains(path@) {
                        let j = choose|j: int| 0 <= j < stagedv.len() && stagedv[j] == path@;
                        assert(false);
                    }
                }
                let prev = clone_string(base.val_at(b));
                proof {
                    assert(prev@ == basev[b as int].1);
                }
                let pf = crate::patch::PatchFile::diff(prev, &empty_text);
                let ghost pvpre = patch_view(patch);
                if pf.1.len() > 0 {
                    let ghost fpre = patch.files@;
                    let ghost kb = path@;
                    patch.files.insert(path, pf);
                    proof {
                        assert(pvpre == crate::codec::files_map_view(fpre));
                        crate::codec::lemma_patch_put(fpre, kb, pf);
                        assert forall|p: Seq<char>| true implies #[trigger] crate::smap::map_get(
                            patch_view(patch),
                            p,
                        ) == (if p == kb {
                            Option::Some(crate::codec::pf_view(pf))
                        } else {
                            crate::smap::map_get(pvpre, p)
                        }) by {
                            crate::smap::lemma_map_get_put(
                                pvpre,
                                kb,
                                crate::codec::pf_view(pf),
                                p,
                            );
                        }
                        assert forall|k: int| 0 <= k < patch_view(patch).len() implies (
                        #[trigger] patch_view(patch)[k]).1.1.len() > 0 by {
                            crate::smap::lemma_map_put_entry_source(
                                pvpre,
                                kb,
                                crate::codec::pf_view(pf),
                                k,
                            );
                            if patch_view(patch)[k] != (kb, crate::codec::pf_view(pf)) {
                                let src = choose|src: int|
                                    0 <= src < pvpre.len() && pvpre[src] == patch_view(
                                        patch,
                                    )[k];
                                assert(pvpre[src].1.1.len() > 0);
                            } else {
                                assert(crate::codec::pf_view(pf).1.len() == pf.1@.len());
                            }
                        }
                        lemma_snapshot_view_sorted(base@);
                        lemma_sorted_first_at(basev, b as int);
                        crate::smap::lemma_map_get_at(basev, kb, b as int);
                        assert(crate::smap::map_get(basev, kb) is Some);
                        assert(crate::codec::pf_view(pf).0 == basev[b as int].1);
                        assert(change_list_from_script(
                            crate::codec::pf_view(pf),
                            basev[b as int].1,
                            Seq::<char>::empty(),
                        )) by {
                            assert(prev@ != Seq::<char>::empty());
                            let sc = choose|sc: Seq<crate::script::ScriptOp>|
                                crate::script::script_olds(sc) == crate::text::text_lines(
                                    prev@,
                                ) && crate::script::script_news(sc) == crate::text::text_lines(
                                    empty_text@,
                                ) && crate::patch::changes_view(pf.1@)
                                    == #[trigger] crate::script::script_changes(sc);
                            assert(empty_text@ =~= Seq::<char>::empty());
                            assert(crate::codec::pf_view(pf).1
                                == crate::script::script_changes(sc));
                        }
                    }
                } else {
                    proof {
                        assert(prev@ =~= Seq::<char>::empty());
                        assert(basev[b as int].1.len() == 0);
                    }
                }
            }
            b += 1;
        }
        // The new patch now describes the staged work and the deletions.
        let ghost pv = patch_view(patch);
        proof {
            assert forall|p: Seq<char>|
                !stagedv.contains(p) && (#[trigger] crate::smap::map_get(basev, p)
                    matches Option::Some(c) && c.len() > 0) implies (crate::smap::map_get(pv, p)
                matches Option::Some(pfv) && pfv.0 == prev_content(basev, p) && pfv.1.len()
                == crate::text::text_lines(pfv.0).len() && (forall|t: int|
                0 <= t < pfv.1.len() ==> (#[trigger] pfv.1[t]).1
                    == crate::patch::ChangeMode::Deleted) && crate::text::join_lines(
                crate::script::replay(crate::text::text_lines(pfv.0), pfv.1),
            ) =~= Seq::<char>::empty() && change_list_from_script(
                pfv,
                prev_content(basev, p),
                Seq::<char>::empty(),
            )) by {
                crate::smap::lemma_map_get_some(basev, p);
                let j = choose|j: int| 0 <= j < basev.len() && crate::smap::mkey(basev, j) == p;
                lemma_sorted_first_at(basev, j);
                crate::smap::lemma_map_get_at(basev, p, j);
                assert(basev[j].1.len() > 0);
            }
            assert(commit_patch_describes(pv, stagedv, worktree@, basev));
        }
        // Build the snapshot of the staged files as they now stand.
        let mut snap: SMap<String> = SMap::new();
        proof {
            assert(crate::pack::snapshot_entries(snap@) =~= crate::smap::map_of(
                staged_entries_spec(stagedv.subrange(0, 0), worktree@),
            ));
        }
        let mut j: usize = 0;
        while j < ns
            invariant
                j <= ns,
                ns == staged@.len(),
                crate::text::views_of(staged@) == stagedv,
                snap.wf(),
                crate::pack::snapshot_entries(snap@) == crate::smap::map_of(
                    staged_entries_spec(stagedv.subrange(0, j as int), worktree@),
                ),
                forall|k: int|
                    0 <= k < snap@.len() ==> crate::pack::pack_path_ok(
                        #[trigger] crate::smap::mkey(snap@, k),
                    ),
            decreases ns - j,
        {
            let path = clone_string(&staged[j]);
            proof {
                assert(stagedv[j as int] == path@);
                let pre = stagedv.subrange(0, j as int);
                assert(stagedv.subrange(0, j + 1 as int) =~= pre.push(stagedv[j as int]));
                assert(pre.push(stagedv[j as int]).drop_last() =~= pre);
            }
            if crate::pack::is_pack_path_ok(path.as_str()) {
                let cur = match worktree.get(path.as_str()) {
                    Option::Some(c) => clone_string(c),
                    Option::None => String::new(),
                };
                let ghost curg = cur;
                let ghost spre = snap@;
                proof {
                    assert(crate::pack::pack_path_ok(path@));
                    assert(curg@ == wt_content(worktree@, path@));
                }
                snap.insert(path, cur);
                proof {
                    assert(snap@ == crate::smap::map_put(spre, stagedv[j as int], curg));
                    crate::pack::lemma_snapshot_put(spre, stagedv[j as int], curg);
                    let front = staged_entries_spec(stagedv.subrange(0, j as int), worktree@);
                    let stepped = staged_entries_spec(
                        stagedv.subrange(0, j + 1 as int),
                        worktree@,
                    );
                    assert(stepped == front.push((stagedv[j as int], curg@)));
                    assert(front.push((stagedv[j as int], curg@)).drop_last() =~= front);
                    assert(crate::smap::map_of(stepped) == crate::smap::map_put(
                        crate::smap::map_of(front),
                        stagedv[j as int],
                        curg@,
                    ));
                    assert(crate::pack::snapshot_entries(snap@) == crate::smap::map_of(
                        stepped,
                    ));
                    assert forall|k: int| 0 <= k < snap@.len() implies crate::pack::pack_path_ok(
                        #[trigger] crate::smap::mkey(snap@, k),
                    ) by {
                        crate::smap::lemma_map_put_key_source(spre, stagedv[j as int], curg, k);
                    }
                }
            } else {
                proof {
                    assert(!crate::pack::pack_path_ok(path@));
                    let front = staged_entries_spec(stagedv.subrange(0, j as int), worktree@);
                    assert(staged_entries_spec(stagedv.subrange(0, j + 1 as int), worktree@)
                        == front);
                }
            }
            j += 1;
        }
        proof {
            assert(stagedv.subrange(0, ns as int) =~= stagedv);
        }
        // Persist: pack, tracker entry, commit row.
        proof {
            crate::pack::lemma_archivable_all(snap@);
        }
        let pack = crate::pack::Pack::new(&snap);
        let ghost pdata = pack.data;
        let id = crate::util::random_id();
        let id_ret = clone_string(&id);
        self.local.add(clone_string(&id));
        self.objects.insert(clone_string(&id), pack.data);
        proof {
            crate::smap::lemma_map_get_put(old(self).objects@, id@, pdata, id@);
            crate::smap::lemma_map_of_sorted_keys(staged_entries_spec(stagedv, worktree@));
            crate::pack::lemma_load_snapshot_sorted(
                crate::smap::map_of(staged_entries_spec(stagedv, worktree@)),
            );
        }
        let timestamp = crate::util::unix_epoch_timestamp();
        let txt = crate::codec::encode_patch(&patch);
        let ghost txtv = txt@;
        let content = crate::pack::Pack::from_string(txt);
        proof {
            assert(txtv.subrange(0, txtv.len() as int) =~= txtv);
            crate::codec::lemma_d_patch(txtv, 0, pv);
            lemma_files_view_sorted(patch.files@);
            crate::smap::lemma_map_of_sorted(pv);
        }
        let rec = CommitRecord { id, branch, timestamp, author, message, content };
        self.commits.push(rec);
        Ok(id_ret)
    }
}

/// The commit rows of one branch, in table order.
pub open spec fn recs_of_branch(rs: Seq<CommitRecord>, branch: Seq<char>) -> Seq<CommitRecord>
    decreases rs.len(),
{
    if rs.len() == 0 {
        Seq::<CommitRecord>::empty()
    } else {
        let front = recs_of_branch(rs.drop_last(), branch);
        if rs.last().branch@ == branch {
            front.push(rs.last())
        } else {
            front
        }
    }
}

impl Commit {
    /// The short id: the first ten characters of the id.
    pub fn short(&self) -> (r: String)
        ensures
            self.id@.len() <= 10 ==> r@ == self.id@,
            self.id@.len() > 10 ==> r@ == self.id@.subrange(0, 10),
    {
        let n = self.id.as_str().unicode_len();
        if n <= 10 {
            proof {
                assert(self.id@.subrange(0, n as int) =~= self.id@);
            }
            self.id.as_str().substring_char(0, n).to_owned()
        } else {
            self.id.as_str().substring_char(0, 10).to_owned()
        }
    }
}

impl Garden {
    /// All commits of a branch, decoded, newest first. Rows with equal
    /// timestamps keep their table order. It succeeds exactly when every
    /// row of the branch decodes; the result then presents, commit for
    /// commit, the same rows the table holds for the branch.
    #[verifier::rlimit(100)]
    pub fn get_all_commits(&self, branch: &String) -> (r: Result<Vec<Commit>, LilyError>)
        ensures
            (r is Ok) == branch_recs_ok(self.commits@, branch@),
            r matches Ok(v) ==> v@.len() == recs_of_branch(self.commits@, branch@).len(),
            r matches Ok(v) ==> forall|k: int|
                0 <= k < v@.len() ==> (#[trigger] v@[k]).branch@ == branch@,
            r matches Ok(v) ==> forall|i: int, j: int|
                0 <= i < j < v@.len() ==> (#[trigger] v@[i]).timestamp >= (
                #[trigger] v@[j]).timestamp,
            r matches Ok(v) ==> commit_views(v@).to_multiset() == rec_views(
                recs_of_branch(self.commits@, branch@),
            ).to_multiset(),
            r matches Ok(v) ==> forall|k: int|
                0 <= k < v@.len() ==> exists|ri: int|
                    0 <= ri < self.commits@.len() && commit_matches(
                        #[trigger] v@[k],
                        self.commits@[ri],
                    ),
            r matches Err(e) ==> e == LilyError::ValueError,
    {
        broadcast use vstd::seq_lib::group_to_multiset_ensures;

        let ghost brecs = recs_of_branch(self.commits@, branch@);
        let n = self.commits.len();
        let mut rem: Vec<CommitRecord> = Vec::new();
        let mut i: usize = 0;
        while i < n
            invariant
                i <= n,
                n == self.commits@.len(),
                rec_sigs(rem@) =~= rec_sigs(
                    recs_of_branch(self.commits@.subrange(0, i as int), branch@),
                ),
                rec_views(rem@) =~= rec_views(
                    recs_of_branch(self.commits@.subrange(0, i as int), branch@),
                ),
                forall|k: int|
                    0 <= k < rem@.len() ==> (#[trigger] rem@[k]).branch@ == branch@,
                forall|k: int|
                    0 <= k < rem@.len() ==> exists|ri: int|
                        0 <= ri < n && rec_sig(#[trigger] rem@[k]) == rec_sig(
                            self.commits@[ri],
                        ),
            decreases n - i,
        {
            proof {
                let pre = self.commits@.subrange(0, i as int);
                assert(self.commits@.subrange(0, i + 1 as int) =~= pre.push(
                    self.commits@[i as int],
                ));
                assert(pre.push(self.commits@[i as int]).drop_last() =~= pre);
            }
            if crate::text::str_eq(self.commits[i].branch.as_str(), branch.as_str()) {
                let rc = clone_record(&self.commits[i]);
                let ghost rpre = rem@;
                rem.push(rc);
                proof {
                    lemma_rec_sig_view(rem@.last(), self.commits@[i as int]);
                    let pre = self.commits@.subrange(0, i as int);
                    let stepped = recs_of_branch(
                        self.commits@.subrange(0, i + 1 as int),
                        branch@,
                    );
                    assert(stepped == recs_of_branch(pre, branch@).push(
                        self.commits@[i as int],
                    ));
                    assert(rec_sigs(stepped) =~= rec_sigs(recs_of_branch(pre, branch@)).push(
                        rec_sig(self.commits@[i as int]),
                    ));
                    assert(rec_views(stepped) =~= rec_views(
                        recs_of_branch(pre, branch@),
                    ).push(full_rec_view(self.commits@[i as int])));
                    assert(rec_sigs(rem@) =~= rec_sigs(rpre).push(rec_sig(rem@.last())));
                    assert(rec_views(rem@) =~= rec_views(rpre).push(
                        full_rec_view(rem@.last()),
                    ));
                    assert(rec_sigs(rem@) =~= rec_sigs(stepped));
                    assert(rec_views(rem@) =~= rec_views(stepped));
                }
            } else {
                proof {
                    assert(rec_sigs(rem@) =~= rec_sigs(
                        recs_of_branch(self.commits@.subrange(0, i + 1 as int), branch@),
                    ));
                    assert(rec_views(rem@) =~= rec_views(
                        recs_of_branch(self.commits@.subrange(0, i + 1 as int), branch@),
                    ));
                }
            }
            i += 1;
        }
        proof {
            assert(self.commits@.subrange(0, n as int) =~= self.commits@);
            assert(rec_sigs(rem@).to_multiset() == rec_sigs(brecs).to_multiset());
            assert(rec_views(rem@).to_multiset() == rec_views(brecs).to_multiset());
        }
        let total = rem.len();
        let mut sorted: Vec<CommitRecord> = Vec::new();
        while rem.len() > 0
            invariant
                sorted@.len() + rem@.len() == total,
                total == brecs.len(),
                brecs == recs_of_branch(self.commits@, branch@),
                rec_sigs(sorted@).to_multiset().add(rec_sigs(rem@).to_multiset()) =~= rec_sigs(
                    brecs,
                ).to_multiset(),
                rec_views(sorted@).to_multiset().add(rec_views(rem@).to_multiset())
                    =~= rec_views(brecs).to_multiset(),
                forall|k: int|
                    0 <= k < rem@.len() ==> (#[trigger] rem@[k]).branch@ == branch@,
                forall|k: int|
                    0 <= k < sorted@.len() ==> (#[trigger] sorted@[k]).branch@ == branch@,
                forall|k: int|
                    0 <= k < rem@.len() ==> exists|ri: int|
                        0 <= ri < self.commits@.len() && rec_sig(#[trigger] rem@[k]) == rec_sig(
                            self.commits@[ri],
                        ),
                forall|k: int|
                    0 <= k < sorted@.len() ==> exists|ri: int|
                        0 <= ri < self.commits@.len() && rec_sig(#[trigger] sorted@[k])
                            == rec_sig(self.commits@[ri]),
                forall|i2: int, j2: int|
                    0 <= i2 < j2 < sorted@.len() ==> (#[trigger] sorted@[i2]).timestamp >= (
                    #[trigger] sorted@[j2]).timestamp,
                forall|i2: int, j2: int|
                    0 <= i2 < sorted@.len() && 0 <= j2 < rem@.len() ==> (
                    #[trigger] sorted@[i2]).timestamp >= (#[trigger] rem@[j2]).timestamp,
            decreases rem@.len(),
        {
            let m = rem.len();
            let mut best: usize = 0;
            let mut k: usize = 1;
            while k < m
                invariant
                    best < k <= m,
                    m == rem@.len(),
                    forall|j2: int|
                        0 <= j2 < k ==> rem@[best as int].timestamp >= (
                        #[trigger] rem@[j2]).timestamp,
                decreases m - k,
            {
                if rem[k].timestamp > rem[best].timestamp {
                    best = k;
                }
                k += 1;
            }
            let ghost rpre = rem@;
            let ghost spre = sorted@;
            let picked = rem.remove(best);
            sorted.push(picked);
            proof {
                broadcast use vstd::seq_lib::group_to_multiset_ensures;

                assert(rec_sigs(rem@) =~= rec_sigs(rpre).remove(best as int));
                assert(rec_views(rem@) =~= rec_views(rpre).remove(best as int));
                assert(rec_sigs(rpre)[best as int] == rec_sig(picked));
                assert(rec_views(rpre)[best as int] == full_rec_view(picked));
                assert(rec_sigs(rpre).remove(best as int).to_multiset() == rec_sigs(
                    rpre,
                ).to_multiset().remove(rec_sig(picked)));
                assert(rec_views(rpre).remove(best as int).to_multiset() == rec_views(
                    rpre,
                ).to_multiset().remove(full_rec_view(picked)));
                assert(rec_sigs(sorted@) =~= rec_sigs(spre).push(rec_sig(picked)));
                assert(rec_views(sorted@) =~= rec_views(spre).push(full_rec_view(picked)));
                assert(rec_sigs(spre).push(rec_sig(picked)).to_multiset() == rec_sigs(
                    spre,
                ).to_multiset().insert(rec_sig(picked)));
                assert(rec_views(spre).push(full_rec_view(picked)).to_multiset() == rec_views(
                    spre,
                ).to_multiset().insert(full_rec_view(picked)));
                assert forall|j2: int| 0 <= j2 < rem@.len() implies picked.timestamp >= (
                #[trigger] rem@[j2]).timestamp by {
                    if j2 < best {
                        assert(rem@[j2] == rpre[j2]);
                    } else {
                        assert(rem@[j2] == rpre[j2 + 1]);
                    }
                }
                assert forall|j2: int| 0 <= j2 < rem@.len() implies (
                #[trigger] rem@[j2]).branch@ == branch@ by {
                    if j2 < best {
                        assert(rem@[j2] == rpre[j2]);
                    } else {
                        assert(rem@[j2] == rpre[j2 + 1]);
                    }
                }
                assert forall|j2: int| 0 <= j2 < rem@.len() implies exists|ri: int|
                    0 <= ri < self.commits@.len() && rec_sig(#[trigger] rem@[j2]) == rec_sig(
                        self.commits@[ri],
                    ) by {
                    if j2 < best {
                        assert(rem@[j2] == rpre[j2]);
                    } else {
                        assert(rem@[j2] == rpre[j2 + 1]);
                    }
                }
            }
        }
        let ns = sorted.len();
        let mut out: Vec<Commit> = Vec::new();
        let mut t: usize = 0;
        while t < ns
            invariant
                t <= ns,
                ns == sorted@.len(),
                ns == brecs.len(),
                brecs == recs_of_branch(self.commits@, branch@),
                out@.len() == t,
                rec_sigs(sorted@).to_multiset() =~= rec_sigs(brecs).to_multiset(),
                rec_views(sorted@).to_multiset() =~= rec_views(brecs).to_multiset(),
                forall|k: int|
                    0 <= k < sorted@.len() ==> exists|ri: int|
                        0 <= ri < self.commits@.len() && rec_sig(#[trigger] sorted@[k])
                            == rec_sig(self.commits@[ri]),
                forall|k: int|
                    0 <= k < sorted@.len() ==> (#[trigger] sorted@[k]).branch@ == branch@,
                forall|i2: int, j2: int|
                    0 <= i2 < j2 < sorted@.len() ==> (#[trigger] sorted@[i2]).timestamp >= (
                    #[trigger] sorted@[j2]).timestamp,
                forall|k: int|
                    0 <= k < t ==> commit_matches(#[trigger] out@[k], sorted@[k]),
                forall|k: int| 0 <= k < t ==> rec_ok(#[trigger] sorted@[k]),
                forall|k: int| 0 <= k < t ==> (#[trigger] out@[k]).branch@ == branch@,
                forall|i2: int, j2: int|
                    0 <= i2 < j2 < t ==> (#[trigger] out@[i2]).timestamp >= (
                    #[trigger] out@[j2]).timestamp,
            decreases ns - t,
        {
            let c = match decode_record(&sorted[t]) {
                Ok(c) => c,
                Err(_) => {
                    proof {
                        broadcast use vstd::seq_lib::group_to_multiset_ensures;

                        assert(!branch_recs_ok(self.commits@, branch@)) by {
                            assert(rec_sigs(sorted@)[t as int] == rec_sig(
                                sorted@[t as int],
                            ));
                            assert(rec_sigs(sorted@).contains(rec_sig(sorted@[t as int])));
                            assert(rec_sigs(brecs).to_multiset().count(
                                rec_sig(sorted@[t as int]),
                            ) > 0);
                            assert(rec_sigs(brecs).contains(rec_sig(sorted@[t as int])));
                            let j = choose|j: int|
                                0 <= j < rec_sigs(brecs).len() && rec_sigs(brecs)[j] == rec_sig(
                                    sorted@[t as int],
                                );
                            lemma_rec_sig_view(brecs[j], sorted@[t as int]);
                            assert(!rec_ok(brecs[j]));
                        }
                    }
                    return Err(LilyError::ValueError);
                },
            };
            out.push(c);
            t += 1;
        }
        proof {
            broadcast use vstd::seq_lib::group_to_multiset_ensures;

            assert(branch_recs_ok(self.commits@, branch@)) by {
                assert forall|k: int| 0 <= k < brecs.len() implies rec_ok(
                    #[trigger] brecs[k],
                ) by {
                    assert(rec_sigs(brecs)[k] == rec_sig(brecs[k]));
                    assert(rec_sigs(brecs).contains(rec_sig(brecs[k])));
                    assert(rec_sigs(sorted@).to_multiset().count(rec_sig(brecs[k])) > 0);
                    assert(rec_sigs(sorted@).contains(rec_sig(brecs[k])));
                    let j = choose|j: int|
                        0 <= j < rec_sigs(sorted@).len() && rec_sigs(sorted@)[j] == rec_sig(
                            brecs[k],
                        );
                    lemma_rec_sig_view(sorted@[j], brecs[k]);
                }
            }
            assert(commit_views(out@) =~= rec_views(sorted@)) by {
                assert forall|k: int| 0 <= k < out@.len() implies commit_views(out@)[k]
                    == rec_views(sorted@)[k] by {
                    assert(commit_matches(out@[k], sorted@[k]));
                    assert(csig(out@[k]) == full_rec_view(sorted@[k]));
                }
            }
            assert forall|k: int| 0 <= k < out@.len() implies exists|ri: int|
                0 <= ri < self.commits@.len() && commit_matches(
                    #[trigger] out@[k],
                    self.commits@[ri],
                ) by {
                assert(commit_matches(out@[k], sorted@[k]));
                let ri = choose|ri: int|
                    0 <= ri < self.commits@.len() && rec_sig(sorted@[k]) == rec_sig(
                        self.commits@[ri],
                    );
                lemma_rec_sig_matches(out@[k], sorted@[k], self.commits@[ri]);
            }
        }
        Ok(out)
    }
}

/// Whether every commit row of a branch decodes.
pub open spec fn branch_recs_ok(rs: Seq<CommitRecord>, branch: Seq<char>) -> bool {
    forall|k: int|
        0 <= k < recs_of_branch(rs, branch).len() ==> rec_ok(
            #[trigger] recs_of_branch(rs, branch)[k],
        )
}

/// The mathematical content of a decoded commit.
pub open spec fn csig(c: Commit) -> crate::codec::CommitV {
    (c.id@, c.branch@, c.timestamp as int, c.author@, c.message@, patch_view(c.content))
}

/// The contents of a list of decoded commits.
pub open spec fn commit_views(v: Seq<Commit>) -> Seq<crate::codec::CommitV> {
    v.map_values(|c: Commit| csig(c))
}

/// The raw contents of a list of commit rows.
pub open spec fn rec_sigs(rs: Seq<CommitRecord>) -> Seq<
    (Seq<char>, Seq<char>, int, Seq<char>, Seq<char>, Seq<u8>),
> {
    rs.map_values(|rec: CommitRecord| rec_sig(rec))
}

/// The decoded contents of a list of commit rows.
pub open spec fn rec_views(rs: Seq<CommitRecord>) -> Seq<crate::codec::CommitV> {
    rs.map_values(|rec: CommitRecord| full_rec_view(rec))
}

/// Rows with the same raw content decode alike and present the same row.
proof fn lemma_rec_sig_view(a: CommitRecord, b: CommitRecord)
    requires
        rec_sig(a) == rec_sig(b),
    ensures
        rec_ok(a) == rec_ok(b),
        full_rec_view(a) == full_rec_view(b),
{
    assert(a.content@ == b.content@);
    assert(rec_patch(a) == rec_patch(b));
}

/// The raw content of a commit row, byte level.
pub open spec fn rec_sig(rec: CommitRecord) -> (
    Seq<char>,
    Seq<char>,
    int,
    Seq<char>,
    Seq<char>,
    Seq<u8>,
) {
    (rec.id@, rec.branch@, rec.timestamp as int, rec.author@, rec.message@, rec.content@)
}

/// Rows with the same raw content present the same commits.
proof fn lemma_rec_sig_matches(c: Commit, a: CommitRecord, b: CommitRecord)
    requires
        commit_matches(c, a),
        rec_sig(a) == rec_sig(b),
    ensures
        commit_matches(c, b),
{
    assert(rec_patch(a) == rec_patch(b));
}

/// Copies a commit row field for field.
pub(crate) fn clone_record(rec: &CommitRecord) -> (r: CommitRecord)
    ensures
        rec_sig(r) == rec_sig(*rec),
        r.branch@ == rec.branch@,
        r.timestamp == rec.timestamp,
{
    CommitRecord {
        id: rec.id.clone(),
        branch: rec.branch.clone(),
        timestamp: rec.timestamp,
        author: rec.author.clone(),
        message: rec.message.clone(),
        content: clone_bytes(&rec.content),
    }
}

// ------------------------------------------------------------------
// Transport: the plain-file export tree
// ------------------------------------------------------------------

/// The plain-file form of the metadata store: one text file per branch,
/// one compressed file per commit, with their tree paths.
pub struct ExportTree {
    /// `branches/{name}/branch.json` files and their text.
    pub branch_files: Vec<(String, String)>,
    /// `branches/{name}/commits/{id}.json.gz` files and their bytes.
    pub commit_files: Vec<(String, Vec<u8>)>,
}

/// The branch row a branch file's text holds, when it parses exactly.
pub open spec fn parsed_branch(s: Seq<char>) -> Option<crate::codec::BranchV> {
    match crate::codec::d_branch(s, 0) {
        Option::Some(q) => if q.1 == s.len() {
            Option::Some(q.0)
        } else {
            Option::None
        },
        Option::None => Option::None,
    }
}

/// The commit row a commit file's bytes hold, when they decompress and
/// parse exactly.
pub open spec fn parsed_commit(b: Seq<u8>) -> Option<crate::codec::CommitV> {
    match crate::pack::gunzip_of(b) {
        Option::Some(txt) => match crate::codec::d_commit(txt, 0) {
            Option::Some(q) => if q.1 == txt.len() {
                Option::Some(q.0)
            } else {
                Option::None
            },
            Option::None => Option::None,
        },
        Option::None => Option::None,
    }
}

/// Every parsed branch row sits at its file's index with its id.
pub open spec fn branch_ids_parsed(bf: Seq<(String, String)>, nb: Seq<Branch>) -> bool {
    &&& nb.len() == bf.len()
    &&& forall|j: int|
        0 <= j < nb.len() ==> parsed_branch((#[trigger] bf[j]).1@) is Some && (
        #[trigger] nb[j]).id@ == parsed_branch(bf[j].1@)->Some_0.0
}

/// Every parsed commit row sits at its file's index with its id.
pub open spec fn commit_ids_parsed(cf: Seq<(String, Vec<u8>)>, nr: Seq<CommitRecord>) -> bool {
    &&& nr.len() == cf.len()
    &&& forall|j: int|
        0 <= j < nr.len() ==> parsed_commit((#[trigger] cf[j]).1@) is Some && (
        #[trigger] nr[j]).id@ == parsed_commit(cf[j].1@)->Some_0.0
}

/// When an import is accepted: every branch and commit file parses
/// exactly, and no parsed id repeats one from the store or an earlier
/// file of the tree.
pub open spec fn import_accepted(
    bs: Seq<Branch>,
    rs: Seq<CommitRecord>,
    bf: Seq<(String, String)>,
    cf: Seq<(String, Vec<u8>)>,
) -> bool {
    &&& forall|k: int| 0 <= k < bf.len() ==> parsed_branch((#[trigger] bf[k]).1@) is Some
    &&& forall|k: int| 0 <= k < cf.len() ==> parsed_commit((#[trigger] cf[k]).1@) is Some
    &&& forall|k: int|
        0 <= k < bf.len() ==> find_branch(bs, parsed_branch((#[trigger] bf[k]).1@)->Some_0.0)
            is None
    &&& forall|k1: int, k2: int|
        0 <= k1 < k2 < bf.len() ==> parsed_branch((#[trigger] bf[k1]).1@)->Some_0.0
            != parsed_branch((#[trigger] bf[k2]).1@)->Some_0.0
    &&& forall|k: int|
        0 <= k < cf.len() ==> find_record(rs, parsed_commit((#[trigger] cf[k]).1@)->Some_0.0)
            is None
    &&& forall|k1: int, k2: int|
        0 <= k1 < k2 < cf.len() ==> parsed_commit((#[trigger] cf[k1]).1@)->Some_0.0
            != parsed_commit((#[trigger] cf[k2]).1@)->Some_0.0
}

/// The tree path of a branch file.
pub open spec fn branch_file_path(name: Seq<char>) -> Seq<char> {
    "branches/"@ + name + "/branch.json"@
}

/// The tree path of a commit file.
pub open spec fn commit_file_path(name: Seq<char>, id: Seq<char>) -> Seq<char> {
    "branches/"@ + name + "/commits/"@ + id + ".json.gz"@
}

/// The full row a stored commit presents, patch decoded.
pub open spec fn full_rec_view(rec: CommitRecord) -> crate::codec::CommitV {
    (
        rec.id@,
        rec.branch@,
        rec.timestamp as int,
        rec.author@,
        rec.message@,
        rec_patch(rec)->Some_0,
    )
}

/// Whether every commit row on an exported branch decodes: exactly when
/// `serialize` succeeds.
pub open spec fn export_ready(bs: Seq<Branch>, rs: Seq<CommitRecord>) -> bool {
    forall|bi: int, ri: int|
        0 <= bi < bs.len() && 0 <= ri < rs.len() && (#[trigger] rs[ri]).branch@ == (
        #[trigger] bs[bi]).name@ ==> rec_ok(rs[ri])
}

/// The branch files an export writes, in table order.
pub open spec fn export_branch_files(bs: Seq<Branch>) -> Seq<(Seq<char>, Seq<char>)> {
    bs.map_values(
        |b: Branch| (branch_file_path(b.name@), crate::codec::enc_branch(branch_view(b))),
    )
}

/// The rows behind the commit files an export writes for one branch.
pub open spec fn branch_export_views(b: Branch, rs: Seq<CommitRecord>) -> Seq<
    crate::codec::CommitV,
> {
    recs_of_branch(rs, b.name@).map_values(|rec: CommitRecord| full_rec_view(rec))
}

/// The rows behind all the commit files an export writes.
pub open spec fn export_commit_views(bs: Seq<Branch>, rs: Seq<CommitRecord>) -> Seq<
    crate::codec::CommitV,
>
    decreases bs.len(),
{
    if bs.len() == 0 {
        Seq::<crate::codec::CommitV>::empty()
    } else {
        export_commit_views(bs.drop_last(), rs) + branch_export_views(bs.last(), rs)
    }
}

/// Entry `k` decompresses to the encoding of row `k`.
pub open spec fn files_carry_views(
    cf: Seq<(Seq<char>, Seq<u8>)>,
    cvs: Seq<crate::codec::CommitV>,
) -> bool {
    &&& cf.len() == cvs.len()
    &&& forall|k: int|
        0 <= k < cf.len() ==> crate::pack::gunzip_of((#[trigger] cf[k]).1) == Option::Some(
            crate::codec::enc_commit(cvs[k]),
        )
}

/// The commit files an export writes for one branch, in table order.
pub open spec fn branch_export(b: Branch, rs: Seq<CommitRecord>) -> Seq<(Seq<char>, Seq<u8>)> {
    recs_of_branch(rs, b.name@).map_values(
        |rec: CommitRecord|
            (
                commit_file_path(b.name@, rec.id@),
                crate::pack::gzip_of(crate::codec::enc_commit(full_rec_view(rec))),
            ),
    )
}

/// The commit files an export writes, branch by branch.
pub open spec fn export_commit_files(bs: Seq<Branch>, rs: Seq<CommitRecord>) -> Seq<
    (Seq<char>, Seq<u8>),
>
    decreases bs.len(),
{
    if bs.len() == 0 {
        Seq::<(Seq<char>, Seq<u8>)>::empty()
    } else {
        export_commit_files(bs.drop_last(), rs) + branch_export(bs.last(), rs)
    }
}

/// Appends a literal and pieces to build a tree path.
fn build_branch_path(name: &String) -> (r: String)
    ensures
        r@ == branch_file_path(name@),
{
    proof {
        reveal_strlit("branches/");
        reveal_strlit("/branch.json");
    }
    let mut out = String::from_str("branches/");
    out.append(name.as_str());
    out.append("/branch.json");
    proof {
        assert(out@ =~= branch_file_path(name@));
    }
    out
}

/// Appends a literal and pieces to build a commit's tree path.
fn build_commit_path(name: &String, id: &String) -> (r: String)
    ensures
        r@ == commit_file_path(name@, id@),
{
    proof {
        reveal_strlit("branches/");
        reveal_strlit("/commits/");
        reveal_strlit(".json.gz");
    }
    let mut out = String::from_str("branches/");
    out.append(name.as_str());
    out.append("/commits/");
    out.append(id.as_str());
    out.append(".json.gz");
    proof {
        assert(out@ =~= commit_file_path(name@, id@));
    }
    out
}

impl Garden {
    /// Writes the metadata store as a plain-file tree: per branch its row
    /// as text, and per commit of that branch its full row, patch
    /// decoded and re-encoded, compressed. It succeeds exactly when every
    /// commit row on an exported branch decodes; a row that does not is a
    /// value error.
    pub fn serialize(&self) -> (r: Result<ExportTree, LilyError>)
        ensures
            (r is Ok) == export_ready(self.branches@, self.commits@),
            r matches Ok(t) ==> crate::pack::entries_view(t.branch_files@)
                == export_branch_files(self.branches@),
            r matches Ok(t) ==> crate::pack::raw_entries_view(t.commit_files@)
                == export_commit_files(self.branches@, self.commits@),
            r matches Ok(t) ==> files_carry_views(
                crate::pack::raw_entries_view(t.commit_files@),
                export_commit_views(self.branches@, self.commits@),
            ),
            r matches Err(e) ==> e == LilyError::ValueError,
    {
        let nb = self.branches.len();
        let nr = self.commits.len();
        let mut branch_files: Vec<(String, String)> = Vec::new();
        let mut commit_files: Vec<(String, Vec<u8>)> = Vec::new();
        let mut bi: usize = 0;
        while bi < nb
            invariant
                bi <= nb,
                nb == self.branches@.len(),
                nr == self.commits@.len(),
                forall|bi2: int, ri2: int|
                    0 <= bi2 < bi && 0 <= ri2 < nr && (#[trigger] self.commits@[ri2]).branch@
                        == (#[trigger] self.branches@[bi2]).name@ ==> rec_ok(
                        self.commits@[ri2],
                    ),
                crate::pack::entries_view(branch_files@) == export_branch_files(
                    self.branches@.subrange(0, bi as int),
                ),
                crate::pack::raw_entries_view(commit_files@) == export_commit_files(
                    self.branches@.subrange(0, bi as int),
                    self.commits@,
                ),
                files_carry_views(
                    crate::pack::raw_entries_view(commit_files@),
                    export_commit_views(self.branches@.subrange(0, bi as int), self.commits@),
                ),
            decreases nb - bi,
        {
            let b = &self.branches[bi];
            let path = build_branch_path(&b.name);
            let text = crate::codec::encode_branch(&b.id, &b.name, b.timestamp);
            let ghost bfpre = branch_files@;
            branch_files.push((path, text));
            proof {
                assert(crate::pack::entries_view(branch_files@) =~= crate::pack::entries_view(
                    bfpre,
                ).push(
                    (
                        branch_file_path(self.branches@[bi as int].name@),
                        crate::codec::enc_branch(branch_view(self.branches@[bi as int])),
                    ),
                ));
                assert(self.branches@.subrange(0, bi + 1 as int) =~= self.branches@.subrange(
                    0,
                    bi as int,
                ).push(self.branches@[bi as int]));
                assert(crate::pack::entries_view(branch_files@) =~= export_branch_files(
                    self.branches@.subrange(0, bi + 1 as int),
                ));
            }
            let mut ri: usize = 0;
            while ri < nr
                invariant
                    ri <= nr,
                    bi < nb,
                    nb == self.branches@.len(),
                    nr == self.commits@.len(),
                    forall|bi2: int, ri2: int|
                        0 <= bi2 < bi && 0 <= ri2 < nr && (
                        #[trigger] self.commits@[ri2]).branch@ == (
                        #[trigger] self.branches@[bi2]).name@ ==> rec_ok(self.commits@[ri2]),
                    forall|ri2: int|
                        0 <= ri2 < ri && (#[trigger] self.commits@[ri2]).branch@
                            == self.branches@[bi as int].name@ ==> rec_ok(self.commits@[ri2]),
                    crate::pack::raw_entries_view(commit_files@) == export_commit_files(
                        self.branches@.subrange(0, bi as int),
                        self.commits@,
                    ) + recs_of_branch(
                        self.commits@.subrange(0, ri as int),
                        self.branches@[bi as int].name@,
                    ).map_values(
                        |rec: CommitRecord|
                            (
                                commit_file_path(self.branches@[bi as int].name@, rec.id@),
                                crate::pack::gzip_of(
                                    crate::codec::enc_commit(full_rec_view(rec)),
                                ),
                            ),
                    ),
                    files_carry_views(
                        crate::pack::raw_entries_view(commit_files@),
                        export_commit_views(
                            self.branches@.subrange(0, bi as int),
                            self.commits@,
                        ) + branch_export_views(
                            self.branches@[bi as int],
                            self.commits@.subrange(0, ri as int),
                        ),
                    ),
                decreases nr - ri,
            {
                proof {
                    let pre = self.commits@.subrange(0, ri as int);
                    assert(self.commits@.subrange(0, ri + 1 as int) =~= pre.push(
                        self.commits@[ri as int],
                    ));
                    assert(pre.push(self.commits@[ri as int]).drop_last() =~= pre);
                }
                if crate::text::str_eq(
                    self.commits[ri].branch.as_str(),
                    self.branches[bi].name.as_str(),
                ) {
                    let c = match decode_record(&self.commits[ri]) {
                        Ok(c) => c,
                        Err(_) => {
                            proof {
                                assert(!export_ready(self.branches@, self.commits@)) by {
                                    assert(self.commits@[ri as int].branch@
                                        == self.branches@[bi as int].name@);
                                    assert(!rec_ok(self.commits@[ri as int]));
                                }
                            }
                            return Err(LilyError::ValueError);
                        },
                    };
                    let txt = crate::codec::encode_commit(
                        &c.id,
                        &c.branch,
                        c.timestamp,
                        &c.author,
                        &c.message,
                        &c.content,
                    );
                    let bytes = crate::pack::Pack::from_string(txt);
                    let cpath = build_commit_path(&self.branches[bi].name, &c.id);
                    let ghost cfpre = commit_files@;
                    commit_files.push((cpath, bytes));
                    proof {
                        let rec = self.commits@[ri as int];
                        assert(full_rec_view(rec) == (
                            c.id@,
                            c.branch@,
                            c.timestamp as int,
                            c.author@,
                            c.message@,
                            crate::codec::patch_view(c.content),
                        ));
                        assert(crate::pack::raw_entries_view(commit_files@)
                            =~= crate::pack::raw_entries_view(cfpre).push(
                            (
                                commit_file_path(self.branches@[bi as int].name@, rec.id@),
                                crate::pack::gzip_of(
                                    crate::codec::enc_commit(full_rec_view(rec)),
                                ),
                            ),
                        ));
                        assert(crate::pack::raw_entries_view(commit_files@)
                            =~= export_commit_files(
                            self.branches@.subrange(0, bi as int),
                            self.commits@,
                        ) + recs_of_branch(
                            self.commits@.subrange(0, ri + 1 as int),
                            self.branches@[bi as int].name@,
                        ).map_values(
                            |rec2: CommitRecord|
                                (
                                    commit_file_path(
                                        self.branches@[bi as int].name@,
                                        rec2.id@,
                                    ),
                                    crate::pack::gzip_of(
                                        crate::codec::enc_commit(full_rec_view(rec2)),
                                    ),
                                ),
                        ));
                        assert(branch_export_views(
                            self.branches@[bi as int],
                            self.commits@.subrange(0, ri + 1 as int),
                        ) =~= branch_export_views(
                            self.branches@[bi as int],
                            self.commits@.subrange(0, ri as int),
                        ).push(full_rec_view(rec)));
                        assert(files_carry_views(
                            crate::pack::raw_entries_view(commit_files@),
                            export_commit_views(
                                self.branches@.subrange(0, bi as int),
                                self.commits@,
                            ) + branch_export_views(
                                self.branches@[bi as int],
                                self.commits@.subrange(0, ri + 1 as int),
                            ),
                        ));
                    }
                } else {
                    proof {
                        assert(crate::pack::raw_entries_view(commit_files@)
                            =~= export_commit_files(
                            self.branches@.subrange(0, bi as int),
                            self.commits@,
                        ) + recs_of_branch(
                            self.commits@.subrange(0, ri + 1 as int),
                            self.branches@[bi as int].name@,
                        ).map_values(
                            |rec2: CommitRecord|
                                (
                                    commit_file_path(
                                        self.branches@[bi as int].name@,
                                        rec2.id@,
                                    ),
                                    crate::pack::gzip_of(
                                        crate::codec::enc_commit(full_rec_view(rec2)),
                                    ),
                                ),
                        ));
                        assert(branch_export_views(
                            self.branches@[bi as int],
                            self.commits@.subrange(0, ri + 1 as int),
                        ) =~= branch_export_views(
                            self.branches@[bi as int],
                            self.commits@.subrange(0, ri as int),
                        ));
                    }
                }
                ri += 1;
            }
            proof {
                assert(self.commits@.subrange(0, nr as int) =~= self.commits@);
                assert(self.branches@.subrange(0, bi + 1 as int).drop_last()
                    =~= self.branches@.subrange(0, bi as int));
                assert(self.branches@.subrange(0, bi + 1 as int).last()
                    == self.branches@[bi as int]);
                assert(crate::pack::raw_entries_view(commit_files@) =~= export_commit_files(
                    self.branches@.subrange(0, bi + 1 as int),
                    self.commits@,
                ));
                assert(export_commit_views(
                    self.branches@.subrange(0, bi + 1 as int),
                    self.commits@,
                ) =~= export_commit_views(self.branches@.subrange(0, bi as int), self.commits@)
                    + branch_export_views(self.branches@[bi as int], self.commits@));
            }
            bi += 1;
        }
        proof {
            assert(self.branches@.subrange(0, nb as int) =~= self.branches@);
            assert(export_ready(self.branches@, self.commits@));
        }
        Ok(ExportTree { branch_files, commit_files })
    }

    /// Reads a plain-file tree back into the store: every branch file and
    /// commit file is parsed and validated first; a row whose id is
    /// already present, in the store or earlier in the tree, is rejected
    /// and nothing is changed. It succeeds exactly when every file parses
    /// and no id collides.
    #[verifier::rlimit(100)]
    pub fn deserialize(&mut self, tree: &ExportTree) -> (r: Result<(), LilyError>)
        ensures
            (r is Ok) == import_accepted(
                old(self).branches@,
                old(self).commits@,
                tree.branch_files@,
                tree.commit_files@,
            ),
            r matches Err(e) ==> *final(self) == *old(self) && (e == LilyError::ValueError || e
                == LilyError::MustBeUnique),
            r is Ok ==> final(self).branches@.len() == old(self).branches@.len()
                + tree.branch_files@.len(),
            r is Ok ==> final(self).branches@.subrange(0, old(self).branches@.len() as int)
                == old(self).branches@,
            r is Ok ==> forall|k: int|
                0 <= k < tree.branch_files@.len() ==> (crate::codec::d_branch(
                    (#[trigger] tree.branch_files@[k]).1@,
                    0,
                ) matches Option::Some(q) && q.1 == tree.branch_files@[k].1@.len()
                    && branch_view(
                    final(self).branches@[old(self).branches@.len() + k],
                ) == q.0),
            r is Ok ==> final(self).commits@.len() == old(self).commits@.len()
                + tree.commit_files@.len(),
            r is Ok ==> final(self).commits@.subrange(0, old(self).commits@.len() as int) == old(
                self,
            ).commits@,
            r is Ok ==> forall|k: int|
                0 <= k < tree.commit_files@.len() ==> (crate::pack::gunzip_of(
                    (#[trigger] tree.commit_files@[k]).1@,
                ) matches Option::Some(txt) && (crate::codec::d_commit(txt, 0)
                    matches Option::Some(q) && q.1 == txt.len() && ({
                    let rec = final(self).commits@[old(self).commits@.len() + k];
                    &&& rec.id@ == q.0.0
                    &&& rec.branch@ == q.0.1
                    &&& rec.timestamp as int == q.0.2
                    &&& rec.author@ == q.0.3
                    &&& rec.message@ == q.0.4
                    &&& rec_patch(rec) == Option::Some(crate::smap::map_of(q.0.5))
                }))),
            final(self).objects@ == old(self).objects@,
            final(self).stage.content@ == old(self).stage.content@,
            final(self).local.content@ == old(self).local.content@,
    {
        let nb = tree.branch_files.len();
        let mut new_branches: Vec<Branch> = Vec::new();
        let mut k: usize = 0;
        while k < nb
            invariant
                k <= nb,
                nb == tree.branch_files@.len(),
                new_branches@.len() == k,
                forall|j: int|
                    0 <= j < k ==> (crate::codec::d_branch(
                        (#[trigger] tree.branch_files@[j]).1@,
                        0,
                    ) matches Option::Some(q) && q.1 == tree.branch_files@[j].1@.len()
                        && branch_view(new_branches@[j]) == q.0),
            decreases nb - k,
        {
            let (id, name, ts) = match crate::codec::parse_branch_text(
                tree.branch_files[k].1.as_str(),
            ) {
                Option::Some(t) => t,
                Option::None => {
                    proof {
                        assert(parsed_branch(tree.branch_files@[k as int].1@) is None);
                    }
                    return Err(LilyError::ValueError);
                },
            };
            new_branches.push(Branch { id, name, timestamp: ts });
            proof {
                assert(parsed_branch(tree.branch_files@[k as int].1@) is Some);
            }
            k += 1;
        }
        let nc = tree.commit_files.len();
        let mut new_records: Vec<CommitRecord> = Vec::new();
        let mut k2: usize = 0;
        while k2 < nc
            invariant
                k2 <= nc,
                nc == tree.commit_files@.len(),
                new_records@.len() == k2,
                forall|j: int|
                    0 <= j < k2 ==> (crate::pack::gunzip_of(
                        (#[trigger] tree.commit_files@[j]).1@,
                    ) matches Option::Some(txt) && (crate::codec::d_commit(txt, 0)
                        matches Option::Some(q) && q.1 == txt.len() && ({
                        let rec = new_records@[j];
                        &&& rec.id@ == q.0.0
                        &&& rec.branch@ == q.0.1
                        &&& rec.timestamp as int == q.0.2
                        &&& rec.author@ == q.0.3
                        &&& rec.message@ == q.0.4
                        &&& rec_patch(rec) == Option::Some(crate::smap::map_of(q.0.5))
                    }))),
            decreases nc - k2,
        {
            let txt = match crate::pack::Pack::decode_vec(
                clone_bytes(&tree.commit_files[k2].1),
            ) {
                Ok(t) => t,
                Err(_) => {
                    proof {
                        assert(parsed_commit(tree.commit_files@[k2 as int].1@) is None);
                    }
                    return Err(LilyError::ValueError);
                },
            };
            let parsed = match crate::codec::parse_commit_text(txt.as_str()) {
                Option::Some(t) => t,
                Option::None => {
                    proof {
                        assert(parsed_commit(tree.commit_files@[k2 as int].1@) is None);
                    }
                    return Err(LilyError::ValueError);
                },
            };
            let (id, branch, ts, author, message, patch) = parsed;
            let body = crate::codec::encode_patch(&patch);
            let ghost bodyv = body@;
            let content = crate::pack::Pack::from_string(body);
            proof {
                assert(bodyv.subrange(0, bodyv.len() as int) =~= bodyv);
                crate::codec::lemma_d_patch(bodyv, 0, crate::codec::patch_view(patch));
                lemma_files_view_sorted(patch.files@);
                crate::smap::lemma_map_of_sorted(crate::codec::patch_view(patch));
            }
            new_records.push(
                CommitRecord { id, branch, timestamp: ts, author, message, content },
            );
            proof {
                assert(parsed_commit(tree.commit_files@[k2 as int].1@) is Some);
            }
            k2 += 1;
        }
        // Reject any id already present in the store or earlier in the
        // tree.
        proof {
            assert(branch_ids_parsed(tree.branch_files@, new_branches@));
            assert(commit_ids_parsed(tree.commit_files@, new_records@));
        }
        let mut c1: usize = 0;
        while c1 < new_branches.len()
            invariant
                c1 <= new_branches@.len(),
                *self == *old(self),
                branch_ids_parsed(tree.branch_files@, new_branches@),
                forall|j: int|
                    0 <= j < c1 ==> find_branch(
                        self.branches@,
                        (#[trigger] new_branches@[j]).id@,
                    ) is None,
                forall|j1: int, j2: int|
                    0 <= j1 < j2 < c1 ==> (#[trigger] new_branches@[j1]).id@ != (
                    #[trigger] new_branches@[j2]).id@,
            decreases new_branches@.len() - c1,
        {
            match self.get_branch(&new_branches[c1].id) {
                Ok(_) => {
                    proof {
                        assert(find_branch(
                            old(self).branches@,
                            parsed_branch(tree.branch_files@[c1 as int].1@)->Some_0.0,
                        ) is Some);
                    }
                    return Err(LilyError::MustBeUnique);
                },
                Err(_) => {},
            }
            let mut c0: usize = 0;
            while c0 < c1
                invariant
                    c0 <= c1 < new_branches@.len() + 1,
                    c1 < new_branches@.len(),
                    branch_ids_parsed(tree.branch_files@, new_branches@),
                    forall|j: int|
                        0 <= j < c0 ==> (#[trigger] new_branches@[j]).id@ != new_branches@[c1 as int].id@,
                decreases c1 - c0,
            {
                if crate::text::str_eq(
                    new_branches[c0].id.as_str(),
                    new_branches[c1].id.as_str(),
                ) {
                    proof {
                        assert(parsed_branch(tree.branch_files@[c0 as int].1@)->Some_0.0
                            == parsed_branch(tree.branch_files@[c1 as int].1@)->Some_0.0);
                    }
                    return Err(LilyError::MustBeUnique);
                }
                c0 += 1;
            }
            c1 += 1;
        }
        let mut c2: usize = 0;
        while c2 < new_records.len()
            invariant
                c2 <= new_records@.len(),
                *self == *old(self),
                commit_ids_parsed(tree.commit_files@, new_records@),
                forall|j: int|
                    0 <= j < c2 ==> find_record(
                        self.commits@,
                        (#[trigger] new_records@[j]).id@,
                    ) is None,
                forall|j1: int, j2: int|
                    0 <= j1 < j2 < c2 ==> (#[trigger] new_records@[j1]).id@ != (
                    #[trigger] new_records@[j2]).id@,
            decreases new_records@.len() - c2,
        {
            let mut c3: usize = 0;
            let n3 = self.commits.len();
            while c3 < n3
                invariant
                    c3 <= n3,
                    n3 == self.commits@.len(),
                    c2 < new_records@.len(),
                    *self == *old(self),
                    commit_ids_parsed(tree.commit_files@, new_records@),
                    forall|j: int|
                        0 <= j < c3 ==> (#[trigger] self.commits@[j]).id@ != new_records@[c2 as int].id@,
                decreases n3 - c3,
            {
                if crate::text::str_eq(
                    self.commits[c3].id.as_str(),
                    new_records[c2].id.as_str(),
                ) {
                    proof {
                        lemma_find_record_at(self.commits@, new_records@[c2 as int].id@, c3 as int);
                        assert(find_record(
                            old(self).commits@,
                            parsed_commit(tree.commit_files@[c2 as int].1@)->Some_0.0,
                        ) is Some);
                    }
                    return Err(LilyError::MustBeUnique);
                }
                c3 += 1;
            }
            proof {
                lemma_find_record_at(self.commits@, new_records@[c2 as int].id@, n3 as int);
            }
            let mut c4: usize = 0;
            while c4 < c2
                invariant
                    c4 <= c2 < new_records@.len() + 1,
                    c2 < new_records@.len(),
                    commit_ids_parsed(tree.commit_files@, new_records@),
                    forall|j: int|
                        0 <= j < c4 ==> (#[trigger] new_records@[j]).id@ != new_records@[c2 as int].id@,
                decreases c2 - c4,
            {
                if crate::text::str_eq(
                    new_records[c4].id.as_str(),
                    new_records[c2].id.as_str(),
                ) {
                    proof {
                        assert(parsed_commit(tree.commit_files@[c4 as int].1@)->Some_0.0
                            == parsed_commit(tree.commit_files@[c2 as int].1@)->Some_0.0);
                    }
                    return Err(LilyError::MustBeUnique);
                }
                c4 += 1;
            }
            c2 += 1;
        }
        proof {
            assert forall|k: int| 0 <= k < tree.branch_files@.len() implies find_branch(
                old(self).branches@,
                parsed_branch((#[trigger] tree.branch_files@[k]).1@)->Some_0.0,
            ) is None by {
                assert(new_branches@[k].id@ == parsed_branch(
                    tree.branch_files@[k].1@,
                )->Some_0.0);
            }
            assert forall|k1: int, k2: int|
                0 <= k1 < k2 < tree.branch_files@.len() implies parsed_branch(
                (#[trigger] tree.branch_files@[k1]).1@,
            )->Some_0.0 != parsed_branch((#[trigger] tree.branch_files@[k2]).1@)->Some_0.0 by {
                assert(new_branches@[k1].id@ != new_branches@[k2].id@);
            }
            assert forall|k: int| 0 <= k < tree.commit_files@.len() implies find_record(
                old(self).commits@,
                parsed_commit((#[trigger] tree.commit_files@[k]).1@)->Some_0.0,
            ) is None by {
                assert(new_records@[k].id@ == parsed_commit(
                    tree.commit_files@[k].1@,
                )->Some_0.0);
            }
            assert forall|k1: int, k2: int|
                0 <= k1 < k2 < tree.commit_files@.len() implies parsed_commit(
                (#[trigger] tree.commit_files@[k1]).1@,
            )->Some_0.0 != parsed_commit((#[trigger] tree.commit_files@[k2]).1@)->Some_0.0 by {
                assert(new_records@[k1].id@ != new_records@[k2].id@);
            }
            assert(import_accepted(
                old(self).branches@,
                old(self).commits@,
                tree.branch_files@,
                tree.commit_files@,
            ));
        }
        // Append everything.
        let ghost added_b = new_branches@;
        let ghost added_r = new_records@;
        let na1 = new_branches.len();
        while new_branches.len() > 0
            invariant
                self.branches@.len() == old(self).branches@.len() + (na1
                    - new_branches@.len()),
                na1 == added_b.len(),
                new_branches@.len() <= na1,
                self.branches@.subrange(0, old(self).branches@.len() as int) =~= old(
                    self,
                ).branches@,
                new_branches@ =~= added_b.subrange(
                    (na1 - new_branches@.len()) as int,
                    na1 as int,
                ),
                forall|j: int|
                    0 <= j < na1 - new_branches@.len() ==> self.branches@[old(
                        self,
                    ).branches@.len() + j] == added_b[j],
                self.commits@ == old(self).commits@,
                self.objects@ == old(self).objects@,
                self.stage.content@ == old(self).stage.content@,
                self.local.content@ == old(self).local.content@,
                self.info == old(self).info,
            decreases new_branches@.len(),
        {
            let ghost done = na1 - new_branches@.len();
            let b = new_branches.remove(0);
            proof {
                assert(b == added_b[done as int]);
                assert(new_branches@ =~= added_b.subrange(done + 1 as int, na1 as int));
            }
            let ghost bpre = self.branches@;
            self.branches.push(b);
            proof {
                assert(self.branches@.subrange(0, old(self).branches@.len() as int)
                    =~= bpre.subrange(0, old(self).branches@.len() as int));
            }
        }
        let na2 = new_records.len();
        while new_records.len() > 0
            invariant
                self.commits@.len() == old(self).commits@.len() + (na2 - new_records@.len()),
                na2 == added_r.len(),
                new_records@.len() <= na2,
                self.commits@.subrange(0, old(self).commits@.len() as int) =~= old(
                    self,
                ).commits@,
                new_records@ =~= added_r.subrange(
                    (na2 - new_records@.len()) as int,
                    na2 as int,
                ),
                forall|j: int|
                    0 <= j < na2 - new_records@.len() ==> self.commits@[old(
                        self,
                    ).commits@.len() + j] == added_r[j],
                self.branches@.len() == old(self).branches@.len() + na1,
                self.branches@.subrange(0, old(self).branches@.len() as int) =~= old(
                    self,
                ).branches@,
                forall|j: int|
                    0 <= j < na1 ==> self.branches@[old(self).branches@.len() + j]
                        == added_b[j],
                self.objects@ == old(self).objects@,
                self.stage.content@ == old(self).stage.content@,
                self.local.content@ == old(self).local.content@,
                self.info == old(self).info,
            decreases new_records@.len(),
        {
            let ghost done = na2 - new_records@.len();
            let rec = new_records.remove(0);
            proof {
                assert(rec == added_r[done as int]);
                assert(new_records@ =~= added_r.subrange(done + 1 as int, na2 as int));
            }
            let ghost cpre = self.commits@;
            self.commits.push(rec);
            proof {
                assert(self.commits@.subrange(0, old(self).commits@.len() as int)
                    =~= cpre.subrange(0, old(self).commits@.len() as int));
            }
        }
        Ok(())
    }
}

/// The law of the export: every branch file the export writes parses
/// back to exactly the branch row that wrote it. Together with the
/// commit codec's round trip and the compression boundary's read-back
/// promise, importing an export restores equivalent rows.
pub proof fn lemma_branch_export_reads_back(bs: Seq<Branch>)
    requires
        forall|k: int| 0 <= k < bs.len() ==> crate::codec::branch_ok(
            branch_view(#[trigger] bs[k]),
        ),
    ensures
        forall|k: int|
            0 <= k < bs.len() ==> (crate::codec::d_branch(
                #[trigger] export_branch_files(bs)[k].1,
                0,
            ) matches Option::Some(q) && q.0 == branch_view(bs[k]) && q.1
                == export_branch_files(bs)[k].1.len()),
{
    assert forall|k: int| 0 <= k < bs.len() implies (crate::codec::d_branch(
        #[trigger] export_branch_files(bs)[k].1,
        0,
    ) matches Option::Some(q) && q.0 == branch_view(bs[k]) && q.1 == export_branch_files(
        bs,
    )[k].1.len()) by {
        assert(export_branch_files(bs)[k].1 == crate::codec::enc_branch(branch_view(bs[k])));
        crate::codec::lemma_branch_round_trip(branch_view(bs[k]));
    }
}

/// The law of the transport: every commit file an export writes
/// decompresses, by `serialize`'s contract, to the encoding of its row,
/// and that encoding parses back to exactly the row. Importing an export
/// therefore restores equivalent commit rows.
pub proof fn lemma_export_commits_read_back(bs: Seq<Branch>, rs: Seq<CommitRecord>)
    requires
        forall|k: int|
            0 <= k < export_commit_views(bs, rs).len() ==> crate::codec::commit_ok(
                #[trigger] export_commit_views(bs, rs)[k],
            ),
    ensures
        forall|k: int|
            0 <= k < export_commit_views(bs, rs).len() ==> (crate::codec::d_commit(
                crate::codec::enc_commit(#[trigger] export_commit_views(bs, rs)[k]),
                0,
            ) matches Option::Some(q) && q.0 == export_commit_views(bs, rs)[k] && q.1
                == crate::codec::enc_commit(export_commit_views(bs, rs)[k]).len()),
{
    assert forall|k: int| 0 <= k < export_commit_views(bs, rs).len() implies (
    crate::codec::d_commit(
        crate::codec::enc_commit(#[trigger] export_commit_views(bs, rs)[k]),
        0,
    ) matches Option::Some(q) && q.0 == export_commit_views(bs, rs)[k] && q.1
        == crate::codec::enc_commit(export_commit_views(bs, rs)[k]).len()) by {
        crate::codec::lemma_commit_round_trip(export_commit_views(bs, rs)[k]);
    }
}

/// Whether a row's content stands somewhere in the export views.
pub open spec fn view_exported(
    bs: Seq<Branch>,
    rs: Seq<CommitRecord>,
    v: crate::codec::CommitV,
) -> bool {
    exists|k: int|
        0 <= k < export_commit_views(bs, rs).len() && #[trigger] export_commit_views(bs, rs)[k]
            == v
}

/// Every commit row of every exported branch reaches the export: its
/// full row stands somewhere in the export views, so, with
/// `files_carry_views` and the codec round trip, some written file
/// decompresses and parses back to exactly that row.
pub proof fn lemma_export_views_complete(bs: Seq<Branch>, rs: Seq<CommitRecord>)
    ensures
        forall|bi: int, j: int|
            0 <= bi < bs.len() && 0 <= j < recs_of_branch(rs, bs[bi].name@).len()
                ==> view_exported(
                bs,
                rs,
                full_rec_view(#[trigger] recs_of_branch(rs, bs[bi].name@)[j]),
            ),
    decreases bs.len(),
{
    if bs.len() > 0 {
        lemma_export_views_complete(bs.drop_last(), rs);
        let front = export_commit_views(bs.drop_last(), rs);
        let tail = branch_export_views(bs.last(), rs);
        assert(export_commit_views(bs, rs) == front + tail);
        assert forall|bi: int, j: int|
            0 <= bi < bs.len() && 0 <= j < recs_of_branch(rs, bs[bi].name@).len()
            implies view_exported(
            bs,
            rs,
            full_rec_view(#[trigger] recs_of_branch(rs, bs[bi].name@)[j]),
        ) by {
            if bi < bs.len() - 1 {
                assert(bs.drop_last()[bi] == bs[bi]);
                assert(view_exported(
                    bs.drop_last(),
                    rs,
                    full_rec_view(recs_of_branch(rs, bs[bi].name@)[j]),
                ));
                let k0 = choose|k0: int|
                    0 <= k0 < front.len() && front[k0] == full_rec_view(
                        recs_of_branch(rs, bs[bi].name@)[j],
                    );
                assert(export_commit_views(bs, rs)[k0] == full_rec_view(
                    recs_of_branch(rs, bs[bi].name@)[j],
                ));
            } else {
                assert(bs[bi] == bs.last());
                assert(tail[j] == full_rec_view(recs_of_branch(rs, bs[bi].name@)[j]));
                assert(export_commit_views(bs, rs)[front.len() + j] == tail[j]);
            }
        }
    }
}

/// The entries a whole-repository archive holds: every pack object under
/// `objects/`, then the export tree's files under `bin/`.
pub open spec fn object_arc_entries(objects: Seq<(Seq<char>, Vec<u8>)>) -> Seq<
    (Seq<char>, Seq<u8>),
>
    decreases objects.len(),
{
    if objects.len() == 0 {
        Seq::<(Seq<char>, Seq<u8>)>::empty()
    } else {
        let front = object_arc_entries(objects.drop_last());
        if crate::pack::pack_path_ok("objects/"@ + objects.last().0) {
            front.push(("objects/"@ + objects.last().0, objects.last().1@))
        } else {
            front
        }
    }
}

pub open spec fn branch_arc_entries(bf: Seq<(String, String)>) -> Seq<(Seq<char>, Seq<u8>)>
    decreases bf.len(),
{
    if bf.len() == 0 {
        Seq::<(Seq<char>, Seq<u8>)>::empty()
    } else {
        let front = branch_arc_entries(bf.drop_last());
        if crate::pack::pack_path_ok("bin/"@ + bf.last().0@) {
            front.push(("bin/"@ + bf.last().0@, crate::pack::utf8_of(bf.last().1@)))
        } else {
            front
        }
    }
}

pub open spec fn commit_arc_entries(cf: Seq<(String, Vec<u8>)>) -> Seq<(Seq<char>, Seq<u8>)>
    decreases cf.len(),
{
    if cf.len() == 0 {
        Seq::<(Seq<char>, Seq<u8>)>::empty()
    } else {
        let front = commit_arc_entries(cf.drop_last());
        if crate::pack::pack_path_ok("bin/"@ + cf.last().0@) {
            front.push(("bin/"@ + cf.last().0@, cf.last().1@))
        } else {
            front
        }
    }
}

pub open spec fn repo_entries(
    objects: Seq<(Seq<char>, Vec<u8>)>,
    bf: Seq<(String, String)>,
    cf: Seq<(String, Vec<u8>)>,
) -> Seq<(Seq<char>, Seq<u8>)> {
    object_arc_entries(objects) + branch_arc_entries(bf) + commit_arc_entries(cf)
}

impl Garden {
    /// Archives the whole repository for transport: every pack object
    /// and the given plain-file export, as one compressed archive. An
    /// entry whose composed path the archive boundary would rewrite — a
    /// branch name with a `.` or `..` component, say — is skipped.
    pub fn export_repository(&self, tree: &ExportTree) -> (r: crate::pack::Pack)
        ensures
            r.data@ == crate::pack::repo_archive_of(
                repo_entries(self.objects@, tree.branch_files@, tree.commit_files@),
            ),
    {
        proof {
            reveal_strlit("objects/");
            reveal_strlit("bin/");
        }
        let mut entries: Vec<(String, Vec<u8>)> = Vec::new();
        let no = self.objects.len();
        let mut i: usize = 0;
        while i < no
            invariant
                i <= no,
                no == self.objects@.len(),
                crate::pack::raw_entries_view(entries@) =~= object_arc_entries(self.objects@.subrange(0, i as int)),
                forall|k: int|
                    0 <= k < entries@.len() ==> crate::pack::pack_path_ok(
                        (#[trigger] entries@[k]).0@,
                    ),
            decreases no - i,
        {
            proof {
                reveal_strlit("objects/");
            }
            let mut path = String::from_str("objects/");
            path.append(self.objects.key_at(i).as_str());
            proof {
                assert(self.objects@.subrange(0, i + 1 as int) =~= self.objects@.subrange(
                    0,
                    i as int,
                ).push(self.objects@[i as int]));
                assert(self.objects@.subrange(0, i as int).push(
                    self.objects@[i as int],
                ).drop_last() =~= self.objects@.subrange(0, i as int));
                assert(path@ == "objects/"@ + self.objects@[i as int].0);
            }
            if crate::pack::is_pack_path_ok(path.as_str()) {
                let bytes = clone_bytes(self.objects.val_at(i));
                let ghost pathg = path@;
                let ghost bytesg = bytes@;
                let ghost epre = entries@;
                entries.push((path, bytes));
                proof {
                    assert(bytesg == self.objects@[i as int].1@);
                    assert(crate::pack::raw_entries_view(entries@)
                        =~= crate::pack::raw_entries_view(epre).push((pathg, bytesg)));
                    assert(crate::pack::raw_entries_view(entries@) =~= object_arc_entries(
                        self.objects@.subrange(0, i + 1 as int),
                    ));
                }
            } else {
                proof {
                    assert(crate::pack::raw_entries_view(entries@) =~= object_arc_entries(
                        self.objects@.subrange(0, i + 1 as int),
                    ));
                }
            }
            i += 1;
        }
        proof {
            assert(self.objects@.subrange(0, no as int) =~= self.objects@);
        }
        let nb = tree.branch_files.len();
        let mut b: usize = 0;
        while b < nb
            invariant
                b <= nb,
                nb == tree.branch_files@.len(),
                crate::pack::raw_entries_view(entries@) =~= object_arc_entries(self.objects@)
                    + branch_arc_entries(tree.branch_files@.subrange(0, b as int)),
                forall|k: int|
                    0 <= k < entries@.len() ==> crate::pack::pack_path_ok(
                        (#[trigger] entries@[k]).0@,
                    ),
            decreases nb - b,
        {
            proof {
                reveal_strlit("bin/");
            }
            let mut path = String::from_str("bin/");
            path.append(tree.branch_files[b].0.as_str());
            proof {
                assert(tree.branch_files@.subrange(0, b + 1 as int)
                    =~= tree.branch_files@.subrange(0, b as int).push(
                    tree.branch_files@[b as int],
                ));
                assert(tree.branch_files@.subrange(0, b as int).push(
                    tree.branch_files@[b as int],
                ).drop_last() =~= tree.branch_files@.subrange(0, b as int));
                assert(path@ == "bin/"@ + tree.branch_files@[b as int].0@);
            }
            if crate::pack::is_pack_path_ok(path.as_str()) {
                let bytes = crate::pack::str_bytes(tree.branch_files[b].1.as_str());
                let ghost pathg = path@;
                let ghost bytesg = bytes@;
                let ghost epre = entries@;
                entries.push((path, bytes));
                proof {
                    assert(bytesg == crate::pack::utf8_of(tree.branch_files@[b as int].1@));
                    assert(crate::pack::raw_entries_view(entries@)
                        =~= crate::pack::raw_entries_view(epre).push((pathg, bytesg)));
                    assert(crate::pack::raw_entries_view(entries@) =~= object_arc_entries(
                        self.objects@,
                    ) + branch_arc_entries(tree.branch_files@.subrange(0, b + 1 as int)));
                }
            } else {
                proof {
                    assert(crate::pack::raw_entries_view(entries@) =~= object_arc_entries(
                        self.objects@,
                    ) + branch_arc_entries(tree.branch_files@.subrange(0, b + 1 as int)));
                }
            }
            b += 1;
        }
        proof {
            assert(tree.branch_files@.subrange(0, nb as int) =~= tree.branch_files@);
        }
        let nc = tree.commit_files.len();
        let mut c: usize = 0;
        while c < nc
            invariant
                c <= nc,
                nc == tree.commit_files@.len(),
                crate::pack::raw_entries_view(entries@) =~= object_arc_entries(self.objects@) + branch_arc_entries(tree.branch_files@)
                    + commit_arc_entries(tree.commit_files@.subrange(0, c as int)),
                forall|k: int|
                    0 <= k < entries@.len() ==> crate::pack::pack_path_ok(
                        (#[trigger] entries@[k]).0@,
                    ),
            decreases nc - c,
        {
            proof {
                reveal_strlit("bin/");
            }
            let mut path = String::from_str("bin/");
            path.append(tree.commit_files[c].0.as_str());
            proof {
                assert(tree.commit_files@.subrange(0, c + 1 as int)
                    =~= tree.commit_files@.subrange(0, c as int).push(
                    tree.commit_files@[c as int],
                ));
                assert(tree.commit_files@.subrange(0, c as int).push(
                    tree.commit_files@[c as int],
                ).drop_last() =~= tree.commit_files@.subrange(0, c as int));
                assert(path@ == "bin/"@ + tree.commit_files@[c as int].0@);
            }
            if crate::pack::is_pack_path_ok(path.as_str()) {
                let bytes = clone_bytes(&tree.commit_files[c].1);
                let ghost pathg = path@;
                let ghost bytesg = bytes@;
                let ghost epre = entries@;
                entries.push((path, bytes));
                proof {
                    assert(bytesg == tree.commit_files@[c as int].1@);
                    assert(crate::pack::raw_entries_view(entries@)
                        =~= crate::pack::raw_entries_view(epre).push((pathg, bytesg)));
                    assert(crate::pack::raw_entries_view(entries@) =~= object_arc_entries(
                        self.objects@,
                    ) + branch_arc_entries(tree.branch_files@) + commit_arc_entries(
                        tree.commit_files@.subrange(0, c + 1 as int),
                    ));
                }
            } else {
                proof {
                    assert(crate::pack::raw_entries_view(entries@) =~= object_arc_entries(
                        self.objects@,
                    ) + branch_arc_entries(tree.branch_files@) + commit_arc_entries(
                        tree.commit_files@.subrange(0, c + 1 as int),
                    ));
                }
            }
            c += 1;
        }
        proof {
            assert(tree.commit_files@.subrange(0, nc as int) =~= tree.commit_files@);
            assert(crate::pack::raw_entries_view(entries@) =~= repo_entries(
                self.objects@,
                tree.branch_files@,
                tree.commit_files@,
            ));
        }
        let data = crate::pack::targz_raw_entries(&entries);
        crate::pack::Pack { data }
    }
}

/// Keys before position `i` of a sorted entry list differ from key `i`.
proof fn lemma_sorted_first_at<V>(m: Seq<(Seq<char>, V)>, i: int)
    requires
        crate::smap::sorted_keys(m),
        0 <= i < m.len(),
    ensures
        forall|t: int| 0 <= t < i ==> #[trigger] crate::smap::mkey(m, t) != crate::smap::mkey(
            m,
            i,
        ),
{
    assert forall|t: int| 0 <= t < i implies #[trigger] crate::smap::mkey(m, t)
        != crate::smap::mkey(m, i) by {
        assert(crate::text::lex_lt(crate::smap::mkey(m, t), crate::smap::mkey(m, i)));
        if crate::smap::mkey(m, t) == crate::smap::mkey(m, i) {
            crate::text::lemma_lex_lt_irrefl(crate::smap::mkey(m, i));
        }
    }
}

/// Looking a path up in a snapshot's character view agrees with looking
/// it up in the string map.
proof fn lemma_snapshot_get(m: Seq<(Seq<char>, String)>, p: Seq<char>)
    ensures
        crate::smap::map_get(crate::pack::snapshot_entries(m), p) == (
        match crate::smap::map_get(m, p) {
            Option::Some(s) => Option::Some(s@),
            Option::None => Option::<Seq<char>>::None,
        }),
    decreases m.len(),
{
    let sm = crate::pack::snapshot_entries(m);
    if m.len() == 0 {
    } else {
        lemma_snapshot_get(m.drop_first(), p);
        assert(sm[0] == (m[0].0, m[0].1@));
        assert(sm.drop_first() =~= crate::pack::snapshot_entries(m.drop_first()));
    }
}

/// A key-preserving value map keeps snapshot keys sorted.
proof fn lemma_snapshot_view_sorted(m: Seq<(Seq<char>, String)>)
    requires
        crate::smap::sorted_keys(m),
    ensures
        crate::smap::sorted_keys(crate::pack::snapshot_entries(m)),
{
    let sm = crate::pack::snapshot_entries(m);
    assert forall|i: int, j: int| 0 <= i < j < sm.len() implies crate::text::lex_lt(
        #[trigger] crate::smap::mkey(sm, i),
        #[trigger] crate::smap::mkey(sm, j),
    ) by {
        assert(crate::smap::mkey(sm, i) == crate::smap::mkey(m, i));
        assert(crate::smap::mkey(sm, j) == crate::smap::mkey(m, j));
    }
}

/// Copies a string value; the copy holds the same characters.
pub(crate) fn clone_string(s: &String) -> (r: String)
    ensures
        r@ == s@,
{
    s.clone()
}

/// Copies a branch row field for field.
pub(crate) fn clone_branch(b: &Branch) -> (r: Branch)
    ensures
        r.id@ == b.id@,
        r.name@ == b.name@,
        r.timestamp == b.timestamp,
        branch_view(r) == branch_view(*b),
    {
    Branch { id: b.id.clone(), name: b.name.clone(), timestamp: b.timestamp }
}

} // verus!
