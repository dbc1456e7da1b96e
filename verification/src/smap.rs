//! A string-keyed association map kept sorted by key, with set-like
//! semantics: one entry per key, deterministic lexicographic iteration.
//! It stands in for ordered map collections wherever the engine needs
//! reproducible enumeration of paths, branches or services.

use vstd::prelude::*;

use crate::text::lemma_lex_lt_irrefl;
use crate::text::lemma_lex_lt_total;
use crate::text::lemma_lex_lt_trans;
use crate::text::lex_lt;
use crate::text::str_eq;
use crate::text::str_lt;

verus! {

/// The key of entry `i` of an entry sequence.
pub open spec fn mkey<V>(m: Seq<(Seq<char>, V)>, i: int) -> Seq<char> {
    m[i].0
}

/// Keys strictly ascending: sorted and free of duplicates.
pub open spec fn sorted_keys<V>(m: Seq<(Seq<char>, V)>) -> bool {
    forall|i: int, j: int|
        0 <= i < j < m.len() ==> lex_lt(#[trigger] mkey(m, i), #[trigger] mkey(m, j))
}

/// The value stored under `k`: the first entry with that key, if any.
pub open spec fn map_get<V>(m: Seq<(Seq<char>, V)>, k: Seq<char>) -> Option<V>
    decreases m.len(),
{
    if m.len() == 0 {
        Option::None
    } else if m[0].0 == k {
        Option::Some(m[0].1)
    } else {
        map_get(m.drop_first(), k)
    }
}

/// The entries after storing `v` under `k`, keeping keys sorted.
pub open spec fn map_put<V>(m: Seq<(Seq<char>, V)>, k: Seq<char>, v: V) -> Seq<(Seq<char>, V)>
    decreases m.len(),
{
    if m.len() == 0 {
        seq![(k, v)]
    } else if lex_lt(k, m[0].0) {
        seq![(k, v)] + m
    } else if k == m[0].0 {
        seq![(k, v)] + m.drop_first()
    } else {
        seq![m[0]] + map_put(m.drop_first(), k, v)
    }
}

/// The entries after removing the first entry keyed `k`, if any.
pub open spec fn map_del<V>(m: Seq<(Seq<char>, V)>, k: Seq<char>) -> Seq<(Seq<char>, V)>
    decreases m.len(),
{
    if m.len() == 0 {
        m
    } else if m[0].0 == k {
        m.drop_first()
    } else {
        seq![m[0]] + map_del(m.drop_first(), k)
    }
}

/// A key is found exactly when some entry carries it.
pub proof fn lemma_map_get_some<V>(m: Seq<(Seq<char>, V)>, k: Seq<char>)
    ensures
        (map_get(m, k) is Some) == (exists|i: int| 0 <= i < m.len() && mkey(m, i) == k),
    decreases m.len(),
{
    if m.len() > 0 {
        lemma_map_get_some(m.drop_first(), k);
        if m[0].0 == k {
            assert(mkey(m, 0) == k);
        } else if map_get(m.drop_first(), k) is Some {
            let i = choose|i: int|
                0 <= i < m.drop_first().len() && mkey(m.drop_first(), i) == k;
            assert(mkey(m, i + 1) == k);
        } else {
            assert forall|i: int| 0 <= i < m.len() implies mkey(m, i) != k by {
                if i > 0 {
                    assert(mkey(m.drop_first(), i - 1) == mkey(m, i));
                }
            }
        }
    }
}

/// What a position-wise scan finds agrees with `map_get`.
pub proof fn lemma_map_get_at<V>(m: Seq<(Seq<char>, V)>, k: Seq<char>, i: int)
    requires
        0 <= i <= m.len(),
        forall|j: int| 0 <= j < i ==> mkey(m, j) != k,
    ensures
        i < m.len() && mkey(m, i) == k ==> map_get(m, k) == Option::Some(m[i].1),
        i == m.len() ==> map_get(m, k) is None,
    decreases i,
{
    if i == 0 {
        if 0 < m.len() && mkey(m, 0) == k {
        } else if m.len() == 0 {
        }
    } else {
        assert(mkey(m, 0) != k);
        assert forall|j: int| 0 <= j < i - 1 implies mkey(m.drop_first(), j) != k by {
            assert(mkey(m.drop_first(), j) == mkey(m, j + 1));
        }
        lemma_map_get_at(m.drop_first(), k, i - 1);
        if i < m.len() {
            assert(mkey(m.drop_first(), i - 1) == mkey(m, i));
        }
    }
}

/// Storing keeps keys sorted.
pub proof fn lemma_map_put_sorted<V>(m: Seq<(Seq<char>, V)>, k: Seq<char>, v: V)
    requires
        sorted_keys(m),
    ensures
        sorted_keys(map_put(m, k, v)),
    decreases m.len(),
{
    let r = map_put(m, k, v);
    if m.len() == 0 {
        assert(sorted_keys(r));
    } else if lex_lt(k, m[0].0) {
        assert forall|i: int, j: int| 0 <= i < j < r.len() implies lex_lt(
            #[trigger] mkey(r, i),
            #[trigger] mkey(r, j),
        ) by {
            if i == 0 {
                if j > 1 {
                    assert(lex_lt(mkey(m, 0), mkey(m, j - 1)));
                    lemma_lex_lt_trans(k, m[0].0, mkey(m, j - 1));
                }
            } else {
                assert(mkey(r, i) == mkey(m, i - 1));
                assert(mkey(r, j) == mkey(m, j - 1));
            }
        }
    } else if k == m[0].0 {
        assert forall|i: int, j: int| 0 <= i < j < r.len() implies lex_lt(
            #[trigger] mkey(r, i),
            #[trigger] mkey(r, j),
        ) by {
            if i == 0 {
                assert(mkey(r, j) == mkey(m, j));
                assert(lex_lt(mkey(m, 0), mkey(m, j)));
            } else {
                assert(mkey(r, i) == mkey(m, i));
                assert(mkey(r, j) == mkey(m, j));
            }
        }
    } else {
        assert forall|i: int, j: int| 0 <= i < j < m.drop_first().len() implies lex_lt(
            #[trigger] mkey(m.drop_first(), i),
            #[trigger] mkey(m.drop_first(), j),
        ) by {
            assert(mkey(m.drop_first(), i) == mkey(m, i + 1));
            assert(mkey(m.drop_first(), j) == mkey(m, j + 1));
        }
        lemma_map_put_sorted(m.drop_first(), k, v);
        lemma_lex_lt_total(k, m[0].0);
        let r1 = map_put(m.drop_first(), k, v);
        assert forall|i: int, j: int| 0 <= i < j < r.len() implies lex_lt(
            #[trigger] mkey(r, i),
            #[trigger] mkey(r, j),
        ) by {
            if i == 0 {
                assert(mkey(r, j) == mkey(r1, j - 1));
                lemma_map_put_key_source(m.drop_first(), k, v, j - 1);
                if mkey(r1, j - 1) == k {
                    assert(lex_lt(m[0].0, k));
                } else {
                    let src = choose|s: int|
                        0 <= s < m.drop_first().len() && mkey(m.drop_first(), s) == mkey(r1, j - 1);
                    assert(mkey(m, src + 1) == mkey(r1, j - 1));
                    assert(lex_lt(mkey(m, 0), mkey(m, src + 1)));
                }
            } else {
                assert(mkey(r, i) == mkey(r1, i - 1));
                assert(mkey(r, j) == mkey(r1, j - 1));
                assert(lex_lt(mkey(r1, i - 1), mkey(r1, j - 1)));
            }
        }
    }
}

/// Every key of a stored map is the new key or one of the old keys.
pub proof fn lemma_map_put_key_source<V>(m: Seq<(Seq<char>, V)>, k: Seq<char>, v: V, i: int)
    requires
        0 <= i < map_put(m, k, v).len(),
    ensures
        mkey(map_put(m, k, v), i) == k || exists|s: int|
            0 <= s < m.len() && mkey(m, s) == mkey(map_put(m, k, v), i),
    decreases m.len(),
{
    let r = map_put(m, k, v);
    if m.len() == 0 {
    } else if lex_lt(k, m[0].0) {
        if i > 0 {
            assert(mkey(m, i - 1) == mkey(r, i));
        }
    } else if k == m[0].0 {
        if i > 0 {
            assert(mkey(m, i) == mkey(r, i));
        }
    } else {
        if i == 0 {
            assert(mkey(m, 0) == mkey(r, 0));
        } else {
            lemma_map_put_key_source(m.drop_first(), k, v, i - 1);
            let r1 = map_put(m.drop_first(), k, v);
            assert(mkey(r, i) == mkey(r1, i - 1));
            if mkey(r1, i - 1) != k {
                let s = choose|s: int|
                    0 <= s < m.drop_first().len() && mkey(m.drop_first(), s) == mkey(r1, i - 1);
                assert(mkey(m, s + 1) == mkey(r1, i - 1));
            }
        }
    }
}

/// Every entry of a stored map is the new entry or one of the old ones.
pub proof fn lemma_map_put_entry_source<V>(m: Seq<(Seq<char>, V)>, k: Seq<char>, v: V, i: int)
    requires
        0 <= i < map_put(m, k, v).len(),
    ensures
        map_put(m, k, v)[i] == (k, v) || exists|s: int|
            0 <= s < m.len() && m[s] == map_put(m, k, v)[i],
    decreases m.len(),
{
    let r = map_put(m, k, v);
    if m.len() == 0 {
    } else if lex_lt(k, m[0].0) {
        if i > 0 {
            assert(m[i - 1] == r[i]);
        }
    } else if k == m[0].0 {
        if i > 0 {
            assert(m[i] == r[i]);
        }
    } else {
        if i == 0 {
            assert(m[0] == r[0]);
        } else {
            lemma_map_put_entry_source(m.drop_first(), k, v, i - 1);
            let r1 = map_put(m.drop_first(), k, v);
            assert(r[i] == r1[i - 1]);
            if r1[i - 1] != (k, v) {
                let s = choose|s: int|
                    0 <= s < m.drop_first().len() && m.drop_first()[s] == r1[i - 1];
                assert(m[s + 1] == r1[i - 1]);
            }
        }
    }
}

/// Lookup after storing: the new key reads back `v`, others are untouched.
#[verifier::rlimit(50)]
pub proof fn lemma_map_get_put<V>(m: Seq<(Seq<char>, V)>, k: Seq<char>, v: V, q: Seq<char>)
    ensures
        q == k ==> map_get(map_put(m, k, v), q) == Option::Some(v),
        q != k ==> map_get(map_put(m, k, v), q) == map_get(m, q),
    decreases m.len(),
{
    let r = map_put(m, k, v);
    if m.len() == 0 {
        assert(r == seq![(k, v)]);
        assert(r[0] == (k, v));
        assert(r.drop_first() =~= Seq::<(Seq<char>, V)>::empty());
    } else if lex_lt(k, m[0].0) {
        assert(r == seq![(k, v)] + m);
        assert(r[0] == (k, v));
        assert(r.drop_first() =~= m);
    } else if k == m[0].0 {
        assert(r == seq![(k, v)] + m.drop_first());
        assert(r[0] == (k, v));
        assert(r.drop_first() =~= m.drop_first());
        if q != k {
            assert(map_get(r, q) == map_get(m.drop_first(), q));
            assert(map_get(m, q) == map_get(m.drop_first(), q));
        }
    } else {
        lemma_lex_lt_irrefl(k);
        assert(k != m[0].0);
        lemma_map_get_put(m.drop_first(), k, v, q);
        assert(r == seq![m[0]] + map_put(m.drop_first(), k, v));
        assert(r.drop_first() =~= map_put(m.drop_first(), k, v));
        assert(r[0] == m[0]);
        assert(map_get(r, q) == if r[0].0 == q {
            Option::Some(r[0].1)
        } else {
            map_get(r.drop_first(), q)
        });
        assert(map_get(m, q) == if m[0].0 == q {
            Option::Some(m[0].1)
        } else {
            map_get(m.drop_first(), q)
        });
        if q == k {
            assert(m[0].0 != q);
            assert(map_get(r, q) == map_get(map_put(m.drop_first(), k, v), q));
        }
    }
}

/// Removal keeps keys sorted.
pub proof fn lemma_map_del_sorted<V>(m: Seq<(Seq<char>, V)>, k: Seq<char>)
    requires
        sorted_keys(m),
    ensures
        sorted_keys(map_del(m, k)),
    decreases m.len(),
{
    let r = map_del(m, k);
    if m.len() == 0 {
    } else if m[0].0 == k {
        assert forall|i: int, j: int| 0 <= i < j < r.len() implies lex_lt(
            #[trigger] mkey(r, i),
            #[trigger] mkey(r, j),
        ) by {
            assert(mkey(r, i) == mkey(m, i + 1));
            assert(mkey(r, j) == mkey(m, j + 1));
        }
    } else {
        assert forall|i: int, j: int| 0 <= i < j < m.drop_first().len() implies lex_lt(
            #[trigger] mkey(m.drop_first(), i),
            #[trigger] mkey(m.drop_first(), j),
        ) by {
            assert(mkey(m.drop_first(), i) == mkey(m, i + 1));
            assert(mkey(m.drop_first(), j) == mkey(m, j + 1));
        }
        lemma_map_del_sorted(m.drop_first(), k);
        let r1 = map_del(m.drop_first(), k);
        assert forall|i: int, j: int| 0 <= i < j < r.len() implies lex_lt(
            #[trigger] mkey(r, i),
            #[trigger] mkey(r, j),
        ) by {
            if i == 0 {
                assert(mkey(r, j) == mkey(r1, j - 1));
                lemma_map_del_key_source(m.drop_first(), k, j - 1);
                let s = choose|s: int|
                    0 <= s < m.drop_first().len() && mkey(m.drop_first(), s) == mkey(r1, j - 1);
                assert(mkey(m, s + 1) == mkey(r1, j - 1));
                assert(lex_lt(mkey(m, 0), mkey(m, s + 1)));
            } else {
                assert(mkey(r, i) == mkey(r1, i - 1));
                assert(mkey(r, j) == mkey(r1, j - 1));
            }
        }
    }
}

/// Every key left after removal was a key before.
pub proof fn lemma_map_del_key_source<V>(m: Seq<(Seq<char>, V)>, k: Seq<char>, i: int)
    requires
        0 <= i < map_del(m, k).len(),
    ensures
        exists|s: int| 0 <= s < m.len() && mkey(m, s) == mkey(map_del(m, k), i),
    decreases m.len(),
{
    let r = map_del(m, k);
    if m.len() == 0 {
    } else if m[0].0 == k {
        assert(mkey(m, i + 1) == mkey(r, i));
    } else {
        if i == 0 {
            assert(mkey(m, 0) == mkey(r, 0));
        } else {
            lemma_map_del_key_source(m.drop_first(), k, i - 1);
            let r1 = map_del(m.drop_first(), k);
            assert(mkey(r, i) == mkey(r1, i - 1));
            let s = choose|s: int|
                0 <= s < m.drop_first().len() && mkey(m.drop_first(), s) == mkey(r1, i - 1);
            assert(mkey(m, s + 1) == mkey(r1, i - 1));
        }
    }
}

/// Lookup after removal: the removed key is gone, others untouched.
/// Needs sorted keys, so that one key occurs at most once.
pub proof fn lemma_map_get_del<V>(m: Seq<(Seq<char>, V)>, k: Seq<char>, q: Seq<char>)
    requires
        sorted_keys(m),
    ensures
        q == k ==> map_get(map_del(m, k), q) is None,
        q != k ==> map_get(map_del(m, k), q) == map_get(m, q),
    decreases m.len(),
{
    let r = map_del(m, k);
    if m.len() == 0 {
    } else if m[0].0 == k {
        assert(r =~= m.drop_first());
        if q == k {
            lemma_map_get_some(m.drop_first(), k);
            if map_get(m.drop_first(), k) is Some {
                let i = choose|i: int|
                    0 <= i < m.drop_first().len() && mkey(m.drop_first(), i) == k;
                assert(mkey(m, i + 1) == k);
                assert(lex_lt(mkey(m, 0), mkey(m, i + 1)));
                lemma_lex_lt_irrefl(k);
            }
        }
    } else {
        assert forall|i: int, j: int| 0 <= i < j < m.drop_first().len() implies lex_lt(
            #[trigger] mkey(m.drop_first(), i),
            #[trigger] mkey(m.drop_first(), j),
        ) by {
            assert(mkey(m.drop_first(), i) == mkey(m, i + 1));
            assert(mkey(m.drop_first(), j) == mkey(m, j + 1));
        }
        lemma_map_get_del(m.drop_first(), k, q);
        assert(r == seq![m[0]] + map_del(m.drop_first(), k));
        assert(r.drop_first() =~= map_del(m.drop_first(), k));
        assert(r[0] == m[0]);
    }
}

/// The map read from listed entries: inserted in order, a later entry
/// under the same key replacing an earlier one.
pub open spec fn map_of<V>(es: Seq<(Seq<char>, V)>) -> Seq<(Seq<char>, V)>
    decreases es.len(),
{
    if es.len() == 0 {
        Seq::<(Seq<char>, V)>::empty()
    } else {
        map_put(map_of(es.drop_last()), es.last().0, es.last().1)
    }
}

/// Storing under a key greater than every present key appends.
pub proof fn lemma_map_put_past_end<V>(m: Seq<(Seq<char>, V)>, k: Seq<char>, v: V)
    requires
        forall|i: int| 0 <= i < m.len() ==> lex_lt(#[trigger] mkey(m, i), k),
    ensures
        map_put(m, k, v) == m.push((k, v)),
    decreases m.len(),
{
    if m.len() == 0 {
        assert(map_put(m, k, v) =~= m.push((k, v)));
    } else {
        assert(lex_lt(mkey(m, 0), k));
        lemma_lex_lt_irrefl(k);
        lemma_lex_lt_total(k, m[0].0);
        assert forall|i: int| 0 <= i < m.drop_first().len() implies lex_lt(
            #[trigger] mkey(m.drop_first(), i),
            k,
        ) by {
            assert(mkey(m.drop_first(), i) == mkey(m, i + 1));
        }
        lemma_map_put_past_end(m.drop_first(), k, v);
        assert(map_put(m, k, v) =~= m.push((k, v)));
    }
}

/// Reading entries that already form a sorted map changes nothing.
pub proof fn lemma_map_of_sorted<V>(es: Seq<(Seq<char>, V)>)
    requires
        sorted_keys(es),
    ensures
        map_of(es) == es,
    decreases es.len(),
{
    if es.len() > 0 {
        let front = es.drop_last();
        assert forall|i: int, j: int| 0 <= i < j < front.len() implies lex_lt(
            #[trigger] mkey(front, i),
            #[trigger] mkey(front, j),
        ) by {
            assert(mkey(front, i) == mkey(es, i));
            assert(mkey(front, j) == mkey(es, j));
        }
        lemma_map_of_sorted(front);
        assert forall|i: int| 0 <= i < front.len() implies lex_lt(
            #[trigger] mkey(front, i),
            es.last().0,
        ) by {
            assert(mkey(front, i) == mkey(es, i));
            assert(es.last().0 == mkey(es, es.len() - 1));
        }
        lemma_map_put_past_end(front, es.last().0, es.last().1);
        assert(map_of(es) =~= es);
    }
}

/// A map read from entries has sorted keys, whatever the entries.
pub proof fn lemma_map_of_sorted_keys<V>(es: Seq<(Seq<char>, V)>)
    ensures
        sorted_keys(map_of(es)),
    decreases es.len(),
{
    if es.len() == 0 {
        assert(sorted_keys(map_of(es)));
    } else {
        lemma_map_of_sorted_keys(es.drop_last());
        lemma_map_put_sorted(map_of(es.drop_last()), es.last().0, es.last().1);
    }
}

/// A string-keyed map with sorted, duplicate-free keys.
pub struct SMap<V> {
    pairs: Vec<(String, V)>,
}

impl<V> View for SMap<V> {
    type V = Seq<(Seq<char>, V)>;

    closed spec fn view(&self) -> Seq<(Seq<char>, V)> {
        self.pairs@.map_values(|p: (String, V)| (p.0@, p.1))
    }
}

impl<V> SMap<V> {
    /// The structural invariant: keys strictly ascending.
    pub open spec fn wf(&self) -> bool {
        sorted_keys(self@)
    }

    pub fn new() -> (r: Self)
        ensures
            r@ == Seq::<(Seq<char>, V)>::empty(),
            r.wf(),
    {
        let r = SMap { pairs: Vec::new() };
        proof {
            assert(r@ =~= Seq::<(Seq<char>, V)>::empty());
        }
        r
    }

    pub fn len(&self) -> (r: usize)
        ensures
            r == self@.len(),
    {
        self.pairs.len()
    }

    /// The key of entry `i`.
    pub fn key_at(&self, i: usize) -> (r: &String)
        requires
            i < self@.len(),
        ensures
            r@ == self@[i as int].0,
    {
        &self.pairs[i].0
    }

    /// The value of entry `i`.
    pub fn val_at(&self, i: usize) -> (r: &V)
        requires
            i < self@.len(),
        ensures
            *r == self@[i as int].1,
    {
        &self.pairs[i].1
    }

    /// Looks a key up by scanning entries in order.
    pub fn get(&self, k: &str) -> (r: Option<&V>)
        ensures
            match r {
                Option::Some(v) => map_get(self@, k@) == Option::Some(*v),
                Option::None => map_get(self@, k@) is None,
            },
    {
        let n = self.pairs.len();
        let mut i: usize = 0;
        while i < n
            invariant
                i <= n,
                n == self@.len(),
                forall|j: int| 0 <= j < i ==> mkey(self@, j) != k@,
            decreases n - i,
        {
            if str_eq(self.pairs[i].0.as_str(), k) {
                proof {
                    lemma_map_get_at(self@, k@, i as int);
                }
                return Option::Some(&self.pairs[i].1);
            }
            i += 1;
        }
        proof {
            lemma_map_get_at(self@, k@, n as int);
        }
        Option::None
    }

    pub fn contains_key(&self, k: &str) -> (r: bool)
        ensures
            r == (map_get(self@, k@) is Some),
    {
        match self.get(k) {
            Option::Some(_) => true,
            Option::None => false,
        }
    }

    /// Stores `v` under `k`, replacing any previous value.
    pub fn insert(&mut self, k: String, v: V)
        requires
            old(self).wf(),
        ensures
            final(self)@ == map_put(old(self)@, k@, v),
            final(self).wf(),
    {
        proof {
            lemma_map_put_sorted(old(self)@, k@, v);
        }
        let n = self.pairs.len();
        let mut i: usize = 0;
        loop
            invariant
                i <= n,
                n == self@.len(),
                self@ == old(self)@,
                forall|j: int| 0 <= j < i ==> lex_lt(mkey(self@, j), k@),
            ensures
                i <= n,
                self@ == old(self)@,
                forall|j: int| 0 <= j < i ==> lex_lt(mkey(self@, j), k@),
                i < n ==> !lex_lt(mkey(self@, i as int), k@),
            decreases n - i,
        {
            if i >= n {
                break;
            }
            if !str_lt(self.pairs[i].0.as_str(), k.as_str()) {
                break;
            }
            i += 1;
        }
        proof {
            lemma_map_put_at(self@, k@, v, i as int);
        }
        if i < n && str_eq(self.pairs[i].0.as_str(), k.as_str()) {
            self.pairs.remove(i);
            self.pairs.insert(i, (k, v));
            proof {
                assert(self@ =~= map_put(old(self)@, k@, v));
            }
        } else {
            proof {
                if i < n {
                    lemma_lex_lt_total(k@, mkey(old(self)@, i as int));
                }
            }
            self.pairs.insert(i, (k, v));
            proof {
                assert(self@ =~= map_put(old(self)@, k@, v));
            }
        }
    }

    /// Removes the entry keyed `k`, if present.
    pub fn remove(&mut self, k: &str)
        requires
            old(self).wf(),
        ensures
            final(self)@ == map_del(old(self)@, k@),
            final(self).wf(),
    {
        proof {
            lemma_map_del_sorted(old(self)@, k@);
        }
        let n = self.pairs.len();
        let mut i: usize = 0;
        while i < n
            invariant
                i <= n,
                n == self@.len(),
                self@ == old(self)@,
                old(self).wf(),
                forall|j: int| 0 <= j < i ==> mkey(self@, j) != k@,
            decreases n - i,
        {
            if str_eq(self.pairs[i].0.as_str(), k) {
                proof {
                    lemma_map_del_at(self@, k@, i as int);
                    lemma_map_del_sorted(old(self)@, k@);
                }
                self.pairs.remove(i);
                proof {
                    assert(self@ =~= map_del(old(self)@, k@));
                    assert(sorted_keys(self@));
                }
                return;
            }
            i += 1;
        }
        proof {
            lemma_map_del_at(self@, k@, n as int);
            assert(self@ =~= map_del(old(self)@, k@));
        }
    }
}

/// Entries stored one after the other, first entry first.
pub open spec fn map_put_seq<V>(
    m: Seq<(Seq<char>, V)>,
    es: Seq<(Seq<char>, V)>,
) -> Seq<(Seq<char>, V)>
    decreases es.len(),
{
    if es.len() == 0 {
        m
    } else {
        map_put_seq(map_put(m, es[0].0, es[0].1), es.drop_first())
    }
}

impl<V> SMap<V> {
    /// Hands the entries out, in key order, giving the map up.
    pub fn into_pairs(self) -> (r: Vec<(String, V)>)
        ensures
            r@.len() == self@.len(),
            forall|i: int|
                0 <= i < r@.len() ==> ((#[trigger] r@[i]).0@, r@[i].1) == self@[i],
    {
        let SMap { pairs } = self;
        pairs
    }

    /// Stores every entry of `other` into this map, in order.
    pub fn merge_from(&mut self, other: SMap<V>)
        requires
            old(self).wf(),
        ensures
            final(self).wf(),
            final(self)@ == map_put_seq(old(self)@, other@),
    {
        let ghost otherv = other@;
        let mut pairs = other.into_pairs();
        let ghost total = pairs@.len();
        proof {
            assert(otherv.subrange(0, total as int) =~= otherv);
            assert(otherv.subrange((total - pairs@.len()) as int, total as int) =~= otherv);
        }
        while pairs.len() > 0
            invariant
                self.wf(),
                total == otherv.len(),
                pairs@.len() <= total,
                forall|i: int|
                    0 <= i < pairs@.len() ==> ((#[trigger] pairs@[i]).0@, pairs@[i].1)
                        == otherv[total - pairs@.len() + i],
                map_put_seq(old(self)@, otherv) == map_put_seq(
                    self@,
                    otherv.subrange((total - pairs@.len()) as int, total as int),
                ),
            decreases pairs@.len(),
        {
            let ghost done = total - pairs@.len();
            let pair = pairs.remove(0);
            proof {
                assert((pair.0@, pair.1) == otherv[done as int]);
                let rest = otherv.subrange(done as int, total as int);
                assert(rest[0] == otherv[done as int]);
                assert(rest.drop_first() =~= otherv.subrange(done + 1 as int, total as int));
            }
            self.insert(pair.0, pair.1);
            proof {
                assert forall|i: int| 0 <= i < pairs@.len() implies (
                (#[trigger] pairs@[i]).0@, pairs@[i].1) == otherv[total - pairs@.len()
                    + i] by {
                }
            }
        }
        proof {
            assert(otherv.subrange(total as int, total as int) =~= Seq::<
                (Seq<char>, V),
            >::empty());
        }
    }
}

/// Where the position scan stops is where `map_put` places the key.
proof fn lemma_map_put_at<V>(m: Seq<(Seq<char>, V)>, k: Seq<char>, v: V, i: int)
    requires
        0 <= i <= m.len(),
        forall|j: int| 0 <= j < i ==> lex_lt(mkey(m, j), k),
        i < m.len() ==> !lex_lt(mkey(m, i), k),
    ensures
        i < m.len() && mkey(m, i) == k ==> map_put(m, k, v) == m.subrange(0, i) + seq![(k, v)]
            + m.subrange(i + 1, m.len() as int),
        !(i < m.len() && mkey(m, i) == k) ==> map_put(m, k, v) == m.subrange(0, i) + seq![(k, v)]
            + m.subrange(i, m.len() as int),
    decreases m.len(),
{
    if m.len() == 0 {
        assert(map_put(m, k, v) =~= m.subrange(0, 0) + seq![(k, v)] + m.subrange(0, 0));
    } else if i == 0 {
        if mkey(m, 0) == k {
            assert(map_put(m, k, v) == seq![(k, v)] + m.drop_first());
            assert(map_put(m, k, v) =~= m.subrange(0, 0) + seq![(k, v)] + m.subrange(
                1,
                m.len() as int,
            ));
        } else {
            lemma_lex_lt_total(k, m[0].0);
            assert(lex_lt(k, m[0].0));
            assert(map_put(m, k, v) =~= m.subrange(0, 0) + seq![(k, v)] + m.subrange(
                0,
                m.len() as int,
            ));
        }
    } else {
        assert(lex_lt(mkey(m, 0), k));
        lemma_lex_lt_irrefl(k);
        lemma_lex_lt_total(k, m[0].0);
        assert(!lex_lt(k, m[0].0));
        assert(k != m[0].0);
        assert forall|j: int| 0 <= j < i - 1 implies lex_lt(mkey(m.drop_first(), j), k) by {
            assert(mkey(m.drop_first(), j) == mkey(m, j + 1));
        }
        if i < m.len() {
            assert(mkey(m.drop_first(), i - 1) == mkey(m, i));
        }
        lemma_map_put_at(m.drop_first(), k, v, i - 1);
        if i < m.len() && mkey(m, i) == k {
            assert(map_put(m.drop_first(), k, v) == m.drop_first().subrange(0, i - 1) + seq![
                (k, v),
            ] + m.drop_first().subrange(i, m.len() - 1));
            assert(m.drop_first().subrange(0, i - 1) =~= m.subrange(1, i));
            assert(m.drop_first().subrange(i, m.len() - 1) =~= m.subrange(i + 1, m.len() as int));
            assert(map_put(m, k, v) =~= m.subrange(0, i) + seq![(k, v)] + m.subrange(
                i + 1,
                m.len() as int,
            ));
        } else {
            assert(map_put(m.drop_first(), k, v) == m.drop_first().subrange(0, i - 1) + seq![
                (k, v),
            ] + m.drop_first().subrange(i - 1, m.len() - 1));
            assert(m.drop_first().subrange(0, i - 1) =~= m.subrange(1, i));
            assert(m.drop_first().subrange(i - 1, m.len() - 1) =~= m.subrange(i, m.len() as int));
            assert(map_put(m, k, v) =~= m.subrange(0, i) + seq![(k, v)] + m.subrange(
                i,
                m.len() as int,
            ));
        }
    }
}

/// Where the equality scan stops is where `map_del` removes the key.
proof fn lemma_map_del_at<V>(m: Seq<(Seq<char>, V)>, k: Seq<char>, i: int)
    requires
        0 <= i <= m.len(),
        forall|j: int| 0 <= j < i ==> mkey(m, j) != k,
    ensures
        i < m.len() && mkey(m, i) == k ==> map_del(m, k) == m.subrange(0, i) + m.subrange(
            i + 1,
            m.len() as int,
        ),
        i == m.len() ==> map_del(m, k) == m,
    decreases i,
{
    if i == 0 {
        if 0 < m.len() && mkey(m, 0) == k {
            assert(map_del(m, k) =~= m.subrange(0, 0) + m.subrange(1, m.len() as int));
        }
    } else {
        assert(mkey(m, 0) != k);
        assert forall|j: int| 0 <= j < i - 1 implies mkey(m.drop_first(), j) != k by {
            assert(mkey(m.drop_first(), j) == mkey(m, j + 1));
        }
        lemma_map_del_at(m.drop_first(), k, i - 1);
        if i < m.len() && mkey(m, i) == k {
            assert(mkey(m.drop_first(), i - 1) == mkey(m, i));
            assert(map_del(m.drop_first(), k) == m.drop_first().subrange(0, i - 1)
                + m.drop_first().subrange(i, m.len() - 1));
            assert(m.drop_first().subrange(0, i - 1) =~= m.subrange(1, i));
            assert(m.drop_first().subrange(i, m.len() - 1) =~= m.subrange(i + 1, m.len() as int));
            assert(map_del(m, k) =~= m.subrange(0, i) + m.subrange(i + 1, m.len() as int));
        } else if i == m.len() {
            assert(map_del(m.drop_first(), k) == m.drop_first());
            assert(map_del(m, k) =~= m);
        }
    }
}

} // verus!
