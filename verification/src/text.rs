//! Text fundamentals: lexicographic order on character sequences, splitting a
//! text into lines and joining lines back, and decimal rendering and parsing
//! of unsigned integers. All other modules state their contracts over the
//! spec functions defined here.

use vstd::prelude::*;

verus! {

// ------------------------------------------------------------------
// Lexicographic order on character sequences
// ------------------------------------------------------------------

/// Strict lexicographic order by Unicode code point.
pub open spec fn lex_lt(a: Seq<char>, b: Seq<char>) -> bool
    decreases a.len(),
{
    if b.len() == 0 {
        false
    } else if a.len() == 0 {
        true
    } else if a[0] != b[0] {
        a[0] < b[0]
    } else {
        lex_lt(a.drop_first(), b.drop_first())
    }
}

pub proof fn lemma_lex_lt_irrefl(a: Seq<char>)
    ensures
        !lex_lt(a, a),
    decreases a.len(),
{
    if a.len() > 0 {
        lemma_lex_lt_irrefl(a.drop_first());
    }
}

/// Of two distinct sequences, exactly one precedes the other.
pub proof fn lemma_lex_lt_total(a: Seq<char>, b: Seq<char>)
    ensures
        a != b ==> (lex_lt(a, b) || lex_lt(b, a)),
        !(lex_lt(a, b) && lex_lt(b, a)),
    decreases a.len() + b.len(),
{
    if a.len() == 0 && b.len() == 0 {
        assert(a =~= b);
    }
    if a.len() > 0 && b.len() > 0 {
        lemma_lex_lt_total(a.drop_first(), b.drop_first());
        if a[0] == b[0] && a.drop_first() == b.drop_first() {
            assert(a =~= b) by {
                assert(a.len() == b.len());
                assert forall|j: int| 0 <= j < a.len() implies a[j] == b[j] by {
                    if j > 0 {
                        assert(a[j] == a.drop_first()[j - 1]);
                        assert(b[j] == b.drop_first()[j - 1]);
                    }
                }
            }
        }
    }
}

pub proof fn lemma_lex_lt_trans(a: Seq<char>, b: Seq<char>, c: Seq<char>)
    requires
        lex_lt(a, b),
        lex_lt(b, c),
    ensures
        lex_lt(a, c),
    decreases a.len(),
{
    if a.len() > 0 && b.len() > 0 && c.len() > 0 {
        if a[0] == b[0] && b[0] == c[0] {
            lemma_lex_lt_trans(a.drop_first(), b.drop_first(), c.drop_first());
        }
    }
}

/// Equal prefixes do not decide the order: it is settled past them.
proof fn lemma_lex_lt_skip(a: Seq<char>, b: Seq<char>, i: int)
    requires
        0 <= i <= a.len(),
        i <= b.len(),
        forall|j: int| 0 <= j < i ==> a[j] == b[j],
    ensures
        lex_lt(a, b) == lex_lt(a.skip(i), b.skip(i)),
    decreases i,
{
    if i > 0 {
        lemma_lex_lt_skip(a.drop_first(), b.drop_first(), i - 1);
        assert(a.drop_first().skip(i - 1) =~= a.skip(i));
        assert(b.drop_first().skip(i - 1) =~= b.skip(i));
    } else {
        assert(a.skip(0) =~= a);
        assert(b.skip(0) =~= b);
    }
}

/// Decides `lex_lt` on two string slices.
pub fn str_lt(a: &str, b: &str) -> (r: bool)
    ensures
        r == lex_lt(a@, b@),
{
    let alen = a.unicode_len();
    let blen = b.unicode_len();
    let mut i: usize = 0;
    loop
        invariant
            i <= alen,
            i <= blen,
            alen == a@.len(),
            blen == b@.len(),
            forall|j: int| 0 <= j < i ==> a@[j] == b@[j],
        decreases alen - i,
    {
        proof {
            lemma_lex_lt_skip(a@, b@, i as int);
        }
        if i >= blen {
            assert(b@.skip(i as int).len() == 0);
            return false;
        }
        if i >= alen {
            assert(a@.skip(i as int).len() == 0);
            return true;
        }
        let ca = a.get_char(i);
        let cb = b.get_char(i);
        assert(a@.skip(i as int)[0] == a@[i as int]);
        assert(b@.skip(i as int)[0] == b@[i as int]);
        if ca != cb {
            return ca < cb;
        }
        i += 1;
    }
}

/// Decides equality of two string slices.
pub fn str_eq(a: &str, b: &str) -> (r: bool)
    ensures
        r == (a@ == b@),
{
    let alen = a.unicode_len();
    let blen = b.unicode_len();
    if alen != blen {
        return false;
    }
    let mut i: usize = 0;
    while i < alen
        invariant
            i <= alen,
            alen == a@.len(),
            alen == b@.len(),
            forall|j: int| 0 <= j < i ==> a@[j] == b@[j],
        decreases alen - i,
    {
        if a.get_char(i) != b.get_char(i) {
            return false;
        }
        i += 1;
    }
    proof {
        assert(a@ =~= b@);
    }
    true
}

// ------------------------------------------------------------------
// Lines
// ------------------------------------------------------------------

/// The pieces of `s` between newline characters; always at least one piece.
pub open spec fn split_text(s: Seq<char>) -> Seq<Seq<char>>
    decreases s.len(),
{
    if s.len() == 0 {
        seq![Seq::<char>::empty()]
    } else if s[0] == '\n' {
        seq![Seq::<char>::empty()] + split_text(s.drop_first())
    } else {
        let r = split_text(s.drop_first());
        seq![seq![s[0]] + r[0]] + r.drop_first()
    }
}

pub proof fn lemma_split_text_len(s: Seq<char>)
    ensures
        split_text(s).len() >= 1,
    decreases s.len(),
{
    if s.len() > 0 {
        lemma_split_text_len(s.drop_first());
    }
}

/// The lines of a text: an empty text has no lines.
pub open spec fn text_lines(s: Seq<char>) -> Seq<Seq<char>> {
    if s.len() == 0 {
        Seq::<Seq<char>>::empty()
    } else {
        split_text(s)
    }
}

/// Joins lines with single newline separators; the inverse of `text_lines`.
pub open spec fn join_lines(ls: Seq<Seq<char>>) -> Seq<char>
    decreases ls.len(),
{
    if ls.len() == 0 {
        Seq::<char>::empty()
    } else if ls.len() == 1 {
        ls[0]
    } else {
        ls[0] + seq!['\n'] + join_lines(ls.drop_first())
    }
}

pub proof fn lemma_join_split(s: Seq<char>)
    ensures
        join_lines(split_text(s)) == s,
    decreases s.len(),
{
    lemma_split_text_len(s);
    if s.len() == 0 {
        assert(join_lines(split_text(s)) =~= s);
    } else if s[0] == '\n' {
        lemma_join_split(s.drop_first());
        lemma_split_text_len(s.drop_first());
        let parts = seq![Seq::<char>::empty()] + split_text(s.drop_first());
        assert(parts.drop_first() =~= split_text(s.drop_first()));
        assert(join_lines(parts) =~= s);
    } else {
        lemma_join_split(s.drop_first());
        lemma_split_text_len(s.drop_first());
        let r = split_text(s.drop_first());
        let parts = seq![seq![s[0]] + r[0]] + r.drop_first();
        if r.len() == 1 {
            assert(join_lines(r) == r[0]);
            assert(parts.len() == 1);
            assert(join_lines(parts) == seq![s[0]] + r[0]);
            assert(join_lines(parts) =~= s);
        } else {
            assert(parts.drop_first() =~= r.drop_first());
            assert(join_lines(parts) == parts[0] + seq!['\n'] + join_lines(r.drop_first()));
            assert(join_lines(r) == r[0] + seq!['\n'] + join_lines(r.drop_first()));
            assert(s =~= seq![s[0]] + s.drop_first());
            assert(s.drop_first() == r[0] + seq!['\n'] + join_lines(r.drop_first()));
            assert(join_lines(parts) =~= s);
        }
    }
}

/// Splitting then joining restores the text, also through `text_lines`.
pub proof fn lemma_join_text_lines(s: Seq<char>)
    ensures
        join_lines(text_lines(s)) == s,
{
    if s.len() == 0 {
        assert(join_lines(text_lines(s)) =~= s);
    } else {
        lemma_join_split(s);
    }
}

/// How `split_text` grows when one character is appended.
proof fn lemma_split_text_snoc(s: Seq<char>, c: char)
    ensures
        c == '\n' ==> split_text(s.push(c)) == split_text(s).push(Seq::<char>::empty()),
        c != '\n' ==> split_text(s.push(c)) == split_text(s).update(
            split_text(s).len() - 1,
            split_text(s).last().push(c),
        ),
    decreases s.len(),
{
    lemma_split_text_len(s);
    if s.len() == 0 {
        if c == '\n' {
            assert(s.push(c)[0] == '\n');
            assert(s.push(c).drop_first() =~= s);
            assert(split_text(s.push(c)) =~= split_text(s).push(Seq::<char>::empty()));
        } else {
            assert(s.push(c)[0] == c);
            assert(s.push(c).drop_first() =~= s);
            let r = split_text(s);
            assert(split_text(s.push(c)) =~= split_text(s).update(
                split_text(s).len() - 1,
                split_text(s).last().push(c),
            ));
        }
    } else {
        lemma_split_text_snoc(s.drop_first(), c);
        lemma_split_text_len(s.drop_first());
        assert(s.push(c)[0] == s[0]);
        assert(s.push(c).drop_first() =~= s.drop_first().push(c));
        let r0 = split_text(s.drop_first());
        let r1 = split_text(s.drop_first().push(c));
        if s[0] == '\n' {
            if c == '\n' {
                assert(split_text(s.push(c)) =~= split_text(s).push(Seq::<char>::empty()));
            } else {
                assert(r0.len() >= 1);
                assert(split_text(s.push(c)) =~= split_text(s).update(
                    split_text(s).len() - 1,
                    split_text(s).last().push(c),
                ));
            }
        } else {
            if c == '\n' {
                assert(r1 == r0.push(Seq::<char>::empty()));
                assert(r1[0] == r0[0]);
                assert(r1.drop_first() =~= r0.drop_first().push(Seq::<char>::empty()));
                assert(split_text(s.push(c)) =~= split_text(s).push(Seq::<char>::empty()));
            } else {
                assert(r1 == r0.update(r0.len() - 1, r0.last().push(c)));
                if r0.len() == 1 {
                    assert(r1[0] == r0[0].push(c));
                    assert(r1.drop_first() =~= r0.drop_first());
                    assert(split_text(s.push(c)) =~= split_text(s).update(
                        split_text(s).len() - 1,
                        split_text(s).last().push(c),
                    ));
                } else {
                    assert(r1[0] == r0[0]);
                    assert(r1.drop_first() =~= r0.drop_first().update(
                        r0.drop_first().len() - 1,
                        r0.drop_first().last().push(c),
                    ));
                    assert(split_text(s.push(c)) =~= split_text(s).update(
                        split_text(s).len() - 1,
                        split_text(s).last().push(c),
                    ));
                }
            }
        }
    }
}

/// The character-sequence views of a sequence of strings.
pub open spec fn views_of(v: Seq<String>) -> Seq<Seq<char>> {
    v.map_values(|s: String| s@)
}

/// Relies on `String::push` from std: appends one character at the end.
#[verifier::external_body]
pub fn push_char(s: &mut String, c: char)
    ensures
        final(s)@ == old(s)@.push(c),
{
    s.push(c);
}

/// Splits a text into its lines; an empty text yields no lines.
pub fn split_string(s: &str) -> (r: Vec<String>)
    ensures
        views_of(r@) == text_lines(s@),
{
    let n = s.unicode_len();
    if n == 0 {
        let r: Vec<String> = Vec::new();
        proof {
            assert(views_of(r@) =~= text_lines(s@));
        }
        return r;
    }
    let mut out: Vec<String> = Vec::new();
    let mut cur: String = String::new();
    let mut i: usize = 0;
    while i < n
        invariant
            i <= n,
            n == s@.len(),
            n > 0,
            views_of(out@).push(cur@) =~= split_text(s@.subrange(0, i as int)),
        decreases n - i,
    {
        let c = s.get_char(i);
        proof {
            lemma_split_text_snoc(s@.subrange(0, i as int), s@[i as int]);
            lemma_split_text_len(s@.subrange(0, i as int));
            assert(s@.subrange(0, i + 1 as int) =~= s@.subrange(0, i as int).push(s@[i as int]));
        }
        if c == '\n' {
            out.push(cur);
            cur = String::new();
            proof {
                assert(views_of(out@).push(cur@) =~= split_text(s@.subrange(0, i + 1 as int)));
            }
        } else {
            push_char(&mut cur, c);
            proof {
                assert(views_of(out@).push(cur@) =~= split_text(s@.subrange(0, i + 1 as int)));
            }
        }
        i += 1;
    }
    out.push(cur);
    proof {
        assert(s@.subrange(0, n as int) =~= s@);
        assert(views_of(out@) =~= split_text(s@));
    }
    out
}

/// How `join_lines` grows when one line is appended.
proof fn lemma_join_lines_snoc(ls: Seq<Seq<char>>, l: Seq<char>)
    ensures
        ls.len() == 0 ==> join_lines(ls.push(l)) == l,
        ls.len() > 0 ==> join_lines(ls.push(l)) == join_lines(ls) + seq!['\n'] + l,
    decreases ls.len(),
{
    if ls.len() == 0 {
        assert(ls.push(l).len() == 1);
        assert(ls.push(l)[0] == l);
    } else if ls.len() == 1 {
        assert(ls.push(l).drop_first() =~= seq![l]);
        assert(join_lines(seq![l]) == l);
        assert(ls.push(l)[0] == ls[0]);
        assert(join_lines(ls.push(l)) == ls[0] + seq!['\n'] + l);
        assert(join_lines(ls) == ls[0]);
    } else {
        lemma_join_lines_snoc(ls.drop_first(), l);
        assert(ls.push(l).drop_first() =~= ls.drop_first().push(l));
        assert(join_lines(ls.push(l)) =~= join_lines(ls) + seq!['\n'] + l);
    }
}

/// Joins lines with newline separators; the inverse of `split_string`.
pub fn join_strings(v: &Vec<String>) -> (r: String)
    ensures
        r@ == join_lines(views_of(v@)),
{
    let mut acc = String::new();
    let mut i: usize = 0;
    while i < v.len()
        invariant
            i <= v@.len(),
            acc@ =~= join_lines(views_of(v@.subrange(0, i as int))),
        decreases v@.len() - i,
    {
        proof {
            reveal_strlit("\n");
            lemma_join_lines_snoc(views_of(v@.subrange(0, i as int)), v@[i as int]@);
            assert(views_of(v@.subrange(0, i + 1 as int)) =~= views_of(
                v@.subrange(0, i as int),
            ).push(v@[i as int]@));
        }
        if i > 0 {
            acc.append("\n");
        }
        acc.append(v[i].as_str());
        i += 1;
    }
    proof {
        assert(v@.subrange(0, v@.len() as int) =~= v@);
    }
    acc
}

// ------------------------------------------------------------------
// Decimal numerals
// ------------------------------------------------------------------

pub open spec fn dec_digit(d: int) -> char {
    if d == 0 {
        '0'
    } else if d == 1 {
        '1'
    } else if d == 2 {
        '2'
    } else if d == 3 {
        '3'
    } else if d == 4 {
        '4'
    } else if d == 5 {
        '5'
    } else if d == 6 {
        '6'
    } else if d == 7 {
        '7'
    } else if d == 8 {
        '8'
    } else {
        '9'
    }
}

/// The canonical decimal numeral of a nonnegative integer.
pub open spec fn dec_str(n: int) -> Seq<char>
    decreases n,
{
    if n < 10 {
        seq![dec_digit(n)]
    } else {
        dec_str(n / 10).push(dec_digit(n % 10))
    }
}

pub open spec fn is_dec_char(c: char) -> bool {
    48 <= c as u32 <= 57
}

pub open spec fn dec_char_val(c: char) -> int {
    c as u32 - 48
}

pub open spec fn is_dec_seq(s: Seq<char>) -> bool {
    s.len() > 0 && forall|k: int| 0 <= k < s.len() ==> is_dec_char(#[trigger] s[k])
}

/// The value of a digit sequence.
pub open spec fn dec_val(s: Seq<char>) -> int
    decreases s.len(),
{
    if s.len() == 0 {
        0
    } else {
        dec_val(s.drop_last()) * 10 + dec_char_val(s.last())
    }
}

pub proof fn lemma_dec_val_nonneg(s: Seq<char>)
    requires
        forall|k: int| 0 <= k < s.len() ==> is_dec_char(#[trigger] s[k]),
    ensures
        dec_val(s) >= 0,
    decreases s.len(),
{
    if s.len() > 0 {
        lemma_dec_val_nonneg(s.drop_last());
    }
}

/// Each digit character carries its digit value.
proof fn lemma_dec_digit_val(d: int)
    requires
        0 <= d <= 9,
    ensures
        is_dec_char(dec_digit(d)),
        dec_char_val(dec_digit(d)) == d,
{
    assert('0' as u32 == 48);
    assert('1' as u32 == 49);
    assert('2' as u32 == 50);
    assert('3' as u32 == 51);
    assert('4' as u32 == 52);
    assert('5' as u32 == 53);
    assert('6' as u32 == 54);
    assert('7' as u32 == 55);
    assert('8' as u32 == 56);
    assert('9' as u32 == 57);
}

/// A numeral printed by `dec_str` is all digits and reads back to its value.
pub proof fn lemma_dec_str_val(n: int)
    requires
        n >= 0,
    ensures
        is_dec_seq(dec_str(n)),
        dec_val(dec_str(n)) == n,
    decreases n,
{
    if n < 10 {
        lemma_dec_digit_val(n);
        assert(dec_str(n) == seq![dec_digit(n)]);
        assert(dec_str(n).drop_last() =~= Seq::<char>::empty());
        assert(dec_str(n).last() == dec_digit(n));
        assert(dec_val(Seq::<char>::empty()) == 0);
        assert(dec_val(dec_str(n)) == 0 * 10 + dec_char_val(dec_digit(n)));
    } else {
        lemma_dec_str_val(n / 10);
        lemma_dec_digit_val(n % 10);
        assert(dec_str(n).drop_last() =~= dec_str(n / 10));
        assert(dec_str(n).last() == dec_digit(n % 10));
        assert(dec_val(dec_str(n)) == dec_val(dec_str(n / 10)) * 10 + dec_char_val(
            dec_digit(n % 10),
        ));
        assert(n / 10 * 10 + n % 10 == n);
        assert(is_dec_seq(dec_str(n)));
    }
}

fn dec_digit_str(d: u128) -> (r: &'static str)
    requires
        d < 10,
    ensures
        r@ =~= seq![dec_digit(d as int)],
{
    proof {
        reveal_strlit("0");
        reveal_strlit("1");
        reveal_strlit("2");
        reveal_strlit("3");
        reveal_strlit("4");
        reveal_strlit("5");
        reveal_strlit("6");
        reveal_strlit("7");
        reveal_strlit("8");
        reveal_strlit("9");
    }
    if d == 0 {
        "0"
    } else if d == 1 {
        "1"
    } else if d == 2 {
        "2"
    } else if d == 3 {
        "3"
    } else if d == 4 {
        "4"
    } else if d == 5 {
        "5"
    } else if d == 6 {
        "6"
    } else if d == 7 {
        "7"
    } else if d == 8 {
        "8"
    } else {
        "9"
    }
}

/// Renders `n` as its decimal numeral.
pub fn u128_to_string(n: u128) -> (r: String)
    ensures
        r@ == dec_str(n as int),
    decreases n,
{
    if n < 10 {
        String::from_str(dec_digit_str(n))
    } else {
        let mut s = u128_to_string(n / 10);
        s.append(dec_digit_str(n % 10));
        proof {
            assert(s@ =~= dec_str(n as int));
        }
        s
    }
}

/// Renders `n` as its decimal numeral.
pub fn usize_to_string(n: usize) -> (r: String)
    ensures
        r@ == dec_str(n as int),
{
    u128_to_string(n as u128)
}

pub proof fn lemma_dec_val_snoc(s: Seq<char>, c: char)
    ensures
        dec_val(s.push(c)) == dec_val(s) * 10 + dec_char_val(c),
{
    assert(s.push(c).drop_last() =~= s);
    assert(s.push(c).last() == c);
}

/// Reads a decimal numeral; rejects empty or non-digit text and overflow.
pub fn str_to_u128(s: &str) -> (r: Option<u128>)
    ensures
        r matches Some(v) ==> is_dec_seq(s@) && v as int == dec_val(s@),
        (r is Some) == (is_dec_seq(s@) && dec_val(s@) <= u128::MAX as int),
{
    let n = s.unicode_len();
    if n == 0 {
        return None;
    }
    let mut acc: u128 = 0;
    let mut i: usize = 0;
    while i < n
        invariant
            0 < n == s@.len(),
            i <= n,
            forall|k: int| 0 <= k < i ==> is_dec_char(#[trigger] s@[k]),
            acc as int == dec_val(s@.subrange(0, i as int)),
        decreases n - i,
    {
        let c = s.get_char(i);
        let cv = c as u32;
        if cv < 48 || cv > 57 {
            return None;
        }
        proof {
            lemma_dec_val_snoc(s@.subrange(0, i as int), s@[i as int]);
            assert(s@.subrange(0, i + 1 as int) =~= s@.subrange(0, i as int).push(s@[i as int]));
        }
        let step = match acc.checked_mul(10) {
            Some(m) => m.checked_add((cv - 48) as u128),
            None => None,
        };
        match step {
            Some(v) => {
                acc = v;
            },
            None => {
                proof {
                    if is_dec_seq(s@) {
                        lemma_dec_val_grows(s@, i + 1);
                    }
                }
                return None;
            },
        }
        i += 1;
    }
    proof {
        assert(s@.subrange(0, n as int) =~= s@);
    }
    Some(acc)
}

/// The value of a digit sequence is at least the value of any prefix.
pub proof fn lemma_dec_val_grows(s: Seq<char>, i: int)
    requires
        0 <= i <= s.len(),
        forall|k: int| 0 <= k < s.len() ==> is_dec_char(#[trigger] s[k]),
    ensures
        dec_val(s) >= dec_val(s.subrange(0, i)),
    decreases s.len() - i,
{
    if i < s.len() {
        lemma_dec_val_grows(s, i + 1);
        lemma_dec_val_snoc(s.subrange(0, i), s[i]);
        assert(s.subrange(0, i + 1) =~= s.subrange(0, i).push(s[i]));
        lemma_dec_val_nonneg(s.subrange(0, i));
    } else {
        assert(s.subrange(0, i) =~= s);
    }
}

} // verus!
