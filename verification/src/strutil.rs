//! String utilities: lexicographic order on character sequences, substring
//! search, splitting and joining around a delimiter, and small path helpers.
//!
//! Every executable function is specified against a spec-level model of the
//! string as a `Seq<char>`.

use vstd::prelude::*;

verus! {

/// Strict lexicographic order on character sequences, comparing characters by
/// Unicode scalar value. This coincides with the order of Rust's `str`
/// comparison, since UTF-8 byte order agrees with scalar-value order.
pub open spec fn seq_lt(a: Seq<char>, b: Seq<char>) -> bool
    decreases a.len(),
{
    if b.len() == 0 {
        false
    } else if a.len() == 0 {
        true
    } else if a[0] != b[0] {
        (a[0] as u32) < (b[0] as u32)
    } else {
        seq_lt(a.drop_first(), b.drop_first())
    }
}

/// Reflexive closure of [`seq_lt`].
pub open spec fn seq_le(a: Seq<char>, b: Seq<char>) -> bool {
    seq_lt(a, b) || a == b
}

/// Distinct characters have distinct Unicode scalar values.
pub proof fn lemma_char_injective(c1: char, c2: char)
    requires
        c1 != c2,
    ensures
        (c1 as u32) != (c2 as u32),
{
}

/// Exactly one of `seq_lt(a, b)`, `seq_lt(b, a)` and `a == b` holds.
pub proof fn lemma_seq_lt_trichotomy(a: Seq<char>, b: Seq<char>)
    ensures
        seq_lt(a, b) || seq_lt(b, a) || a == b,
        !(seq_lt(a, b) && seq_lt(b, a)),
        seq_lt(a, b) ==> a != b,
    decreases a.len(),
{
    if b.len() == 0 {
        if a.len() == 0 {
            assert(a =~= b);
        }
    } else if a.len() == 0 {
    } else if a[0] != b[0] {
        assert(a != b) by {
            assert(a[0] != b[0]);
        }
        assert((a[0] as u32) != (b[0] as u32)) by {
            lemma_char_injective(a[0], b[0]);
        }
    } else {
        lemma_seq_lt_trichotomy(a.drop_first(), b.drop_first());
        if a.drop_first() == b.drop_first() {
            assert(a.len() == b.len());
            assert forall|j: int| 0 <= j < a.len() implies a[j] == b[j] by {
                if j >= 1 {
                    assert(a[j] == a.drop_first()[j - 1]);
                    assert(b[j] == b.drop_first()[j - 1]);
                }
            }
            assert(a =~= b);
        }
    }
}

/// `seq_lt` is transitive.
pub proof fn lemma_seq_lt_transitive(a: Seq<char>, b: Seq<char>, c: Seq<char>)
    requires
        seq_lt(a, b),
        seq_lt(b, c),
    ensures
        seq_lt(a, c),
    decreases a.len(),
{
    if b.len() == 0 {
    } else if c.len() == 0 {
    } else if a.len() == 0 {
    } else if a[0] != b[0] {
        if b[0] != c[0] {
        } else {
        }
    } else if b[0] != c[0] {
    } else {
        lemma_seq_lt_transitive(a.drop_first(), b.drop_first(), c.drop_first());
    }
}

/// A common prefix does not affect the comparison: the order of `a` and `b`
/// agrees with the order of their tails after `i` equal characters.
pub proof fn lemma_seq_lt_common_prefix(a: Seq<char>, b: Seq<char>, i: int)
    requires
        0 <= i <= a.len(),
        i <= b.len(),
        forall|j: int| 0 <= j < i ==> a[j] == b[j],
    ensures
        seq_lt(a, b) == seq_lt(a.skip(i), b.skip(i)),
    decreases i,
{
    if i == 0 {
        assert(a.skip(0) =~= a);
        assert(b.skip(0) =~= b);
    } else {
        assert(a[0] == b[0]);
        lemma_seq_lt_common_prefix(a.drop_first(), b.drop_first(), i - 1);
        assert(a.drop_first().skip(i - 1) =~= a.skip(i));
        assert(b.drop_first().skip(i - 1) =~= b.skip(i));
    }
}

/// Whether the strings are equal, as a comparison of their character views.
pub fn str_eq(a: &str, b: &str) -> (r: bool)
    ensures
        r == (a@ == b@),
{
    let alen = a.unicode_len();
    let blen = b.unicode_len();
    if alen != blen {
        return false;
    }
    let mut i: usize = 0;
    loop
        invariant
            i <= alen,
            alen == a@.len(),
            alen == b@.len(),
            forall|j: int| 0 <= j < i ==> a@[j] == b@[j],
        decreases alen - i,
    {
        if i == alen {
            assert(a@ =~= b@);
            return true;
        }
        if a.get_char(i) != b.get_char(i) {
            return false;
        }
        i = i + 1;
    }
}

/// Whether `a` comes strictly before `b` in lexicographic order.
pub fn str_lt(a: &str, b: &str) -> (r: bool)
    ensures
        r == seq_lt(a@, b@),
{
    let alen = a.unicode_len();
    let blen = b.unicode_len();
    let mut i: usize = 0;
    loop
        invariant
            i <= alen,
            i <= blen,
            alen == a@.len(),
            blen == b@.len(),
            forall|j: int| 0 <= j < i ==> a@[j] == b@[j],
        decreases alen - i,
    {
        if i == alen || i == blen {
            proof {
                lemma_seq_lt_common_prefix(a@, b@, i as int);
            }
            return alen < blen;
        }
        let ca = a.get_char(i);
        let cb = b.get_char(i);
        if ca != cb {
            proof {
                lemma_seq_lt_common_prefix(a@, b@, i as int);
            }
            return (ca as u32) < (cb as u32);
        }
        i = i + 1;
    }
}

/// The delimiter `d` occurs in `s` starting at position `i`.
pub open spec fn occurs_at(s: Seq<char>, d: Seq<char>, i: int) -> bool {
    0 <= i && i + d.len() <= s.len() && s.subrange(i, i + d.len()) == d
}

/// Position of the first occurrence of `d` in `s`, or -1 if there is none.
pub open spec fn spec_find(s: Seq<char>, d: Seq<char>) -> int
    decreases s.len(),
{
    if d.len() > s.len() {
        -1
    } else if s.take(d.len() as int) == d {
        0
    } else if s.len() == 0 {
        -1
    } else {
        let r = spec_find(s.drop_first(), d);
        if r == -1 {
            -1
        } else {
            r + 1
        }
    }
}

/// `spec_find` returns the least position at which `d` occurs, or -1 when `d`
/// does not occur at all.
pub proof fn lemma_find_first(s: Seq<char>, d: Seq<char>)
    requires
        d.len() >= 1,
    ensures
        spec_find(s, d) == -1 ==> forall|i: int| !occurs_at(s, d, i),
        spec_find(s, d) != -1 ==> 0 <= spec_find(s, d) <= s.len() - d.len(),
        spec_find(s, d) != -1 ==> occurs_at(s, d, spec_find(s, d)),
        spec_find(s, d) != -1 ==> forall|i: int| 0 <= i < spec_find(s, d) ==> !occurs_at(s, d, i),
    decreases s.len(),
{
    if d.len() > s.len() {
        assert(forall|i: int| !occurs_at(s, d, i));
    } else if s.take(d.len() as int) == d {
        assert(s.subrange(0, d.len() as int) =~= s.take(d.len() as int));
        assert(occurs_at(s, d, 0));
    } else {
        lemma_find_first(s.drop_first(), d);
        assert(!occurs_at(s, d, 0)) by {
            assert(s.subrange(0, d.len() as int) =~= s.take(d.len() as int));
        }
        assert forall|i: int| 0 <= i implies occurs_at(s, d, i + 1) == occurs_at(
            s.drop_first(),
            d,
            i,
        ) by {
            if i + 1 + d.len() <= s.len() {
                assert(s.subrange(i + 1, i + 1 + d.len()) =~= s.drop_first().subrange(
                    i,
                    i + d.len(),
                ));
            }
        }
        let rf = spec_find(s.drop_first(), d);
        if rf == -1 {
            assert forall|i: int| !occurs_at(s, d, i) by {
                if i >= 1 {
                    assert(occurs_at(s, d, i) == occurs_at(s.drop_first(), d, i - 1));
                }
            }
        } else {
            assert(occurs_at(s, d, rf + 1) == occurs_at(s.drop_first(), d, rf));
            assert forall|i: int| 0 <= i < rf + 1 implies !occurs_at(s, d, i) by {
                if i >= 1 {
                    assert(occurs_at(s, d, i) == occurs_at(s.drop_first(), d, i - 1));
                }
            }
        }
    }
}

/// Position of the first occurrence of `d` in `s`, if any.
pub fn find_sub(s: &str, d: &str) -> (r: Option<usize>)
    requires
        d@.len() >= 1,
    ensures
        match r {
            Some(i) => i == spec_find(s@, d@),
            None => spec_find(s@, d@) == -1,
        },
{
    let n = s.unicode_len();
    let m = d.unicode_len();
    if m > n {
        return None;
    }
    let mut i: usize = 0;
    loop
        invariant
            i <= n - m + 1,
            1 <= m <= n,
            n == s@.len(),
            m == d@.len(),
            forall|k: int| 0 <= k < i ==> !occurs_at(s@, d@, k),
        decreases n - m + 1 - i,
    {
        if i > n - m {
            proof {
                lemma_find_first(s@, d@);
                if spec_find(s@, d@) != -1 {
                    assert(!occurs_at(s@, d@, spec_find(s@, d@)));
                }
            }
            return None;
        }
        let mut j: usize = 0;
        let mut ok = true;
        while j < m
            invariant
                j <= m,
                i + m <= n,
                n == s@.len(),
                m == d@.len(),
                ok == (forall|t: int| 0 <= t < j ==> s@[i + t] == d@[t]),
            decreases m - j,
        {
            if s.get_char(i + j) != d.get_char(j) {
                ok = false;
            }
            j = j + 1;
        }
        if ok {
            proof {
                assert(s@.subrange(i as int, i + m) =~= d@);
                assert(occurs_at(s@, d@, i as int));
                lemma_find_first(s@, d@);
                if spec_find(s@, d@) == -1 {
                    assert(!occurs_at(s@, d@, i as int));
                } else if spec_find(s@, d@) < i {
                    assert(!occurs_at(s@, d@, spec_find(s@, d@)));
                } else if spec_find(s@, d@) > i {
                    assert(!occurs_at(s@, d@, i as int));
                }
            }
            return Some(i);
        }
        proof {
            assert(!occurs_at(s@, d@, i as int)) by {
                let t = choose|t: int| 0 <= t < m && s@[i + t] != d@[t];
                if occurs_at(s@, d@, i as int) {
                    assert(s@.subrange(i as int, i + m)[t] == s@[i + t]);
                }
            }
        }
        i = i + 1;
    }
}

/// The pieces of `s` between non-overlapping occurrences of the delimiter
/// `d`, scanning from the left; a string with no occurrence of `d` is a
/// single piece, so the result never has fewer than one piece.
pub open spec fn spec_split(s: Seq<char>, d: Seq<char>) -> Seq<Seq<char>>
    decreases s.len(),
{
    let i = spec_find(s, d);
    if 1 <= d.len() && 0 <= i && i + d.len() <= s.len() {
        seq![s.take(i)] + spec_split(s.skip(i + d.len()), d)
    } else {
        seq![s]
    }
}

/// The elements of `ts` concatenated with the delimiter `d` between
/// consecutive elements.
pub open spec fn spec_join(ts: Seq<Seq<char>>, d: Seq<char>) -> Seq<char>
    decreases ts.len(),
{
    if ts.len() == 0 {
        Seq::empty()
    } else if ts.len() == 1 {
        ts[0]
    } else {
        ts[0] + d + spec_join(ts.drop_first(), d)
    }
}

/// Appending one more piece extends the join by a delimiter and the piece.
pub proof fn lemma_join_push(ts: Seq<Seq<char>>, d: Seq<char>, t: Seq<char>)
    requires
        ts.len() >= 1,
    ensures
        spec_join(ts.push(t), d) == spec_join(ts, d) + d + t,
    decreases ts.len(),
{
    if ts.len() == 1 {
        assert(ts.push(t).drop_first() =~= seq![t]);
        assert(spec_join(seq![t], d) == t);
        assert(ts.push(t)[0] == ts[0]);
        assert(spec_join(ts.push(t), d) == ts[0] + d + t);
        assert(spec_join(ts, d) + d + t =~= ts[0] + d + t);
    } else {
        lemma_join_push(ts.drop_first(), d, t);
        assert(ts.push(t).drop_first() =~= ts.drop_first().push(t));
        assert(spec_join(ts.push(t), d) == ts[0] + d + spec_join(ts.drop_first().push(t), d));
        assert(spec_join(ts, d) + d + t =~= ts[0] + d + (spec_join(ts.drop_first(), d) + d + t));
    }
}

/// When no occurrence of `d` starts inside the leading piece `t0`, splitting
/// `t0 + d + rest` peels off exactly `t0` and continues with `rest`.
pub proof fn lemma_split_of_concat(t0: Seq<char>, d: Seq<char>, rest: Seq<char>)
    requires
        d.len() >= 1,
        forall|j: int| 0 <= j < t0.len() ==> !occurs_at(t0 + d + rest, d, j),
    ensures
        spec_split(t0 + d + rest, d) == seq![t0] + spec_split(rest, d),
{
    let s = t0 + d + rest;
    assert(occurs_at(s, d, t0.len() as int)) by {
        assert(s.subrange(t0.len() as int, t0.len() + d.len() as int) =~= d);
    }
    lemma_find_first(s, d);
    let f = spec_find(s, d);
    if f == -1 {
        assert(!occurs_at(s, d, t0.len() as int));
    }
    if f < t0.len() {
        assert(!occurs_at(s, d, f));
    }
    if f > t0.len() {
        assert(!occurs_at(s, d, t0.len() as int));
    }
    assert(f == t0.len());
    assert(s.take(f) =~= t0);
    assert(s.skip(f + d.len()) =~= rest);
}

/// Splitting undoes joining, provided some character of the delimiter (the
/// "marker", `d[p]`) occurs nowhere else in the delimiter and in none of the
/// joined pieces.
pub proof fn lemma_split_join(ts: Seq<Seq<char>>, d: Seq<char>, p: int)
    requires
        ts.len() >= 1,
        d.len() >= 1,
        0 <= p < d.len(),
        forall|q: int| 0 <= q < d.len() && q != p ==> d[q] != d[p],
        forall|k: int| 0 <= k < ts.len() ==> !(#[trigger] ts[k]).contains(d[p]),
    ensures
        spec_split(spec_join(ts, d), d) == ts,
    decreases ts.len(),
{
    let t0 = ts[0];
    assert(!t0.contains(d[p]));
    if ts.len() == 1 {
        assert(spec_join(ts, d) == t0);
        assert forall|j: int| !occurs_at(t0, d, j) by {
            if occurs_at(t0, d, j) {
                assert(t0.subrange(j, j + d.len())[p] == d[p]);
                assert(t0[j + p] == d[p]);
                assert(t0.contains(d[p]));
            }
        }
        lemma_find_first(t0, d);
        if spec_find(t0, d) != -1 {
            assert(!occurs_at(t0, d, spec_find(t0, d)));
        }
        assert(spec_split(t0, d) =~= seq![t0]);
        assert(seq![t0] =~= ts);
    } else {
        let rest = spec_join(ts.drop_first(), d);
        let s = t0 + d + rest;
        assert(spec_join(ts, d) == s);
        assert forall|j: int| 0 <= j < t0.len() implies !occurs_at(s, d, j) by {
            if occurs_at(s, d, j) {
                assert(s.subrange(j, j + d.len())[p] == d[p]);
                assert(s[j + p] == d[p]);
                if j + p < t0.len() {
                    assert(t0[j + p] == d[p]);
                    assert(t0.contains(d[p]));
                } else {
                    let q = j + p - t0.len();
                    assert(s[j + p] == d[q]);
                    assert(q < p);
                }
            }
        }
        lemma_split_of_concat(t0, d, rest);
        assert forall|k: int| 0 <= k < ts.drop_first().len() implies !(
        #[trigger] ts.drop_first()[k]).contains(d[p]) by {
            assert(ts.drop_first()[k] == ts[k + 1]);
        }
        lemma_split_join(ts.drop_first(), d, p);
        assert(seq![t0] + ts.drop_first() =~= ts);
    }
}

/// Splits `s` at each occurrence of the delimiter `d`, scanning from the
/// left.
pub fn split_str(s: &str, d: &str) -> (r: Vec<String>)
    requires
        d@.len() >= 1,
    ensures
        r.deep_view() == spec_split(s@, d@),
        r.len() >= 1,
{
    let m = d.unicode_len();
    let mut r: Vec<String> = Vec::new();
    let mut rest: String = String::from_str(s);
    loop
        invariant_except_break
            m == d@.len(),
            1 <= m,
            spec_split(s@, d@) == r.deep_view() + spec_split(rest@, d@),
        ensures
            r.deep_view() == spec_split(s@, d@),
            r.len() >= 1,
        decreases rest@.len(),
    {
        match find_sub(rest.as_str(), d) {
            None => {
                let ghost old_r = r.deep_view();
                let ghost rest_v = rest@;
                r.push(rest);
                proof {
                    assert(spec_split(rest_v, d@) =~= seq![rest_v]);
                    assert(r.deep_view() =~= old_r + seq![rest_v]);
                }
                break;
            },
            Some(i) => {
                let ghost old_r = r.deep_view();
                let ghost rest_v = rest@;
                proof {
                    lemma_find_first(rest_v, d@);
                }
                let len = rest.as_str().unicode_len();
                let piece = String::from_str(rest.as_str().substring_char(0, i));
                let tail = String::from_str(rest.as_str().substring_char(i + m, len));
                r.push(piece);
                rest = tail;
                proof {
                    assert(piece@ =~= rest_v.take(i as int));
                    assert(rest@ =~= rest_v.skip(i + m));
                    assert(spec_split(rest_v, d@) == seq![rest_v.take(i as int)] + spec_split(
                        rest_v.skip(i + m),
                        d@,
                    ));
                    assert(r.deep_view() =~= old_r + seq![rest_v.take(i as int)]);
                    assert(r.deep_view() + spec_split(rest@, d@) =~= old_r + spec_split(
                        rest_v,
                        d@,
                    ));
                }
            },
        }
    }
    r
}

/// Joins the strings in `ts` with the delimiter `d` between consecutive
/// elements.
pub fn join_strs(ts: &Vec<String>, d: &str) -> (r: String)
    ensures
        r@ == spec_join(ts.deep_view(), d@),
{
    let mut r = String::new();
    if ts.len() == 0 {
        return r;
    }
    let mut i: usize = 1;
    r.append(ts[0].as_str());
    proof {
        assert(ts.deep_view().take(1) =~= seq![ts.deep_view()[0]]);
        assert(r@ == spec_join(ts.deep_view().take(1), d@));
    }
    while i < ts.len()
        invariant
            1 <= i <= ts.len(),
            r@ == spec_join(ts.deep_view().take(i as int), d@),
        decreases ts.len() - i,
    {
        r.append(d);
        r.append(ts[i].as_str());
        proof {
            lemma_join_push(ts.deep_view().take(i as int), d@, ts.deep_view()[i as int]);
            assert(ts.deep_view().take(i + 1) =~= ts.deep_view().take(i as int).push(
                ts.deep_view()[i as int],
            ));
        }
        i = i + 1;
    }
    proof {
        assert(ts.deep_view().take(ts.len() as int) =~= ts.deep_view());
    }
    r
}

} // verus!
