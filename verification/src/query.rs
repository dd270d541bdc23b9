//! The query engine: filtering the index by a tag selection.
//!
//! A selection names tags that must be checked and tags that must not be
//! checked on a matching item; tags it
//! does not mention are unconstrained. An item matches when its membership
//! pattern over the mentioned tags equals the selection's pattern exactly.
//! The match is computed over membership vectors: the mentioned tags are
//! collected into a sorted, duplicate-free list, both the selection and
//! each item are turned into boolean membership vectors over that list, and
//! the vectors are compared for full equality.

use vstd::prelude::*;

use crate::index::DataBase;
use crate::item::{DBItem, ItemV, contains_str};
use crate::strutil::{seq_lt, str_lt, str_eq, lemma_seq_lt_trichotomy, lemma_seq_lt_transitive};

verus! {

/// A per-request tag selection.
pub struct Selection {
    /// Tags that must be among an item's checked tags.
    pub inc: Vec<String>,
    /// Tags that must not be among an item's checked tags.
    pub exc: Vec<String>,
}

/// Spec-level model of a [`Selection`].
pub ghost struct SelectionV {
    pub inc: Seq<Seq<char>>,
    pub exc: Seq<Seq<char>>,
}

impl View for Selection {
    type V = SelectionV;

    open spec fn view(&self) -> SelectionV {
        SelectionV { inc: self.inc.deep_view(), exc: self.exc.deep_view() }
    }
}

/// An item with checked tags `tags` matches the selection: every tag of
/// `inc` is among the checked tags, and every tag of `exc` is not — except
/// that a tag listed on both sides counts as `inc`.
pub open spec fn spec_matches(sel: SelectionV, tags: Seq<Seq<char>>) -> bool {
    (forall|k: int| 0 <= k < sel.inc.len() ==> tags.contains(#[trigger] sel.inc[k]))
        && (forall|k: int|
        0 <= k < sel.exc.len() ==> sel.inc.contains(#[trigger] sel.exc[k])
            || !tags.contains(sel.exc[k]))
}

/// The raw query pairs, at the spec level.
pub open spec fn pairs_view(ps: Seq<(String, String)>) -> Seq<(Seq<char>, Seq<char>)> {
    ps.map_values(|p: (String, String)| (p.0@, p.1@))
}

/// The tags of the pairs whose value is `v`, in order.
pub open spec fn spec_selected(ps: Seq<(Seq<char>, Seq<char>)>, v: Seq<char>) -> Seq<Seq<char>> {
    ps.filter(|p: (Seq<char>, Seq<char>)| p.1 == v).map_values(|p: (Seq<char>, Seq<char>)| p.0)
}

/// The tags of the pairs whose value has the characters of `v`, in order.
fn selected_tags(pairs: &Vec<(String, String)>, v: &str) -> (r: Vec<String>)
    ensures
        r.deep_view() == spec_selected(pairs_view(pairs@), v@),
{
    let ghost pv = pairs_view(pairs@);
    let ghost pred = |p: (Seq<char>, Seq<char>)| p.1 == v@;
    let ghost proj = |p: (Seq<char>, Seq<char>)| p.0;
    let mut r: Vec<String> = Vec::new();
    let mut i: usize = 0;
    proof {
        assert(pv.take(0) =~= Seq::<(Seq<char>, Seq<char>)>::empty());
        assert(pv.take(0).filter(pred) =~= Seq::<(Seq<char>, Seq<char>)>::empty());
        assert(pv.take(0).filter(pred).map_values(proj) =~= Seq::<Seq<char>>::empty());
    }
    while i < pairs.len()
        invariant
            i <= pairs.len(),
            pv == pairs_view(pairs@),
            pv.len() == pairs@.len(),
            pred == (|p: (Seq<char>, Seq<char>)| p.1 == v@),
            proj == (|p: (Seq<char>, Seq<char>)| p.0),
            r.deep_view() == pv.take(i as int).filter(pred).map_values(proj),
        decreases pairs.len() - i,
    {
        let ghost old_r = r.deep_view();
        let hit = str_eq(pairs[i].1.as_str(), v);
        if hit {
            let tag = pairs[i].0.clone();
            r.push(tag);
        }
        proof {
            assert(pv.take(i + 1) =~= pv.take(i as int).push(pv[i as int]));
            assert(pv.take(i + 1).drop_last() =~= pv.take(i as int));
            assert(pv.take(i + 1).last() == pv[i as int]);
            reveal_with_fuel(Seq::filter, 2);
            assert(pv.take(i + 1).filter(pred) == if pred(pv[i as int]) {
                pv.take(i as int).filter(pred).push(pv[i as int])
            } else {
                pv.take(i as int).filter(pred)
            });
            if hit {
                assert(pv.take(i as int).filter(pred).push(pv[i as int]).map_values(proj) =~= pv
                    .take(i as int).filter(pred).map_values(proj).push(pv[i as int].0));
                assert(r.deep_view() =~= old_r.push(pv[i as int].0));
            }
        }
        i = i + 1;
    }
    proof {
        assert(pv.take(pairs.len() as int) =~= pv);
    }
    r
}

impl Selection {
    /// Builds the selection out of raw query pairs: a tag mapped to `in` is
    /// put into `inc`, a tag mapped to `ex` into `exc`, and any other pair
    /// is ignored.
    pub fn from_pairs(pairs: &Vec<(String, String)>) -> (r: Selection)
        ensures
            r@.inc == spec_selected(pairs_view(pairs@), seq!['i', 'n']),
            r@.exc == spec_selected(pairs_view(pairs@), seq!['e', 'x']),
    {
        proof {
            reveal_strlit("in");
            reveal_strlit("ex");
            assert("in"@ =~= seq!['i', 'n']);
            assert("ex"@ =~= seq!['e', 'x']);
        }
        let inc = selected_tags(pairs, "in");
        let exc = selected_tags(pairs, "ex");
        Selection { inc, exc }
    }
}

/// The strings are strictly ascending: sorted, without duplicates.
pub open spec fn strictly_sorted(s: Seq<Seq<char>>) -> bool {
    forall|i: int, j: int| 0 <= i < j < s.len() ==> seq_lt(#[trigger] s[i], #[trigger] s[j])
}

/// Inserts `s` at its place in a strictly sorted list, unless it is already
/// there.
#[verifier::loop_isolation(false)]
fn insert_str_sorted(v: &mut Vec<String>, s: String)
    requires
        strictly_sorted(old(v).deep_view()),
    ensures
        strictly_sorted(final(v).deep_view()),
        forall|t: Seq<char>|
            final(v).deep_view().contains(t) <==> (old(v).deep_view().contains(t) || t == s@),
{
    let ghost old_v = v.deep_view();
    let mut p: usize = 0;
    while p < v.len() && !str_lt(s.as_str(), v[p].as_str())
        invariant
            p <= v@.len(),
            v@ == old(v)@,
            old_v == v.deep_view(),
            forall|k: int| 0 <= k < p ==> seq_lt(#[trigger] v.deep_view()[k], s@),
        decreases v@.len() - p,
    {
        if str_eq(v[p].as_str(), s.as_str()) {
            proof {
                assert(v.deep_view()[p as int] == s@);
                assert(v.deep_view().contains(s@));
            }
            return ;
        }
        proof {
            lemma_seq_lt_trichotomy(s@, v.deep_view()[p as int]);
        }
        p = p + 1;
    }
    let ghost pp = p as int;
    proof {
        assert(pp == old_v.len() || seq_lt(s@, old_v[pp]));
        assert forall|k: int| 0 <= k < pp implies #[trigger] old_v[k] != s@ by {
            lemma_seq_lt_trichotomy(old_v[k], s@);
        }
    }
    v.insert(p, s);
    proof {
        old(v)@.insert_ensures(pp, s);
        let new_v = v.deep_view();
        assert(new_v =~= old_v.insert(pp, s@));
        old_v.insert_ensures(pp, s@);
        assert forall|x: int, y: int| 0 <= x < y < new_v.len() implies seq_lt(
            new_v[x],
            new_v[y],
        ) by {
            if y < pp {
            } else if x < pp && y == pp {
                assert(seq_lt(old_v[x], s@));
            } else if x < pp && y > pp {
                assert(seq_lt(old_v[x], old_v[y - 1]));
            } else if x == pp {
                assert(seq_lt(s@, old_v[pp]));
                if pp < y - 1 {
                    lemma_seq_lt_transitive(s@, old_v[pp], old_v[y - 1]);
                }
            } else {
                assert(seq_lt(old_v[x - 1], old_v[y - 1]));
            }
        }
        assert forall|t: Seq<char>|
            new_v.contains(t) <==> (old_v.contains(t) || t == s@) by {
            if new_v.contains(t) {
                let k = choose|k: int| 0 <= k < new_v.len() && new_v[k] == t;
                if k < pp {
                    assert(old_v[k] == t);
                } else if k > pp {
                    assert(old_v[k - 1] == t);
                }
            }
            if old_v.contains(t) {
                let k = choose|k: int| 0 <= k < old_v.len() && old_v[k] == t;
                if k < pp {
                    assert(new_v[k] == t);
                } else {
                    assert(new_v[k + 1] == t);
                }
            }
            if t == s@ {
                assert(new_v[pp] == t);
            }
        }
    }
}

/// The mentioned tags of a selection: the union of its two tag lists,
/// sorted and without duplicates.
#[verifier::loop_isolation(false)]
fn sorted_union(a: &Vec<String>, b: &Vec<String>) -> (r: Vec<String>)
    ensures
        strictly_sorted(r.deep_view()),
        forall|t: Seq<char>|
            r.deep_view().contains(t) <==> (a.deep_view().contains(t) || b.deep_view().contains(
                t,
            )),
{
    let mut r: Vec<String> = Vec::new();
    let mut i: usize = 0;
    while i < a.len()
        invariant
            i <= a.len(),
            strictly_sorted(r.deep_view()),
            forall|t: Seq<char>|
                r.deep_view().contains(t) <==> a.deep_view().take(i as int).contains(t),
        decreases a.len() - i,
    {
        let ghost r_before = r.deep_view();
        let s = a[i].clone();
        insert_str_sorted(&mut r, s);
        proof {
            assert(s@ == a.deep_view()[i as int]);
            assert(forall|t: Seq<char>|
                r.deep_view().contains(t) <==> (r_before.contains(t) || t == a.deep_view()[i as int]));
            assert forall|t: Seq<char>|
                a.deep_view().take(i + 1).contains(t) <==> (a.deep_view().take(
                    i as int,
                ).contains(t) || t == a.deep_view()[i as int]) by {
                if a.deep_view().take(i + 1).contains(t) {
                    let k = choose|k: int|
                        0 <= k < i + 1 && #[trigger] a.deep_view().take(i + 1)[k] == t;
                    if k < i {
                        assert(a.deep_view().take(i as int)[k] == t);
                    }
                }
                if a.deep_view().take(i as int).contains(t) {
                    let k = choose|k: int|
                        0 <= k < i && #[trigger] a.deep_view().take(i as int)[k] == t;
                    assert(a.deep_view().take(i + 1)[k] == t);
                }
                if t == a.deep_view()[i as int] {
                    assert(a.deep_view().take(i + 1)[i as int] == t);
                }
            }
            assert forall|t: Seq<char>|
                r.deep_view().contains(t) <==> a.deep_view().take(i + 1).contains(t) by {
                assert(r.deep_view().contains(t) <==> (r_before.contains(t) || t
                    == a.deep_view()[i as int]));
                assert(r_before.contains(t) <==> a.deep_view().take(i as int).contains(t));
                assert(a.deep_view().take(i + 1).contains(t) <==> (a.deep_view().take(
                    i as int,
                ).contains(t) || t == a.deep_view()[i as int]));
            }
        }
        i = i + 1;
    }
    proof {
        assert(a.deep_view().take(a.len() as int) =~= a.deep_view());
    }
    let mut j: usize = 0;
    while j < b.len()
        invariant
            j <= b.len(),
            strictly_sorted(r.deep_view()),
            forall|t: Seq<char>|
                r.deep_view().contains(t) <==> (a.deep_view().contains(t) || b.deep_view().take(
                    j as int,
                ).contains(t)),
        decreases b.len() - j,
    {
        let ghost r_before = r.deep_view();
        let s = b[j].clone();
        insert_str_sorted(&mut r, s);
        proof {
            assert(s@ == b.deep_view()[j as int]);
            assert(forall|t: Seq<char>|
                r.deep_view().contains(t) <==> (r_before.contains(t) || t == b.deep_view()[j as int]));
            assert forall|t: Seq<char>|
                b.deep_view().take(j + 1).contains(t) <==> (b.deep_view().take(
                    j as int,
                ).contains(t) || t == b.deep_view()[j as int]) by {
                if b.deep_view().take(j + 1).contains(t) {
                    let k = choose|k: int|
                        0 <= k < j + 1 && #[trigger] b.deep_view().take(j + 1)[k] == t;
                    if k < j {
                        assert(b.deep_view().take(j as int)[k] == t);
                    }
                }
                if b.deep_view().take(j as int).contains(t) {
                    let k = choose|k: int|
                        0 <= k < j && #[trigger] b.deep_view().take(j as int)[k] == t;
                    assert(b.deep_view().take(j + 1)[k] == t);
                }
                if t == b.deep_view()[j as int] {
                    assert(b.deep_view().take(j + 1)[j as int] == t);
                }
            }
            assert forall|t: Seq<char>|
                r.deep_view().contains(t) <==> (a.deep_view().contains(t) || b.deep_view().take(
                    j + 1,
                ).contains(t)) by {
                assert(r.deep_view().contains(t) <==> (r_before.contains(t) || t
                    == b.deep_view()[j as int]));
                assert(r_before.contains(t) <==> (a.deep_view().contains(t) || b.deep_view().take(
                    j as int,
                ).contains(t)));
                assert(b.deep_view().take(j + 1).contains(t) <==> (b.deep_view().take(
                    j as int,
                ).contains(t) || t == b.deep_view()[j as int]));
            }
        }
        j = j + 1;
    }
    proof {
        assert(b.deep_view().take(b.len() as int) =~= b.deep_view());
    }
    r
}

/// Whether the two boolean vectors are equal in length and content.
pub fn vec_compare(va: &[bool], vb: &[bool]) -> (r: bool)
    ensures
        r == (va@ == vb@),
{
    if va.len() != vb.len() {
        proof {
            assert(va@.len() != vb@.len());
        }
        return false;
    }
    let mut i: usize = 0;
    while i < va.len()
        invariant
            i <= va@.len(),
            va@.len() == vb@.len(),
            forall|k: int| 0 <= k < i ==> va@[k] == vb@[k],
        decreases va@.len() - i,
    {
        if va[i] != vb[i] {
            return false;
        }
        i = i + 1;
    }
    proof {
        assert(va@ =~= vb@);
    }
    true
}

/// The membership vector of `tags` over the queried tag list: one boolean
/// per queried tag, saying whether it is among `tags`.
fn membership_vector(queried: &Vec<String>, tags: &Vec<String>) -> (r: Vec<bool>)
    ensures
        r@.len() == queried.deep_view().len(),
        forall|k: int|
            0 <= k < r@.len() ==> r@[k] == tags.deep_view().contains(
                #[trigger] queried.deep_view()[k],
            ),
{
    let mut r: Vec<bool> = Vec::new();
    let mut i: usize = 0;
    while i < queried.len()
        invariant
            i <= queried.len(),
            r@.len() == i,
            forall|k: int|
                0 <= k < i ==> r@[k] == tags.deep_view().contains(
                    #[trigger] queried.deep_view()[k],
                ),
        decreases queried.len() - i,
    {
        let c = contains_str(tags, queried[i].as_str());
        r.push(c);
        i = i + 1;
    }
    r
}

/// Equal membership vectors over the mentioned tags say exactly that the
/// item matches the selection.
proof fn lemma_vectors_decide_match(
    queried: Seq<Seq<char>>,
    sel: SelectionV,
    tags: Seq<Seq<char>>,
    cv: Seq<bool>,
    qv: Seq<bool>,
)
    requires
        forall|t: Seq<char>|
            queried.contains(t) <==> (sel.inc.contains(t) || sel.exc.contains(t)),
        cv.len() == queried.len(),
        qv.len() == queried.len(),
        forall|k: int| 0 <= k < cv.len() ==> cv[k] == tags.contains(#[trigger] queried[k]),
        forall|k: int| 0 <= k < qv.len() ==> qv[k] == sel.inc.contains(#[trigger] queried[k]),
    ensures
        (cv == qv) <==> spec_matches(sel, tags),
{
    if cv == qv {
        assert forall|k: int| 0 <= k < sel.inc.len() implies tags.contains(
            #[trigger] sel.inc[k],
        ) by {
            assert(queried.contains(sel.inc[k]));
            let j = choose|j: int| 0 <= j < queried.len() && queried[j] == sel.inc[k];
            assert(qv[j] == sel.inc.contains(queried[j]));
            assert(cv[j] == qv[j]);
        }
        assert forall|k: int|
            0 <= k < sel.exc.len() implies sel.inc.contains(#[trigger] sel.exc[k])
            || !tags.contains(sel.exc[k]) by {
            assert(queried.contains(sel.exc[k]));
            let j = choose|j: int| 0 <= j < queried.len() && queried[j] == sel.exc[k];
            assert(cv[j] == qv[j]);
        }
    }
    if spec_matches(sel, tags) {
        assert forall|j: int| 0 <= j < cv.len() implies cv[j] == qv[j] by {
            assert(queried.contains(queried[j]));
            if sel.inc.contains(queried[j]) {
                let k = choose|k: int|
                    0 <= k < sel.inc.len() && sel.inc[k] == queried[j];
                assert(tags.contains(sel.inc[k]));
            } else {
                assert(sel.exc.contains(queried[j]));
                let k = choose|k: int|
                    0 <= k < sel.exc.len() && sel.exc[k] == queried[j];
                assert(!tags.contains(sel.exc[k]));
            }
        }
        assert(cv =~= qv);
    }
}

impl DataBase {
    /// Filters the index by the selection: the result holds references to
    /// exactly the matching items, in the index's order.
    pub fn filter<'a>(&'a self, sel: &Selection) -> (r: Vec<&'a DBItem>)
        ensures
            r@.map_values(|it: &DBItem| it@) == self@.filter(
                |iv: ItemV| spec_matches(sel@, iv.tags),
            ),
    {
        let ghost pred = |iv: ItemV| spec_matches(sel@, iv.tags);
        let queried = sorted_union(&sel.inc, &sel.exc);
        let qvec = membership_vector(&queried, &sel.inc);
        let mut r: Vec<&'a DBItem> = Vec::new();
        let mut i: usize = 0;
        proof {
            assert(self@.take(0) =~= Seq::<ItemV>::empty());
            assert(self@.take(0).filter(pred) =~= Seq::<ItemV>::empty());
            assert(r@.map_values(|it: &DBItem| it@) =~= Seq::<ItemV>::empty());
        }
        while i < self.items.len()
            invariant
                i <= self.items.len(),
                self@.len() == self.items@.len(),
                pred == (|iv: ItemV| spec_matches(sel@, iv.tags)),
                strictly_sorted(queried.deep_view()),
                forall|t: Seq<char>|
                    queried.deep_view().contains(t) <==> (sel@.inc.contains(t)
                        || sel@.exc.contains(t)),
                qvec@.len() == queried.deep_view().len(),
                forall|k: int|
                    0 <= k < qvec@.len() ==> qvec@[k] == sel@.inc.contains(
                        #[trigger] queried.deep_view()[k],
                    ),
                r@.map_values(|it: &DBItem| it@) == self@.take(i as int).filter(pred),
            decreases self.items.len() - i,
        {
            let ghost old_m = r@.map_values(|it: &DBItem| it@);
            let item = &self.items[i];
            let cvec = membership_vector(&queried, &item.checked_tags);
            let m = vec_compare(cvec.as_slice(), qvec.as_slice());
            proof {
                lemma_vectors_decide_match(
                    queried.deep_view(),
                    sel@,
                    item@.tags,
                    cvec@,
                    qvec@,
                );
                assert(self@[i as int] == item@);
                assert(m == pred(self@[i as int]));
            }
            if m {
                r.push(item);
                proof {
                    assert(r@.map_values(|it: &DBItem| it@) =~= old_m.push(item@));
                }
            }
            proof {
                assert(self@.take(i + 1) =~= self@.take(i as int).push(self@[i as int]));
                assert(self@.take(i + 1).drop_last() =~= self@.take(i as int));
                assert(self@.take(i + 1).last() == self@[i as int]);
                reveal_with_fuel(Seq::filter, 2);
                assert(self@.take(i + 1).filter(pred) == if pred(self@[i as int]) {
                    self@.take(i as int).filter(pred).push(self@[i as int])
                } else {
                    self@.take(i as int).filter(pred)
                });
            }
            i = i + 1;
        }
        proof {
            assert(self@.take(self.items.len() as int) =~= self@);
        }
        r
    }
}

} // verus!
