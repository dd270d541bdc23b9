//! The statistics aggregator: grouping items by their exact tag signature.
//!
//! An item's signature is its checked tags joined with a fixed delimiter.
//! The aggregator counts the items carrying each signature and builds, for
//! each group, the query URL whose selection includes every signature tag
//! and excludes every other tag of the universe, so that the group can be
//! reproduced through the query engine.

use vstd::prelude::*;

use crate::index::items_view;
use crate::item::{DBItem, ItemV, contains_str};
use crate::query::Selection;
use crate::strutil::{
    spec_join, spec_split, join_strs, split_str, seq_lt, str_lt, str_eq,
    lemma_seq_lt_trichotomy, lemma_seq_lt_transitive,
};

verus! {

/// The delimiter between the tags of a signature. A tag that itself
/// contains this character sequence collides with the joined form of its
/// pieces; grouping is by the joined string alone, so such tags make
/// distinct tag lists share a signature.
pub open spec fn delim() -> Seq<char> {
    seq![' ', '&', ' ']
}

/// The signature of a tag list: the tags joined with the delimiter.
pub open spec fn spec_key(tags: Seq<Seq<char>>) -> Seq<char> {
    spec_join(tags, delim())
}

/// The tags of a signature: its delimiter-separated pieces; the empty
/// signature has none.
pub open spec fn spec_key_tags(k: Seq<char>) -> Seq<Seq<char>> {
    if k.len() == 0 {
        Seq::empty()
    } else {
        spec_split(k, delim())
    }
}

/// How many items carry the signature `k`.
pub open spec fn spec_key_count(items: Seq<ItemV>, k: Seq<char>) -> int
    decreases items.len(),
{
    if items.len() == 0 {
        0
    } else {
        (if spec_key(items[0].tags) == k {
            1int
        } else {
            0
        }) + spec_key_count(items.drop_first(), k)
    }
}

/// Appending an item raises exactly its own signature's count by one.
pub proof fn lemma_key_count_push(s: Seq<ItemV>, x: ItemV, k: Seq<char>)
    ensures
        spec_key_count(s.push(x), k) == spec_key_count(s, k) + (if spec_key(x.tags) == k {
            1int
        } else {
            0
        }),
    decreases s.len(),
{
    if s.len() == 0 {
        assert(s.push(x)[0] == x);
        assert(s.push(x).drop_first() =~= s);
    } else {
        assert(s.push(x)[0] == s[0]);
        assert(s.push(x).drop_first() =~= s.drop_first().push(x));
        lemma_key_count_push(s.drop_first(), x, k);
    }
}

/// A signature's count is positive exactly when some item carries it.
pub proof fn lemma_key_count_pos(s: Seq<ItemV>, k: Seq<char>)
    ensures
        (spec_key_count(s, k) > 0) <==> (exists|j: int|
            0 <= j < s.len() && spec_key(#[trigger] s[j].tags) == k),
        spec_key_count(s, k) >= 0,
        spec_key_count(s, k) <= s.len(),
    decreases s.len(),
{
    if s.len() == 0 {
    } else {
        lemma_key_count_pos(s.drop_first(), k);
        if spec_key(s[0].tags) == k {
            assert(spec_key(s[0].tags) == k);
        }
        if spec_key_count(s, k) > 0 && spec_key(s[0].tags) != k {
            let j = choose|j: int|
                0 <= j < s.drop_first().len() && spec_key(#[trigger] s.drop_first()[j].tags) == k;
            assert(spec_key(s[j + 1].tags) == k);
        }
        if exists|j: int| 0 <= j < s.len() && spec_key(#[trigger] s[j].tags) == k {
            let j = choose|j: int| 0 <= j < s.len() && spec_key(#[trigger] s[j].tags) == k;
            if j >= 1 {
                assert(spec_key(s.drop_first()[j - 1].tags) == k);
            }
        }
    }
}

/// One row of the statistics: a signature, the number of items carrying
/// it, and the query URL that reproduces the group.
pub struct StatItem {
    pub key: String,
    pub count: usize,
    pub url: String,
}

/// Spec-level model of a [`StatItem`].
pub ghost struct StatItemV {
    pub key: Seq<char>,
    pub count: int,
    pub url: Seq<char>,
}

impl View for StatItem {
    type V = StatItemV;

    open spec fn view(&self) -> StatItemV {
        StatItemV { key: self.key@, count: self.count as int, url: self.url@ }
    }
}

/// The rows a sequence of [`StatItem`]s stands for.
pub open spec fn stats_view(s: Seq<StatItem>) -> Seq<StatItemV> {
    s.map_values(|g: StatItem| g@)
}

/// Some row carries the signature `k`.
pub open spec fn spec_has_group(gs: Seq<StatItemV>, k: Seq<char>) -> bool {
    exists|x: int| 0 <= x < gs.len() && (#[trigger] gs[x]).key == k
}

/// The suffix marking an included tag in a query URL.
pub open spec fn in_suffix() -> Seq<char> {
    seq!['=', 'i', 'n']
}

/// The suffix marking an excluded tag in a query URL.
pub open spec fn ex_suffix() -> Seq<char> {
    seq!['=', 'e', 'x']
}

/// The fixed prefix of a query URL.
pub open spec fn url_prefix() -> Seq<char> {
    seq!['/', 'q', 'u', 'e', 'r', 'y', '?']
}

/// The query parameters of a group: one `tag=in` per signature tag, then
/// one `tag=ex` per universe tag not in the signature, in universe order.
pub open spec fn spec_params(inc: Seq<Seq<char>>, universe: Seq<Seq<char>>) -> Seq<Seq<char>> {
    inc.map_values(|t: Seq<char>| t + in_suffix()) + universe.filter(
        |t: Seq<char>| !inc.contains(t),
    ).map_values(|t: Seq<char>| t + ex_suffix())
}

/// The query URL of a group: the parameters ampersand-joined after the
/// fixed prefix.
pub open spec fn spec_url(k: Seq<char>, universe: Seq<Seq<char>>) -> Seq<char> {
    url_prefix() + spec_join(spec_params(spec_key_tags(k), universe), seq!['&'])
}

/// The selection a group signature stands for: its tags must be checked,
/// every other tag of the universe must not.
pub fn selection_from_key(key: &str, universe: &Vec<String>) -> (r: Selection)
    ensures
        r@.inc == spec_key_tags(key@),
        r@.exc == universe.deep_view().filter(
            |t: Seq<char>| !spec_key_tags(key@).contains(t),
        ),
{
    let ghost kt = spec_key_tags(key@);
    let ghost uv = universe.deep_view();
    let ghost pred = |t: Seq<char>| !kt.contains(t);
    let inc: Vec<String>;
    if key.is_empty() {
        inc = Vec::new();
        proof {
            assert(inc.deep_view() =~= kt);
        }
    } else {
        proof {
            reveal_strlit(" & ");
            assert(" & "@ =~= delim());
        }
        inc = split_str(key, " & ");
    }
    let mut exc: Vec<String> = Vec::new();
    let mut u: usize = 0;
    proof {
        assert(uv.take(0) =~= Seq::<Seq<char>>::empty());
        assert(uv.take(0).filter(pred) =~= Seq::<Seq<char>>::empty());
        assert(exc.deep_view() =~= Seq::<Seq<char>>::empty());
    }
    while u < universe.len()
        invariant
            u <= universe.len(),
            uv == universe.deep_view(),
            uv.len() == universe@.len(),
            kt == spec_key_tags(key@),
            pred == (|t: Seq<char>| !kt.contains(t)),
            inc.deep_view() == kt,
            exc.deep_view() == uv.take(u as int).filter(pred),
        decreases universe.len() - u,
    {
        let ghost old_e = exc.deep_view();
        let keep = !contains_str(&inc, universe[u].as_str());
        if keep {
            let t = universe[u].clone();
            exc.push(t);
        }
        proof {
            assert(uv[u as int] == universe@[u as int]@);
            assert(uv.take(u + 1) =~= uv.take(u as int).push(uv[u as int]));
            assert(uv.take(u + 1).drop_last() =~= uv.take(u as int));
            assert(uv.take(u + 1).last() == uv[u as int]);
            reveal_with_fuel(Seq::filter, 2);
            assert(uv.take(u + 1).filter(pred) == if pred(uv[u as int]) {
                uv.take(u as int).filter(pred).push(uv[u as int])
            } else {
                uv.take(u as int).filter(pred)
            });
            if keep {
                assert(exc.deep_view() =~= old_e.push(uv[u as int]));
            }
        }
        u = u + 1;
    }
    proof {
        assert(uv.take(universe.len() as int) =~= uv);
    }
    Selection { inc, exc }
}

/// The query URL of a group signature over the tag universe.
#[verifier::loop_isolation(false)]
fn stat_url(key: &str, universe: &Vec<String>) -> (r: String)
    ensures
        r@ == spec_url(key@, universe.deep_view()),
{
    proof {
        reveal_strlit("=in");
        reveal_strlit("=ex");
        reveal_strlit("/query?");
        reveal_strlit("&");
        assert("=in"@ =~= in_suffix());
        assert("=ex"@ =~= ex_suffix());
        assert("/query?"@ =~= url_prefix());
        assert("&"@ =~= seq!['&']);
    }
    let sel = selection_from_key(key, universe);
    let ghost kt = spec_key_tags(key@);
    let ghost uv = universe.deep_view();
    let mut params: Vec<String> = Vec::new();
    let mut i: usize = 0;
    proof {
        assert(params.deep_view() =~= kt.take(0).map_values(|t: Seq<char>| t + in_suffix()));
        assert(kt.take(0) =~= Seq::<Seq<char>>::empty());
    }
    while i < sel.inc.len()
        invariant
            i <= sel.inc.len(),
            sel@.inc == kt,
            kt.len() == sel.inc@.len(),
            params.deep_view() == kt.take(i as int).map_values(|t: Seq<char>| t + in_suffix()),
        decreases sel.inc.len() - i,
    {
        let ghost old_p = params.deep_view();
        let t = sel.inc[i].clone();
        params.push(t.concat("=in"));
        proof {
            assert(kt[i as int] == sel.inc@[i as int]@);
            assert(kt.take(i + 1) =~= kt.take(i as int).push(kt[i as int]));
            assert(params.deep_view() =~= old_p.push(kt[i as int] + in_suffix()));
            assert(kt.take(i as int).push(kt[i as int]).map_values(
                |t: Seq<char>| t + in_suffix(),
            ) =~= kt.take(i as int).map_values(|t: Seq<char>| t + in_suffix()).push(
                kt[i as int] + in_suffix(),
            ));
        }
        i = i + 1;
    }
    proof {
        assert(kt.take(sel.inc.len() as int) =~= kt);
    }
    let ghost exv = sel@.exc;
    let mut j: usize = 0;
    proof {
        assert(exv.take(0) =~= Seq::<Seq<char>>::empty());
    }
    while j < sel.exc.len()
        invariant
            j <= sel.exc.len(),
            sel@.inc == kt,
            exv == sel@.exc,
            exv.len() == sel.exc@.len(),
            params.deep_view() == kt.map_values(|t: Seq<char>| t + in_suffix()) + exv.take(
                j as int,
            ).map_values(|t: Seq<char>| t + ex_suffix()),
        decreases sel.exc.len() - j,
    {
        let ghost old_p = params.deep_view();
        let t = sel.exc[j].clone();
        params.push(t.concat("=ex"));
        proof {
            assert(exv[j as int] == sel.exc@[j as int]@);
            assert(exv.take(j + 1) =~= exv.take(j as int).push(exv[j as int]));
            assert(params.deep_view() =~= old_p.push(exv[j as int] + ex_suffix()));
            assert(exv.take(j as int).push(exv[j as int]).map_values(
                |t: Seq<char>| t + ex_suffix(),
            ) =~= exv.take(j as int).map_values(|t: Seq<char>| t + ex_suffix()).push(
                exv[j as int] + ex_suffix(),
            ));
            assert(params.deep_view() =~= kt.map_values(|t: Seq<char>| t + in_suffix())
                + exv.take(j + 1).map_values(|t: Seq<char>| t + ex_suffix()));
        }
        j = j + 1;
    }
    proof {
        assert(exv.take(sel.exc.len() as int) =~= exv);
        assert(params.deep_view() == spec_params(kt, uv));
    }
    let joined = join_strs(&params, "&");
    let mut r = String::from_str("/query?");
    r.append(joined.as_str());
    r
}

/// Groups the items by signature. Each signature carried by at least one
/// item appears exactly once, with the number of items carrying it and the
/// query URL whose selection includes exactly the signature's tags over
/// the given universe; the rows are sorted by signature, ascending.
#[verifier::loop_isolation(false)]
pub fn aggregate(items: &Vec<DBItem>, universe: &Vec<String>) -> (r: Vec<StatItem>)
    ensures
        forall|x: int, y: int|
            0 <= x < y < r@.len() ==> seq_lt(
                #[trigger] stats_view(r@)[x].key,
                #[trigger] stats_view(r@)[y].key,
            ),
        forall|x: int|
            0 <= x < r@.len() ==> (#[trigger] stats_view(r@)[x]).count == spec_key_count(
                items_view(items@),
                stats_view(r@)[x].key,
            ) && stats_view(r@)[x].count >= 1,
        forall|x: int|
            0 <= x < r@.len() ==> (#[trigger] stats_view(r@)[x]).url == spec_url(
                stats_view(r@)[x].key,
                universe.deep_view(),
            ),
        forall|j: int|
            0 <= j < items@.len() ==> spec_has_group(
                stats_view(r@),
                spec_key((#[trigger] items_view(items@)[j]).tags),
            ),
{
    proof {
        reveal_strlit(" & ");
        assert(" & "@ =~= delim());
    }
    let ghost iv = items_view(items@);
    let ghost uv = universe.deep_view();
    let mut groups: Vec<StatItem> = Vec::new();
    let mut i: usize = 0;
    proof {
        assert(iv.take(0) =~= Seq::<ItemV>::empty());
    }
    while i < items.len()
        invariant
            i <= items.len(),
            iv == items_view(items@),
            iv.len() == items@.len(),
            uv == universe.deep_view(),
            forall|x: int, y: int|
                0 <= x < y < groups@.len() ==> seq_lt(
                    #[trigger] stats_view(groups@)[x].key,
                    #[trigger] stats_view(groups@)[y].key,
                ),
            forall|x: int|
                0 <= x < groups@.len() ==> (#[trigger] stats_view(groups@)[x]).count
                    == spec_key_count(iv.take(i as int), stats_view(groups@)[x].key),
            forall|x: int|
                0 <= x < groups@.len() ==> 1 <= (#[trigger] stats_view(groups@)[x]).count <= i,
            forall|x: int|
                0 <= x < groups@.len() ==> (#[trigger] stats_view(groups@)[x]).url == spec_url(
                    stats_view(groups@)[x].key,
                    uv,
                ),
            forall|j: int|
                0 <= j < i ==> spec_has_group(
                    stats_view(groups@),
                    spec_key((#[trigger] iv[j]).tags),
                ),
        decreases items.len() - i,
    {
        let ghost gv = stats_view(groups@);
        let item = &items[i];
        let key = join_strs(&item.checked_tags, " & ");
        proof {
            assert(iv[i as int] == item@);
            assert(key@ == spec_key(iv[i as int].tags));
            assert(iv.take(i + 1) =~= iv.take(i as int).push(iv[i as int]));
        }
        let mut p: usize = 0;
        while p < groups.len() && str_lt(groups[p].key.as_str(), key.as_str())
            invariant
                p <= groups@.len(),
                gv == stats_view(groups@),
                forall|k: int| 0 <= k < p ==> seq_lt(#[trigger] gv[k].key, key@),
            decreases groups@.len() - p,
        {
            p = p + 1;
        }
        let ghost pp = p as int;
        let mut bump = false;
        if p < groups.len() {
            if str_eq(groups[p].key.as_str(), key.as_str()) {
                bump = true;
            }
        }
        proof {
            if pp < gv.len() && !bump {
                assert(!seq_lt(gv[pp].key, key@));
                assert(gv[pp].key != key@);
                lemma_seq_lt_trichotomy(gv[pp].key, key@);
                assert(seq_lt(key@, gv[pp].key));
            }
            if !bump {
                assert forall|x: int| 0 <= x < gv.len() implies (#[trigger] gv[x]).key != key@ by {
                    if x < pp {
                        lemma_seq_lt_trichotomy(gv[x].key, key@);
                    } else {
                        assert(seq_lt(key@, gv[pp].key));
                        if x > pp {
                            assert(seq_lt(gv[pp].key, gv[x].key));
                            lemma_seq_lt_transitive(key@, gv[pp].key, gv[x].key);
                        }
                        lemma_seq_lt_trichotomy(key@, gv[x].key);
                    }
                }
                lemma_key_count_pos(iv.take(i as int), key@);
                if spec_key_count(iv.take(i as int), key@) > 0 {
                    let j = choose|j: int|
                        0 <= j < iv.take(i as int).len() && spec_key(
                            #[trigger] iv.take(i as int)[j].tags,
                        ) == key@;
                    assert(iv.take(i as int)[j] == iv[j]);
                    assert(spec_has_group(gv, spec_key(iv[j].tags)));
                    let x = choose|x: int|
                        0 <= x < gv.len() && (#[trigger] gv[x]).key == spec_key(iv[j].tags);
                    assert(false);
                }
                assert(spec_key_count(iv.take(i as int), key@) == 0);
            }
        }
        if bump {
            let c = groups[p].count;
            let u = groups[p].url.clone();
            proof {
                assert(gv[pp].count <= i);
                assert(c <= i < items@.len());
            }
            groups.set(p, StatItem { key, count: c + 1, url: u });
            proof {
                let ngv = stats_view(groups@);
                assert(ngv =~= gv.update(
                    pp,
                    StatItemV { key: gv[pp].key, count: gv[pp].count + 1, url: gv[pp].url },
                ));
                assert forall|x: int| 0 <= x < ngv.len() implies (#[trigger] ngv[x]).count
                    == spec_key_count(iv.take(i + 1), ngv[x].key) by {
                    lemma_key_count_push(iv.take(i as int), iv[i as int], ngv[x].key);
                    if x != pp {
                        if x < pp {
                            lemma_seq_lt_trichotomy(gv[x].key, gv[pp].key);
                        } else {
                            lemma_seq_lt_trichotomy(gv[pp].key, gv[x].key);
                        }
                        assert(ngv[x].key != key@);
                    }
                }
                assert forall|j: int| 0 <= j < i + 1 implies spec_has_group(
                    ngv,
                    spec_key((#[trigger] iv[j]).tags),
                ) by {
                    if j < i {
                        let x = choose|x: int|
                            0 <= x < gv.len() && (#[trigger] gv[x]).key == spec_key(iv[j].tags);
                        assert(ngv[x].key == spec_key(iv[j].tags));
                    } else {
                        assert(ngv[pp].key == spec_key(iv[j].tags));
                    }
                }
            }
        } else {
            let u_str = stat_url(key.as_str(), universe);
            groups.insert(p, StatItem { key, count: 1, url: u_str });
            proof {
                let ngv = stats_view(groups@);
                let newv = StatItemV { key: key@, count: 1, url: spec_url(key@, uv) };
                gv.insert_ensures(pp, newv);
                assert(ngv =~= gv.insert(pp, newv));
                assert forall|x: int, y: int| 0 <= x < y < ngv.len() implies seq_lt(
                    (#[trigger] ngv[x]).key,
                    (#[trigger] ngv[y]).key,
                ) by {
                    if y < pp {
                    } else if x < pp && y == pp {
                        assert(seq_lt(gv[x].key, key@));
                    } else if x < pp && y > pp {
                        assert(seq_lt(gv[x].key, gv[y - 1].key));
                    } else if x == pp && y > pp {
                        assert(seq_lt(key@, gv[pp].key));
                        if pp < y - 1 {
                            assert(seq_lt(gv[pp].key, gv[y - 1].key));
                            lemma_seq_lt_transitive(key@, gv[pp].key, gv[y - 1].key);
                        }
                    } else {
                        assert(seq_lt(gv[x - 1].key, gv[y - 1].key));
                    }
                }
                assert forall|x: int| 0 <= x < ngv.len() implies (#[trigger] ngv[x]).count
                    == spec_key_count(iv.take(i + 1), ngv[x].key) && 1 <= ngv[x].count <= i + 1 by {
                    lemma_key_count_push(iv.take(i as int), iv[i as int], ngv[x].key);
                    if x == pp {
                        assert(ngv[x].key == key@);
                        assert(spec_key_count(iv.take(i as int), key@) == 0);
                    } else if x < pp {
                        assert(ngv[x] == gv[x]);
                        assert(gv[x].key != key@);
                    } else {
                        assert(ngv[x] == gv[x - 1]);
                        assert(gv[x - 1].key != key@);
                    }
                }
                assert forall|j: int| 0 <= j < i + 1 implies spec_has_group(
                    ngv,
                    spec_key((#[trigger] iv[j]).tags),
                ) by {
                    if j < i {
                        let x = choose|x: int|
                            0 <= x < gv.len() && (#[trigger] gv[x]).key == spec_key(iv[j].tags);
                        if x < pp {
                            assert(ngv[x].key == spec_key(iv[j].tags));
                        } else {
                            assert(ngv[x + 1].key == spec_key(iv[j].tags));
                        }
                    } else {
                        assert(ngv[pp].key == spec_key(iv[j].tags));
                    }
                }
            }
        }
        i = i + 1;
    }
    proof {
        assert(iv.take(items.len() as int) =~= iv);
    }
    groups
}

} // verus!
