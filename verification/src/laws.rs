//! Laws of the library, stated and proved as public proof functions.
//!
//! Each law relates the contracts of several library functions: what a tag
//! update writes against what a later load reads back, and how the
//! statistics groups relate to the query engine.

use vstd::prelude::*;

use crate::item::{
    ItemV, spec_text_tags, spec_text_contents, spec_true_labels, spec_update_flags,
};
use crate::query::{SelectionV, spec_matches, strictly_sorted};
use crate::stats::{
    StatItemV, delim, spec_key, spec_key_tags, spec_key_count, spec_has_group,
    lemma_key_count_push,
};
use crate::strutil::{
    spec_join, spec_split, seq_lt, lemma_split_join, lemma_seq_lt_trichotomy,
};

verus! {

/// A filter that keeps every element changes nothing.
proof fn lemma_filter_all_keep<A>(s: Seq<A>, pred: spec_fn(A) -> bool)
    requires
        forall|k: int| 0 <= k < s.len() ==> pred(#[trigger] s[k]),
    ensures
        s.filter(pred) == s,
    decreases s.len(),
{
    if s.len() == 0 {
        assert(s.filter(pred) =~= s);
    } else {
        lemma_filter_all_keep(s.drop_last(), pred);
        assert(pred(s.last()));
        reveal_with_fuel(Seq::filter, 2);
        assert(s.filter(pred) == s.drop_last().filter(pred).push(s.last()));
        assert(s.drop_last().push(s.last()) =~= s);
    }
}

/// Writing a text record and parsing it back returns the same tag list:
/// the round trip of the text strategy. It holds whenever every tag is
/// non-empty and contains no newline; a tag list such as one holding the
/// empty tag comes back without it.
pub proof fn lemma_text_round_trip(tags: Seq<Seq<char>>)
    requires
        forall|k: int|
            0 <= k < tags.len() ==> (#[trigger] tags[k]).len() > 0 && !tags[k].contains('\n'),
    ensures
        spec_text_tags(spec_text_contents(tags)) == tags,
{
    let d = seq!['\n'];
    if tags.len() == 0 {
        let e = Seq::<char>::empty();
        assert(spec_join(tags, d) == e);
        assert(spec_split(e, d) =~= seq![e]);
        assert(spec_text_tags(e) =~= tags) by {
            reveal_with_fuel(Seq::filter, 2);
            assert(seq![e].drop_last() =~= Seq::<Seq<char>>::empty());
            assert(seq![e].last() == e);
        }
    } else {
        lemma_split_join(tags, d, 0);
        lemma_filter_all_keep(tags, |t: Seq<char>| t.len() > 0);
    }
}

/// Writing a row and splitting its data back returns the same tag list:
/// the round trip of the SQL strategy, for an image whose row exists. It
/// holds whenever there is at least one tag and no tag contains a comma;
/// an empty tag list comes back as one empty tag instead.
pub proof fn lemma_sql_round_trip(tags: Seq<Seq<char>>)
    requires
        tags.len() > 0,
        forall|k: int| 0 <= k < tags.len() ==> !(#[trigger] tags[k]).contains(','),
    ensures
        spec_split(spec_join(tags, seq![',']), seq![',']) == tags,
{
    lemma_split_join(tags, seq![','], 0);
}

/// The labels of a flag map, in document order.
pub open spec fn spec_labels(fs: Seq<(Seq<char>, bool)>) -> Seq<Seq<char>> {
    fs.map_values(|f: (Seq<char>, bool)| f.0)
}

/// Updating a JSON document's flags and reading the checked set back
/// returns exactly the tags that the document has a label for: the round
/// trip of the JSON strategy. When every tag appears among the document's
/// labels, the set read back equals the tag set.
pub proof fn lemma_json_round_trip(fs: Seq<(Seq<char>, bool)>, tags: Seq<Seq<char>>)
    ensures
        forall|t: Seq<char>|
            spec_true_labels(spec_update_flags(fs, tags)).contains(t) <==> (tags.contains(t)
                && spec_labels(fs).contains(t)),
        (forall|k: int| 0 <= k < tags.len() ==> spec_labels(fs).contains(#[trigger] tags[k]))
            ==> forall|t: Seq<char>|
            spec_true_labels(spec_update_flags(fs, tags)).contains(t) <==> tags.contains(t),
{
    let uf = spec_update_flags(fs, tags);
    let pred = |f: (Seq<char>, bool)| f.1;
    let proj = |f: (Seq<char>, bool)| f.0;
    assert forall|t: Seq<char>|
        spec_true_labels(uf).contains(t) <==> (tags.contains(t) && spec_labels(fs).contains(
            t,
        )) by {
        if spec_true_labels(uf).contains(t) {
            let x = choose|x: int|
                0 <= x < uf.filter(pred).len() && #[trigger] uf.filter(pred).map_values(proj)[x]
                    == t;
            let e = uf.filter(pred)[x];
            assert(e.0 == t && e.1);
            assert(uf.filter(pred).contains(e));
            uf.lemma_filter_contains_rev(pred, e);
            assert(uf.contains(e));
            let i = choose|i: int| 0 <= i < uf.len() && uf[i] == e;
            assert(uf[i] == (fs[i].0, tags.contains(fs[i].0)));
            assert(fs[i].0 == t && tags.contains(t));
            assert(spec_labels(fs)[i] == t);
        }
        if tags.contains(t) && spec_labels(fs).contains(t) {
            let i = choose|i: int| 0 <= i < spec_labels(fs).len() && spec_labels(fs)[i] == t;
            assert(uf[i] == (fs[i].0, tags.contains(fs[i].0)));
            assert(uf[i] == (t, true));
            uf.lemma_filter_contains(pred, i);
            assert(uf.filter(pred).contains(uf[i]));
            let x = choose|x: int| 0 <= x < uf.filter(pred).len() && uf.filter(pred)[x] == uf[i];
            assert(uf.filter(pred).map_values(proj)[x] == t);
            assert(spec_true_labels(uf).contains(t));
        }
    }
}

/// Two strictly ascending tag lists with the same members are equal.
proof fn lemma_sorted_same_membership_equal(a: Seq<Seq<char>>, b: Seq<Seq<char>>)
    requires
        strictly_sorted(a),
        strictly_sorted(b),
        forall|t: Seq<char>| a.contains(t) <==> b.contains(t),
    ensures
        a == b,
    decreases a.len(),
{
    if a.len() == 0 {
        if b.len() > 0 {
            assert(b.contains(b[0]));
            assert(a.contains(b[0]));
        }
        assert(a =~= b);
    } else if b.len() == 0 {
        assert(a.contains(a[0]));
        assert(b.contains(a[0]));
    } else {
        assert(a.contains(a[0]));
        assert(b.contains(a[0]));
        let j = choose|j: int| 0 <= j < b.len() && b[j] == a[0];
        assert(b.contains(b[0]));
        assert(a.contains(b[0]));
        let i = choose|i: int| 0 <= i < a.len() && a[i] == b[0];
        if j > 0 {
            assert(seq_lt(b[0], b[j]));
            if i > 0 {
                assert(seq_lt(a[0], a[i]));
                lemma_seq_lt_trichotomy(a[0], b[0]);
            } else {
                lemma_seq_lt_trichotomy(b[0], a[0]);
            }
            assert(false);
        }
        assert(a[0] == b[0]);
        let at = a.drop_first();
        let bt = b.drop_first();
        assert forall|x: int, y: int| 0 <= x < y < at.len() implies seq_lt(
            #[trigger] at[x],
            #[trigger] at[y],
        ) by {
            assert(at[x] == a[x + 1] && at[y] == a[y + 1]);
        }
        assert forall|x: int, y: int| 0 <= x < y < bt.len() implies seq_lt(
            #[trigger] bt[x],
            #[trigger] bt[y],
        ) by {
            assert(bt[x] == b[x + 1] && bt[y] == b[y + 1]);
        }
        assert forall|t: Seq<char>| at.contains(t) <==> bt.contains(t) by {
            if at.contains(t) {
                let x = choose|x: int| 0 <= x < at.len() && at[x] == t;
                assert(a[x + 1] == t);
                assert(a.contains(t));
                assert(b.contains(t));
                let y = choose|y: int| 0 <= y < b.len() && b[y] == t;
                assert(seq_lt(a[0], a[x + 1]));
                lemma_seq_lt_trichotomy(a[0], t);
                if y == 0 {
                    assert(t == b[0]);
                    assert(false);
                }
                assert(bt[y - 1] == t);
                assert(bt.contains(t));
            }
            if bt.contains(t) {
                let x = choose|x: int| 0 <= x < bt.len() && bt[x] == t;
                assert(b[x + 1] == t);
                assert(b.contains(t));
                assert(a.contains(t));
                let y = choose|y: int| 0 <= y < a.len() && a[y] == t;
                assert(seq_lt(b[0], b[x + 1]));
                lemma_seq_lt_trichotomy(b[0], t);
                if y == 0 {
                    assert(t == a[0]);
                    assert(false);
                }
                assert(at[y - 1] == t);
                assert(at.contains(t));
            }
        }
        lemma_sorted_same_membership_equal(at, bt);
        assert forall|x: int| 0 <= x < a.len() implies a[x] == b[x] by {
            if x >= 1 {
                assert(a[x] == at[x - 1]);
                assert(b[x] == bt[x - 1]);
            }
        }
        assert(a =~= b);
    }
}

/// A tag list is well formed for the statistics laws: strictly ascending,
/// drawn from the universe, with every tag non-empty and free of the
/// delimiter's ampersand. Items violating this — say, two items carrying
/// the same tags in different orders — can make a group's signature and
/// its selection disagree.
pub open spec fn tags_wf(ts: Seq<Seq<char>>, universe: Seq<Seq<char>>) -> bool {
    strictly_sorted(ts) && forall|x: int|
        0 <= x < ts.len() ==> universe.contains(#[trigger] ts[x]) && ts[x].len() > 0
            && !ts[x].contains('&')
}

/// The selection a group signature stands for: its tags must be checked,
/// every other universe tag must not. This is what `selection_from_key`
/// returns.
pub open spec fn spec_group_selection(k: Seq<char>, universe: Seq<Seq<char>>) -> SelectionV {
    SelectionV {
        inc: spec_key_tags(k),
        exc: universe.filter(|t: Seq<char>| !spec_key_tags(k).contains(t)),
    }
}

/// The tags of a signature are the tags it was joined from, whenever the
/// tags are non-empty and free of the delimiter's ampersand.
pub proof fn lemma_key_tags_inverse(ts: Seq<Seq<char>>)
    requires
        forall|x: int| 0 <= x < ts.len() ==> (#[trigger] ts[x]).len() > 0 && !ts[x].contains('&'),
    ensures
        spec_key_tags(spec_key(ts)) == ts,
{
    if ts.len() == 0 {
        assert(spec_key(ts) == Seq::<char>::empty());
        assert(spec_key_tags(spec_key(ts)) =~= ts);
    } else {
        assert(spec_key(ts).len() > 0) by {
            if ts.len() == 1 {
                assert(spec_key(ts) == ts[0]);
            } else {
                assert(spec_key(ts) == ts[0] + delim() + spec_join(ts.drop_first(), delim()));
            }
        }
        lemma_split_join(ts, delim(), 1);
    }
}

/// An item matches a group's selection exactly when it carries the
/// group's signature, provided both tag lists are well formed.
proof fn lemma_match_is_key_equal(
    tags: Seq<Seq<char>>,
    ref_tags: Seq<Seq<char>>,
    universe: Seq<Seq<char>>,
)
    requires
        tags_wf(tags, universe),
        tags_wf(ref_tags, universe),
    ensures
        spec_matches(spec_group_selection(spec_key(ref_tags), universe), tags) <==> (spec_key(
            tags,
        ) == spec_key(ref_tags)),
{
    let k = spec_key(ref_tags);
    lemma_key_tags_inverse(ref_tags);
    lemma_key_tags_inverse(tags);
    let sel = spec_group_selection(k, universe);
    let pred = |t: Seq<char>| !spec_key_tags(k).contains(t);
    assert(sel.inc == ref_tags);
    if spec_key(tags) == k {
        assert(tags == ref_tags);
        assert forall|x: int| 0 <= x < sel.inc.len() implies tags.contains(
            #[trigger] sel.inc[x],
        ) by {
            assert(tags[x] == sel.inc[x]);
        }
        assert forall|x: int| 0 <= x < sel.exc.len() implies sel.inc.contains(
            #[trigger] sel.exc[x],
        ) || !tags.contains(sel.exc[x]) by {
            universe.lemma_filter_pred(pred, x);
            assert(!spec_key_tags(k).contains(sel.exc[x]));
        }
        assert(spec_matches(sel, tags));
    }
    if spec_matches(sel, tags) {
        assert forall|t: Seq<char>| tags.contains(t) <==> ref_tags.contains(t) by {
            if tags.contains(t) && !ref_tags.contains(t) {
                let x = choose|x: int| 0 <= x < tags.len() && tags[x] == t;
                assert(universe.contains(t));
                let u = choose|u: int| 0 <= u < universe.len() && universe[u] == t;
                universe.lemma_filter_contains(pred, u);
                assert(sel.exc.contains(t));
                let y = choose|y: int| 0 <= y < sel.exc.len() && sel.exc[y] == t;
                assert(sel.inc.contains(sel.exc[y]) || !tags.contains(sel.exc[y]));
                assert(false);
            }
            if ref_tags.contains(t) {
                let x = choose|x: int| 0 <= x < ref_tags.len() && ref_tags[x] == t;
                assert(tags.contains(sel.inc[x]));
            }
        }
        lemma_sorted_same_membership_equal(tags, ref_tags);
    }
}

/// Counting a signature's items equals counting the items matching the
/// group's selection, item by item.
proof fn lemma_filter_len_is_count(
    items: Seq<ItemV>,
    k: Seq<char>,
    ref_tags: Seq<Seq<char>>,
    universe: Seq<Seq<char>>,
)
    requires
        forall|j: int| 0 <= j < items.len() ==> tags_wf((#[trigger] items[j]).tags, universe),
        tags_wf(ref_tags, universe),
        spec_key(ref_tags) == k,
    ensures
        items.filter(|iv: ItemV| spec_matches(spec_group_selection(k, universe), iv.tags)).len()
            == spec_key_count(items, k),
    decreases items.len(),
{
    let pred = |iv: ItemV| spec_matches(spec_group_selection(k, universe), iv.tags);
    if items.len() == 0 {
        assert(items.filter(pred) =~= items);
    } else {
        let prev = items.drop_last();
        let last = items.last();
        assert forall|j: int| 0 <= j < prev.len() implies tags_wf(
            (#[trigger] prev[j]).tags,
            universe,
        ) by {
            assert(prev[j] == items[j]);
        }
        lemma_filter_len_is_count(prev, k, ref_tags, universe);
        lemma_match_is_key_equal(last.tags, ref_tags, universe);
        assert(prev.push(last) =~= items);
        lemma_key_count_push(prev, last, k);
        reveal_with_fuel(Seq::filter, 2);
        assert(items.filter(pred) == if pred(last) {
            prev.filter(pred).push(last)
        } else {
            prev.filter(pred)
        });
    }
}

/// For every group of the statistics, filtering the items by the group's
/// selection returns exactly as many items as the group counts — the
/// statistics round-trip through the query engine. It holds whenever every
/// item's tag list is well formed over the universe.
pub proof fn lemma_group_filter_round_trip(
    items: Seq<ItemV>,
    universe: Seq<Seq<char>>,
    k: Seq<char>,
)
    requires
        forall|j: int| 0 <= j < items.len() ==> tags_wf((#[trigger] items[j]).tags, universe),
        exists|j: int| 0 <= j < items.len() && spec_key((#[trigger] items[j]).tags) == k,
    ensures
        items.filter(|iv: ItemV| spec_matches(spec_group_selection(k, universe), iv.tags)).len()
            == spec_key_count(items, k),
{
    let j0 = choose|j: int| 0 <= j < items.len() && spec_key((#[trigger] items[j]).tags) == k;
    lemma_filter_len_is_count(items, k, items[j0].tags, universe);
}

/// The total of the group counts.
pub open spec fn spec_total(groups: Seq<StatItemV>) -> int
    decreases groups.len(),
{
    if groups.len() == 0 {
        0
    } else {
        groups[0].count + spec_total(groups.drop_first())
    }
}

/// A total of zero counts is zero.
proof fn lemma_total_zero(groups: Seq<StatItemV>)
    requires
        forall|x: int| 0 <= x < groups.len() ==> (#[trigger] groups[x]).count == 0,
    ensures
        spec_total(groups) == 0,
    decreases groups.len(),
{
    if groups.len() > 0 {
        assert forall|x: int| 0 <= x < groups.drop_first().len() implies (
        #[trigger] groups.drop_first()[x]).count == 0 by {
            assert(groups.drop_first()[x] == groups[x + 1]);
        }
        lemma_total_zero(groups.drop_first());
    }
}

/// Replacing one group changes the total by the difference of the counts.
proof fn lemma_total_update(groups: Seq<StatItemV>, x: int, g: StatItemV)
    requires
        0 <= x < groups.len(),
    ensures
        spec_total(groups.update(x, g)) == spec_total(groups) - groups[x].count + g.count,
    decreases groups.len(),
{
    if x == 0 {
        assert(groups.update(0, g)[0] == g);
        assert(groups.update(0, g).drop_first() =~= groups.drop_first());
    } else {
        assert(groups.update(x, g)[0] == groups[0]);
        assert(groups.update(x, g).drop_first() =~= groups.drop_first().update(x - 1, g));
        lemma_total_update(groups.drop_first(), x - 1, g);
        assert(groups.drop_first()[x - 1] == groups[x]);
    }
}

/// The groups of the statistics partition the item collection: with the
/// group keys pairwise distinct, each group counting the items that carry
/// its signature, and every item's signature present among the groups —
/// exactly what `aggregate` ensures — the group counts add up to the
/// number of items, so every item falls into exactly one group.
pub proof fn lemma_stats_partition(items: Seq<ItemV>, groups: Seq<StatItemV>)
    requires
        forall|x: int, y: int|
            0 <= x < y < groups.len() ==> (#[trigger] groups[x]).key != (
            #[trigger] groups[y]).key,
        forall|x: int|
            0 <= x < groups.len() ==> (#[trigger] groups[x]).count == spec_key_count(
                items,
                groups[x].key,
            ),
        forall|j: int|
            0 <= j < items.len() ==> spec_has_group(groups, spec_key((#[trigger] items[j]).tags)),
    ensures
        spec_total(groups) == items.len(),
    decreases items.len(),
{
    if items.len() == 0 {
        lemma_total_zero(groups);
    } else {
        let prev = items.drop_last();
        let last = items.last();
        let lk = spec_key(last.tags);
        assert(items[items.len() - 1] == last);
        assert(spec_has_group(groups, lk));
        let xi = choose|x: int| 0 <= x < groups.len() && (#[trigger] groups[x]).key == lk;
        let g2 = StatItemV { key: groups[xi].key, count: groups[xi].count - 1, url: groups[xi].url };
        let groups2 = groups.update(xi, g2);
        assert(prev.push(last) =~= items);
        assert forall|x: int| 0 <= x < groups2.len() implies (#[trigger] groups2[x]).count
            == spec_key_count(prev, groups2[x].key) by {
            lemma_key_count_push(prev, last, groups2[x].key);
            if x != xi {
                assert(groups2[x] == groups[x]);
                if x < xi {
                    assert(groups[x].key != groups[xi].key);
                } else {
                    assert(groups[xi].key != groups[x].key);
                }
            }
        }
        assert forall|x: int, y: int| 0 <= x < y < groups2.len() implies (
        #[trigger] groups2[x]).key != (#[trigger] groups2[y]).key by {
            assert(groups2[x].key == groups[x].key && groups2[y].key == groups[y].key);
        }
        assert forall|j: int| 0 <= j < prev.len() implies spec_has_group(
            groups2,
            spec_key((#[trigger] prev[j]).tags),
        ) by {
            assert(prev[j] == items[j]);
            assert(spec_has_group(groups, spec_key(items[j].tags)));
            let x = choose|x: int|
                0 <= x < groups.len() && (#[trigger] groups[x]).key == spec_key(items[j].tags);
            assert(groups2[x].key == spec_key(prev[j].tags));
        }
        lemma_stats_partition(prev, groups2);
        lemma_total_update(groups, xi, g2);
    }
}

} // verus!
