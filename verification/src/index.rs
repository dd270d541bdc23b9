//! The image index: the sorted collection of items, its construction from a
//! directory scan, and lookup by name.

use vstd::prelude::*;

use crate::item::{
    DBItem, ItemV, TagRecord, TagRecordV, TxtDB, spec_is_image_name, spec_new_item, is_image_name,
};
use crate::sqldb::{SqliteDB, spec_item_of_record};
use crate::strutil::{seq_le, seq_lt, str_lt, lemma_seq_lt_trichotomy, lemma_seq_lt_transitive};

verus! {

/// One directory entry handed to index construction: the entry's file name
/// and what was found at its tag-record location.
pub struct ScanEntry {
    pub file_name: String,
    pub record: TagRecord,
}

/// Spec-level model of a [`ScanEntry`].
pub ghost struct ScanEntryV {
    pub name: Seq<char>,
    pub record: TagRecordV,
}

impl View for ScanEntry {
    type V = ScanEntryV;

    open spec fn view(&self) -> ScanEntryV {
        ScanEntryV { name: self.file_name@, record: self.record@ }
    }
}

/// The items a sequence of [`DBItem`]s stands for.
pub open spec fn items_view(s: Seq<DBItem>) -> Seq<ItemV> {
    s.map_values(|x: DBItem| x@)
}

/// The items are sorted by name, ascending.
pub open spec fn sorted_by_name(s: Seq<ItemV>) -> bool {
    forall|i: int, j: int| 0 <= i < j < s.len() ==> seq_le(#[trigger] s[i].name, #[trigger] s[j].name)
}

/// The item collection, sorted by image name so that an item can be found
/// by binary search.
pub struct DataBase {
    pub items: Vec<DBItem>,
}

impl View for DataBase {
    type V = Seq<ItemV>;

    open spec fn view(&self) -> Seq<ItemV> {
        items_view(self.items@)
    }
}

impl DataBase {
    /// The collection is sorted by name.
    pub open spec fn wf(&self) -> bool {
        sorted_by_name(self@)
    }
}

/// Inserting an element anywhere in a sequence adds it to the sequence's
/// multiset.
proof fn lemma_insert_to_multiset<A>(s: Seq<A>, p: int, x: A)
    requires
        0 <= p <= s.len(),
    ensures
        s.insert(p, x).to_multiset() == s.to_multiset().insert(x),
{
    let t = s.insert(p, x);
    s.insert_ensures(p, x);
    t.to_multiset_ensures();
    s.to_multiset_ensures();
    assert(t.remove(p) =~= s);
    assert(t[p] == x);
    assert(t.remove(p).to_multiset() =~= t.to_multiset().remove(x));
    assert(t.contains(x));
    assert(t.to_multiset().count(x) > 0);
    assert(t.to_multiset().remove(x).insert(x) =~= t.to_multiset());
}

/// Inserts `it` before the first item with a greater name, keeping the
/// collection sorted.
fn insert_item_sorted(items: &mut Vec<DBItem>, it: DBItem)
    requires
        sorted_by_name(items_view(old(items)@)),
    ensures
        sorted_by_name(items_view(final(items)@)),
        items_view(final(items)@).to_multiset() == items_view(old(items)@).to_multiset().insert(
            it@,
        ),
{
    let ghost old_v = items_view(items@);
    let mut p: usize = 0;
    while p < items.len() && !str_lt(it.image_name.as_str(), items[p].image_name.as_str())
        invariant
            p <= items@.len(),
            items@ == old(items)@,
            forall|k: int| 0 <= k < p ==> seq_le(#[trigger] items_view(items@)[k].name, it@.name),
        decreases items@.len() - p,
    {
        proof {
            lemma_seq_lt_trichotomy(it@.name, items@[p as int]@.name);
        }
        p = p + 1;
    }
    let ghost pp = p as int;
    proof {
        assert(pp == items@.len() || seq_lt(it@.name, old_v[pp].name));
    }
    items.insert(p, it);
    proof {
        old(items)@.insert_ensures(pp, it);
        let new_v = items_view(items@);
        assert(new_v =~= old_v.insert(pp, it@));
        assert forall|x: int, y: int|
            0 <= x < y < new_v.len() implies seq_le(new_v[x].name, new_v[y].name) by {
            if y < pp {
                assert(seq_le(old_v[x].name, old_v[y].name));
            } else if x < pp && y == pp {
                assert(seq_le(old_v[x].name, it@.name));
            } else if x < pp && y > pp {
                if x < y - 1 {
                    assert(seq_le(old_v[x].name, old_v[y - 1].name));
                }
            } else if x == pp {
                assert(seq_lt(it@.name, old_v[pp].name));
                assert(seq_le(old_v[pp].name, old_v[y - 1].name));
                if old_v[pp].name != old_v[y - 1].name {
                    lemma_seq_lt_transitive(it@.name, old_v[pp].name, old_v[y - 1].name);
                }
            } else {
                assert(seq_le(old_v[x - 1].name, old_v[y - 1].name));
            }
        }
        lemma_insert_to_multiset(old_v, pp, it@);
    }
}

/// Whether a scanned entry survives index construction: its name must look
/// like an image, and with `skip_missing` set an entry without a tag record
/// is dropped.
pub open spec fn spec_keeps(ev: ScanEntryV, skip_missing: bool) -> bool {
    spec_is_image_name(ev.name) && (skip_missing ==> !(ev.record is Missing))
}

/// The items of the index built from a scan: the surviving entries, turned
/// into items.
pub open spec fn spec_scan_items(
    entries: Seq<ScanEntryV>,
    tag_dir: Seq<char>,
    skip_missing: bool,
) -> Seq<ItemV> {
    entries.filter(|ev: ScanEntryV| spec_keeps(ev, skip_missing)).map_values(
        |ev: ScanEntryV| spec_new_item(ev.name, tag_dir, ev.record),
    )
}

impl TxtDB {
    /// Builds the index from a directory scan, for the file-backed
    /// strategies. The index holds exactly the entries whose name looks
    /// like an image — and, when `skip_missing` is set, that have a tag
    /// record — one item each, sorted by name.
    pub fn create_database(entries: &Vec<ScanEntry>, tag_dir: &str, skip_missing: bool) -> (r:
        DataBase)
        ensures
            r.wf(),
            r@.to_multiset() == spec_scan_items(
                entries@.map_values(|e: ScanEntry| e@),
                tag_dir@,
                skip_missing,
            ).to_multiset(),
    {
        let ghost ev = entries@.map_values(|e: ScanEntry| e@);
        let ghost keep = |e: ScanEntryV| spec_keeps(e, skip_missing);
        let ghost mk = |e: ScanEntryV| spec_new_item(e.name, tag_dir@, e.record);
        let mut items: Vec<DBItem> = Vec::new();
        let mut i: usize = 0;
        proof {
            assert(ev.take(0) =~= Seq::<ScanEntryV>::empty());
            assert(items_view(items@) =~= Seq::<ItemV>::empty());
            assert(ev.take(0).filter(keep) =~= Seq::<ScanEntryV>::empty());
            assert(ev.take(0).filter(keep).map_values(mk) =~= Seq::<ItemV>::empty());
        }
        while i < entries.len()
            invariant
                i <= entries.len(),
                ev == entries@.map_values(|e: ScanEntry| e@),
                keep == (|e: ScanEntryV| spec_keeps(e, skip_missing)),
                mk == (|e: ScanEntryV| spec_new_item(e.name, tag_dir@, e.record)),
                sorted_by_name(items_view(items@)),
                items_view(items@).to_multiset() == ev.take(i as int).filter(keep).map_values(
                    mk,
                ).to_multiset(),
            decreases entries.len() - i,
        {
            let e = &entries[i];
            let keep_it = is_image_name(e.file_name.as_str()) && (!skip_missing || !(match &e
                .record {
                TagRecord::Missing => true,
                _ => false,
            }));
            let ghost prev = ev.take(i as int).filter(keep).map_values(mk);
            proof {
                assert(ev[i as int] == entries@[i as int]@);
                assert(ev.take(i + 1) =~= ev.take(i as int).push(ev[i as int]));
                assert(ev.take(i + 1).drop_last() =~= ev.take(i as int));
                assert(ev.take(i + 1).last() == ev[i as int]);
                reveal_with_fuel(Seq::filter, 2);
                assert(ev.take(i + 1).filter(keep) == if keep(ev[i as int]) {
                    ev.take(i as int).filter(keep).push(ev[i as int])
                } else {
                    ev.take(i as int).filter(keep)
                });
                assert(keep_it == keep(ev[i as int]));
                if keep_it {
                    assert(ev.take(i as int).filter(keep).push(ev[i as int]).map_values(mk)
                        =~= prev.push(mk(ev[i as int])));
                    prev.to_multiset_ensures();
                }
            }
            if keep_it {
                let it = TxtDB::new_item(e.file_name.as_str(), tag_dir, &e.record);
                insert_item_sorted(&mut items, it);
            }
            i = i + 1;
        }
        proof {
            assert(ev.take(entries.len() as int) =~= ev);
        }
        DataBase { items }
    }
}

/// One scanned image entry for the SQL strategy: the entry's file name and
/// the data column of its row, if the table has one under that name.
pub struct SqlScanEntry {
    pub file_name: String,
    pub row_data: Option<String>,
}

/// Spec-level model of a [`SqlScanEntry`]: the name and the effective row
/// data (absent rows read as empty data).
pub ghost struct SqlScanEntryV {
    pub name: Seq<char>,
    pub data: Seq<char>,
}

impl View for SqlScanEntry {
    type V = SqlScanEntryV;

    open spec fn view(&self) -> SqlScanEntryV {
        SqlScanEntryV {
            name: self.file_name@,
            data: match self.row_data {
                Some(d) => d@,
                None => Seq::empty(),
            },
        }
    }
}

/// The items of the index built from a scan of the SQL table.
pub open spec fn spec_sql_scan_items(entries: Seq<SqlScanEntryV>) -> Seq<ItemV> {
    entries.filter(|ev: SqlScanEntryV| spec_is_image_name(ev.name)).map_values(
        |ev: SqlScanEntryV| spec_item_of_record(ev.name, ev.data),
    )
}

impl SqliteDB {
    /// Builds the index from a directory scan, for the SQL strategy. The
    /// index holds exactly the entries whose name looks like an image, one
    /// item each, sorted by name. Entries without a row are kept with empty
    /// data: absence of a row means "no tags yet", not a missing file, so
    /// `skip_missing` has no effect here and is accepted only for symmetry
    /// with the file-backed strategies.
    pub fn create_database(entries: &Vec<SqlScanEntry>, _skip_missing: bool) -> (r: DataBase)
        ensures
            r.wf(),
            r@.to_multiset() == spec_sql_scan_items(
                entries@.map_values(|e: SqlScanEntry| e@),
            ).to_multiset(),
    {
        let ghost ev = entries@.map_values(|e: SqlScanEntry| e@);
        let ghost keep = |e: SqlScanEntryV| spec_is_image_name(e.name);
        let ghost mk = |e: SqlScanEntryV| spec_item_of_record(e.name, e.data);
        let mut items: Vec<DBItem> = Vec::new();
        let mut i: usize = 0;
        proof {
            assert(ev.take(0) =~= Seq::<SqlScanEntryV>::empty());
            assert(items_view(items@) =~= Seq::<ItemV>::empty());
            assert(ev.take(0).filter(keep) =~= Seq::<SqlScanEntryV>::empty());
            assert(ev.take(0).filter(keep).map_values(mk) =~= Seq::<ItemV>::empty());
        }
        while i < entries.len()
            invariant
                i <= entries.len(),
                ev == entries@.map_values(|e: SqlScanEntry| e@),
                keep == (|e: SqlScanEntryV| spec_is_image_name(e.name)),
                mk == (|e: SqlScanEntryV| spec_item_of_record(e.name, e.data)),
                sorted_by_name(items_view(items@)),
                items_view(items@).to_multiset() == ev.take(i as int).filter(keep).map_values(
                    mk,
                ).to_multiset(),
            decreases entries.len() - i,
        {
            let e = &entries[i];
            let keep_it = is_image_name(e.file_name.as_str());
            let ghost prev = ev.take(i as int).filter(keep).map_values(mk);
            proof {
                assert(ev[i as int] == entries@[i as int]@);
                assert(ev.take(i + 1) =~= ev.take(i as int).push(ev[i as int]));
                assert(ev.take(i + 1).drop_last() =~= ev.take(i as int));
                assert(ev.take(i + 1).last() == ev[i as int]);
                reveal_with_fuel(Seq::filter, 2);
                assert(ev.take(i + 1).filter(keep) == if keep(ev[i as int]) {
                    ev.take(i as int).filter(keep).push(ev[i as int])
                } else {
                    ev.take(i as int).filter(keep)
                });
                if keep_it {
                    assert(ev.take(i as int).filter(keep).push(ev[i as int]).map_values(mk)
                        =~= prev.push(mk(ev[i as int])));
                    prev.to_multiset_ensures();
                }
            }
            if keep_it {
                let data = match &e.row_data {
                    Some(d) => Some(d.clone()),
                    None => None,
                };
                let it = SqliteDB::new_item(e.file_name.as_str(), data);
                insert_item_sorted(&mut items, it);
            }
            i = i + 1;
        }
        proof {
            assert(ev.take(entries.len() as int) =~= ev);
        }
        DataBase { items }
    }
}

impl DataBase {
    /// Finds the position of the item named `name` by binary search, when
    /// the collection is sorted. Returns nothing exactly when no item has
    /// that name.
    pub fn find_by_name(&self, name: &str) -> (r: Option<usize>)
        requires
            self.wf(),
        ensures
            match r {
                Some(i) => i < self@.len() && self@[i as int].name == name@,
                None => forall|i: int| 0 <= i < self@.len() ==> self@[i].name != name@,
            },
    {
        let mut lo: usize = 0;
        let mut hi: usize = self.items.len();
        while lo < hi
            invariant
                lo <= hi <= self@.len(),
                self.wf(),
                forall|i: int| 0 <= i < lo ==> seq_lt(#[trigger] self@[i].name, name@),
                forall|i: int| hi <= i < self@.len() ==> seq_lt(name@, #[trigger] self@[i].name),
            decreases hi - lo,
        {
            let mid = lo + (hi - lo) / 2;
            let ghost m = mid as int;
            if str_lt(self.items[mid].image_name.as_str(), name) {
                proof {
                    assert forall|i: int| 0 <= i < mid + 1 implies seq_lt(
                        #[trigger] self@[i].name,
                        name@,
                    ) by {
                        assert(seq_le(self@[i].name, self@[m].name));
                        if self@[i].name != self@[m].name {
                            lemma_seq_lt_transitive(self@[i].name, self@[m].name, name@);
                        }
                    }
                }
                lo = mid + 1;
            } else if str_lt(name, self.items[mid].image_name.as_str()) {
                proof {
                    assert forall|i: int| mid <= i < self@.len() implies seq_lt(
                        name@,
                        #[trigger] self@[i].name,
                    ) by {
                        assert(seq_le(self@[m].name, self@[i].name));
                        if self@[m].name != self@[i].name {
                            lemma_seq_lt_transitive(name@, self@[m].name, self@[i].name);
                        }
                    }
                }
                hi = mid;
            } else {
                proof {
                    lemma_seq_lt_trichotomy(self@[m].name, name@);
                }
                return Some(mid);
            }
        }
        proof {
            assert forall|i: int| 0 <= i < self@.len() implies self@[i].name != name@ by {
                if i < lo {
                    lemma_seq_lt_trichotomy(self@[i].name, name@);
                } else {
                    lemma_seq_lt_trichotomy(self@[i].name, name@);
                }
            }
        }
        None
    }
}

} // verus!
