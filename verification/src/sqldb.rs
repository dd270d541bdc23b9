//! The SQL-row tag-record strategy.
//!
//! Tags live in a two-column table: one row per image, keyed by the image's
//! base name, with the checked tags comma-joined in the data column. Running
//! queries and updates against the database file is left to the caller; the
//! functions here turn row data into index items and tag lists into row
//! data.

use vstd::prelude::*;

use crate::item::{DBItem, ItemV, spec_image_root, spec_path_join, path_join};
use crate::strutil::{spec_join, spec_split, split_str, join_strs};

verus! {

/// One row of the tag table: the image's base name and its comma-joined
/// tag list.
pub struct Record {
    pub key: String,
    pub data: String,
}

/// The index item a row stands for. The served path puts the key under the
/// public image root; the record location is empty (the row itself is the
/// record); the tags are the comma-separated pieces of the data. Note that
/// empty data yields one empty tag, not an empty tag list: splitting an
/// empty string gives a single empty piece.
pub open spec fn spec_item_of_record(key: Seq<char>, data: Seq<char>) -> ItemV {
    ItemV {
        name: key,
        path: spec_path_join(spec_image_root(), key),
        tag_path: Seq::empty(),
        tags: spec_split(data, seq![',']),
    }
}

impl DBItem {
    /// Builds the index item a row stands for.
    pub fn from_record(record: Record) -> (r: DBItem)
        ensures
            r@ == spec_item_of_record(record.key@, record.data@),
    {
        proof {
            reveal_strlit("/images");
            reveal_strlit(",");
            assert("/images"@ =~= spec_image_root());
            assert(","@ =~= seq![',']);
        }
        let image_path = path_join("/images", record.key.as_str());
        let checked_tags = split_str(record.data.as_str(), ",");
        let r = DBItem {
            image_name: record.key,
            image_path,
            tag_path: String::new(),
            checked_tags,
        };
        proof {
            assert(r.tag_path@ =~= Seq::<char>::empty());
        }
        r
    }
}

/// The SQL-row strategy, keeping the location of the database file.
pub struct SqliteDB {
    pub db_path: String,
}

impl SqliteDB {
    /// Builds the index entry for one image from the row found under its
    /// name. An absent row is treated as a row with empty data; such a
    /// record is synthesised in memory only and never written back, so a
    /// later update finds no row to change.
    pub fn new_item(image_file_name: &str, row_data: Option<String>) -> (r: DBItem)
        ensures
            r@ == spec_item_of_record(
                image_file_name@,
                match row_data {
                    Some(d) => d@,
                    None => Seq::empty(),
                },
            ),
    {
        let data = match row_data {
            Some(d) => d,
            None => String::new(),
        };
        DBItem::from_record(Record { key: String::from_str(image_file_name), data })
    }

    /// Serialises a tag update for the row: the new data column is the tags
    /// comma-joined. The caller runs the row update, and only then replaces
    /// the item's in-memory tags.
    pub fn update_tags(&self, tags: &Vec<String>) -> (data: String)
        ensures
            data@ == spec_join(tags.deep_view(), seq![',']),
    {
        proof {
            reveal_strlit(",");
            assert(","@ =~= seq![',']);
        }
        join_strs(tags, ",")
    }
}

} // verus!
