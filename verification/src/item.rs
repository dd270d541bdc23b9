//! Items of the image index and the text/JSON tag-record strategies.
//!
//! A [`DBItem`] describes one image: its file name, the public path it is
//! served under, the location of its tag record, and its currently checked
//! tags. [`TxtDB`] holds the logic of the file-backed strategies: parsing a
//! text record (one tag per non-empty line), reading the labels of a JSON
//! annotation document's flag map, deriving the record location from the
//! image name, and deciding how a tag update is persisted.
//!
//! Reading directories and files is left to the caller; the functions here
//! take the file names and contents as plain values.

use vstd::prelude::*;

use crate::strutil::{spec_join, spec_split, split_str, join_strs, str_eq};

verus! {

/// Spec-level model of a [`DBItem`]: every field as a character sequence,
/// the checked tags as a sequence of character sequences.
pub ghost struct ItemV {
    pub name: Seq<char>,
    pub path: Seq<char>,
    pub tag_path: Seq<char>,
    pub tags: Seq<Seq<char>>,
}

/// Spec-level model of a [`TagRecord`].
pub ghost enum TagRecordV {
    Text(Seq<char>),
    Json(Seq<(Seq<char>, bool)>),
    Missing,
}

/// One image of the index together with its checked-tag state.
pub struct DBItem {
    /// The image's file name; the identity and sort key of the item.
    pub image_name: String,
    /// The public path the image is served under.
    pub image_path: String,
    /// The location of the item's tag record.
    pub tag_path: String,
    /// The currently checked tags, in load order, not deduplicated.
    pub checked_tags: Vec<String>,
}

impl View for DBItem {
    type V = ItemV;

    open spec fn view(&self) -> ItemV {
        ItemV {
            name: self.image_name@,
            path: self.image_path@,
            tag_path: self.tag_path@,
            tags: self.checked_tags.deep_view(),
        }
    }
}

/// The contents found at an item's tag-record location: a text file, a JSON
/// annotation document reduced to its label/flag pairs, or nothing.
pub enum TagRecord {
    Text(String),
    Json(Vec<(String, bool)>),
    Missing,
}

/// The label/flag pairs of a JSON annotation document, at the spec level.
pub open spec fn flags_view(fs: Seq<(String, bool)>) -> Seq<(Seq<char>, bool)> {
    fs.map_values(|f: (String, bool)| (f.0@, f.1))
}

impl View for TagRecord {
    type V = TagRecordV;

    open spec fn view(&self) -> TagRecordV {
        match self {
            TagRecord::Text(c) => TagRecordV::Text(c@),
            TagRecord::Json(fs) => TagRecordV::Json(flags_view(fs@)),
            TagRecord::Missing => TagRecordV::Missing,
        }
    }
}

/// Index of the last `'.'` in `s`, or -1 when `s` has none.
pub open spec fn spec_last_dot(s: Seq<char>) -> int
    decreases s.len(),
{
    if s.len() == 0 {
        -1
    } else if s[s.len() - 1] == '.' {
        s.len() - 1
    } else {
        spec_last_dot(s.drop_last())
    }
}

/// `name` with its extension replaced by `ext`; a name without an extension
/// (no dot, or only a leading dot) gets `ext` appended after a new dot.
pub open spec fn spec_with_ext(name: Seq<char>, ext: Seq<char>) -> Seq<char> {
    let i = spec_last_dot(name);
    (if i > 0 {
        name.take(i)
    } else {
        name
    }) + seq!['.'] + ext
}

/// `dir` and `file` joined into one path with a single separator between
/// them.
pub open spec fn spec_path_join(dir: Seq<char>, file: Seq<char>) -> Seq<char> {
    if dir.len() > 0 && dir[dir.len() - 1] != '/' {
        dir + seq!['/'] + file
    } else {
        dir + file
    }
}

/// The fixed virtual prefix under which images are served; only an image's
/// base name appears under it, so a served path cannot reach outside the
/// image directory.
pub open spec fn spec_image_root() -> Seq<char> {
    seq!['/', 'i', 'm', 'a', 'g', 'e', 's']
}

/// `s` ends with `suffix`.
pub open spec fn spec_ends_with(s: Seq<char>, suffix: Seq<char>) -> bool {
    s.len() >= suffix.len() && s.skip(s.len() - suffix.len()) == suffix
}

/// Whether a file name is recognised as an image. The test is a plain
/// suffix check: the recognised names are exactly those ending in `.jpg`,
/// `.png` or `.jpeg` (case-sensitive).
pub open spec fn spec_is_image_name(s: Seq<char>) -> bool {
    spec_ends_with(s, seq!['.', 'j', 'p', 'g']) || spec_ends_with(s, seq!['.', 'p', 'n', 'g'])
        || spec_ends_with(s, seq!['.', 'j', 'p', 'e', 'g'])
}

/// Index of the last `'.'` of `s`, if any.
fn last_dot(s: &str) -> (r: Option<usize>)
    ensures
        match r {
            Some(i) => i == spec_last_dot(s@) && i < s@.len(),
            None => spec_last_dot(s@) == -1,
        },
{
    let n = s.unicode_len();
    let mut i: usize = n;
    proof {
        assert(s@.take(n as int) =~= s@);
    }
    while i > 0
        invariant
            i <= n,
            n == s@.len(),
            spec_last_dot(s@) == spec_last_dot(s@.take(i as int)),
        decreases i,
    {
        if s.get_char(i - 1) == '.' {
            proof {
                assert(s@.take(i as int)[i - 1] == s@[i - 1]);
            }
            return Some(i - 1);
        }
        proof {
            assert(s@.take(i as int)[i - 1] == s@[i - 1]);
            assert(s@.take(i as int).drop_last() =~= s@.take(i - 1));
        }
        i = i - 1;
    }
    proof {
        assert(s@.take(0) =~= Seq::<char>::empty());
    }
    None
}

/// `name` with its extension replaced by `ext`.
pub fn with_extension(name: &str, ext: &str) -> (r: String)
    ensures
        r@ == spec_with_ext(name@, ext@),
{
    let mut r: String;
    match last_dot(name) {
        Some(i) => {
            if i > 0 {
                r = String::from_str(name.substring_char(0, i));
                proof {
                    assert(r@ =~= name@.take(spec_last_dot(name@)));
                }
            } else {
                r = String::from_str(name);
            }
        },
        None => {
            r = String::from_str(name);
        },
    }
    r.append(".");
    r.append(ext);
    proof {
        reveal_strlit(".");
        assert("."@ =~= seq!['.']);
    }
    r
}

/// `dir` and `file` joined into one path.
pub fn path_join(dir: &str, file: &str) -> (r: String)
    ensures
        r@ == spec_path_join(dir@, file@),
{
    let n = dir.unicode_len();
    let mut r = String::from_str(dir);
    if n > 0 && dir.get_char(n - 1) != '/' {
        r.append("/");
        proof {
            reveal_strlit("/");
            assert("/"@ =~= seq!['/']);
        }
    }
    r.append(file);
    r
}

/// `s` ends with `suffix`.
fn ends_with_str(s: &str, suffix: &str) -> (r: bool)
    ensures
        r == spec_ends_with(s@, suffix@),
{
    let n = s.unicode_len();
    let m = suffix.unicode_len();
    if m > n {
        return false;
    }
    str_eq(s.substring_char(n - m, n), suffix)
}

/// Whether the file name is recognised as an image, by its extension.
pub fn is_image_name(name: &str) -> (r: bool)
    ensures
        r == spec_is_image_name(name@),
{
    proof {
        reveal_strlit(".jpg");
        reveal_strlit(".png");
        reveal_strlit(".jpeg");
        assert(".jpg"@ =~= seq!['.', 'j', 'p', 'g']);
        assert(".png"@ =~= seq!['.', 'p', 'n', 'g']);
        assert(".jpeg"@ =~= seq!['.', 'j', 'p', 'e', 'g']);
    }
    ends_with_str(name, ".jpg") || ends_with_str(name, ".png") || ends_with_str(name, ".jpeg")
}

/// The extension of a path: the characters after its last `'.'`, when that
/// dot lies in the last path component and is not the component's first
/// character; empty otherwise.
pub open spec fn spec_ext(p: Seq<char>) -> Seq<char> {
    let i = spec_last_dot(p);
    if i > 0 && !p.skip(i).contains('/') && p[i - 1] != '/' {
        p.skip(i + 1)
    } else {
        Seq::empty()
    }
}

/// The characters of the text extension.
pub open spec fn txt_ext() -> Seq<char> {
    seq!['t', 'x', 't']
}

/// The characters of the JSON extension.
pub open spec fn json_ext() -> Seq<char> {
    seq!['j', 's', 'o', 'n']
}

/// Whether the path's extension is exactly `ext`.
fn has_ext(p: &str, ext: &str) -> (r: bool)
    requires
        ext@.len() > 0,
    ensures
        r == (spec_ext(p@) == ext@),
{
    let n = p.unicode_len();
    match last_dot(p) {
        None => false,
        Some(i) => {
            if i == 0 {
                return false;
            }
            if p.get_char(i - 1) == '/' {
                return false;
            }
            let mut j: usize = i;
            let mut slash = false;
            while j < n
                invariant
                    i <= j <= n,
                    n == p@.len(),
                    slash == exists|k: int| i <= k < j && p@[k] == '/',
                decreases n - j,
            {
                if p.get_char(j) == '/' {
                    slash = true;
                }
                j = j + 1;
            }
            proof {
                if slash {
                    let k = choose|k: int| i <= k < n && p@[k] == '/';
                    assert(p@.skip(i as int)[k - i] == '/');
                } else {
                    if p@.skip(i as int).contains('/') {
                        let k = choose|k: int|
                            0 <= k < p@.skip(i as int).len() && p@.skip(i as int)[k] == '/';
                        assert(p@[k + i] == '/');
                    }
                }
            }
            if slash {
                return false;
            }
            let r = str_eq(p.substring_char(i + 1, n), ext);
            proof {
                assert(p@.subrange(i + 1, n as int) =~= p@.skip(i + 1));
            }
            r
        },
    }
}

/// The checked tags held in a text record: its non-empty lines, in order.
pub open spec fn spec_text_tags(contents: Seq<char>) -> Seq<Seq<char>> {
    spec_split(contents, seq!['\n']).filter(|t: Seq<char>| t.len() > 0)
}

/// The labels of the flag pairs whose flag is set, in order.
pub open spec fn spec_true_labels(fs: Seq<(Seq<char>, bool)>) -> Seq<Seq<char>> {
    fs.filter(|f: (Seq<char>, bool)| f.1).map_values(|f: (Seq<char>, bool)| f.0)
}

/// The flag pairs after a tag update: every label keeps its place, and its
/// flag says whether the label is among the new tags.
pub open spec fn spec_update_flags(fs: Seq<(Seq<char>, bool)>, tags: Seq<Seq<char>>) -> Seq<
    (Seq<char>, bool),
> {
    fs.map_values(|f: (Seq<char>, bool)| (f.0, tags.contains(f.0)))
}

/// Whether one of the strings in `v` has the characters of `s`.
pub fn contains_str(v: &Vec<String>, s: &str) -> (r: bool)
    ensures
        r == v.deep_view().contains(s@),
{
    let mut i: usize = 0;
    while i < v.len()
        invariant
            i <= v.len(),
            forall|k: int| 0 <= k < i ==> v.deep_view()[k] != s@,
        decreases v.len() - i,
    {
        if str_eq(v[i].as_str(), s) {
            assert(v.deep_view()[i as int] == s@);
            return true;
        }
        i = i + 1;
    }
    false
}

/// The item's checked tags, serialised for a text record: the tags joined
/// with a newline between consecutive tags.
pub open spec fn spec_text_contents(tags: Seq<Seq<char>>) -> Seq<char> {
    spec_join(tags, seq!['\n'])
}

/// How a tag update is persisted.
pub enum UpdateAction {
    /// Overwrite the text record at `path` with `contents`.
    WriteText { path: String, contents: String },
    /// Load the JSON document at `path`, pass its flags through
    /// [`update_flags`], and save it back in place.
    RewriteJson { path: String },
}

/// Rewrites a JSON document's flags for a tag update: each flag becomes
/// whether its label is among the new tags; labels and their order are kept.
pub fn update_flags(flags: &mut Vec<(String, bool)>, tags: &Vec<String>)
    ensures
        flags_view(final(flags)@) == spec_update_flags(flags_view(old(flags)@), tags.deep_view()),
{
    let mut i: usize = 0;
    while i < flags.len()
        invariant
            i <= flags@.len(),
            flags@.len() == old(flags)@.len(),
            forall|k: int| i <= k < flags@.len() ==> flags@[k] == old(flags)@[k],
            forall|k: int|
                0 <= k < i ==> flags@[k].0 == old(flags)@[k].0 && flags@[k].1
                    == tags.deep_view().contains(old(flags)@[k].0@),
        decreases flags@.len() - i,
    {
        let lab = flags[i].0.clone();
        let c = contains_str(tags, lab.as_str());
        flags.set(i, (lab, c));
        i = i + 1;
    }
    proof {
        assert(flags_view(flags@) =~= spec_update_flags(flags_view(old(flags)@), tags.deep_view()));
    }
}

/// The file-backed tag-record strategies: text records and JSON annotation
/// documents.
pub struct TxtDB {}

impl TxtDB {
    /// A handle for the file-backed strategies.
    pub fn new() -> (r: TxtDB) {
        TxtDB {  }
    }

    /// Parses the contents of a text record: one checked tag per non-empty
    /// line, in file order.
    pub fn load_tags(contents: &str) -> (r: Vec<String>)
        ensures
            r.deep_view() == spec_text_tags(contents@),
    {
        proof {
            reveal_strlit("\n");
            assert("\n"@ =~= seq!['\n']);
        }
        let pieces = split_str(contents, "\n");
        let ghost pv = pieces.deep_view();
        let mut r: Vec<String> = Vec::new();
        let mut i: usize = 0;
        proof {
            assert(pv.take(0) =~= Seq::<Seq<char>>::empty());
        }
        while i < pieces.len()
            invariant
                i <= pieces.len(),
                pv == pieces.deep_view(),
                r.deep_view() == pv.take(i as int).filter(|t: Seq<char>| t.len() > 0),
            decreases pieces.len() - i,
        {
            let ghost old_r = r.deep_view();
            let keep = !pieces[i].as_str().is_empty();
            if keep {
                let p = pieces[i].clone();
                r.push(p);
            }
            proof {
                let pred = |t: Seq<char>| t.len() > 0;
                assert(pv.take(i + 1) =~= pv.take(i as int).push(pv[i as int]));
                assert(pv.take(i + 1).drop_last() =~= pv.take(i as int));
                assert(pv.take(i + 1).last() == pv[i as int]);
                reveal_with_fuel(Seq::filter, 2);
                assert(pv.take(i + 1).filter(pred) == if pred(pv[i as int]) {
                    pv.take(i as int).filter(pred).push(pv[i as int])
                } else {
                    pv.take(i as int).filter(pred)
                });
                if keep {
                    assert(r.deep_view() =~= old_r.push(pv[i as int]));
                }
            }
            i = i + 1;
        }
        proof {
            assert(pv.take(pieces.len() as int) =~= pv);
        }
        r
    }

    /// Reads the checked tags out of a JSON document's flags: the labels
    /// whose flag is set, in document order.
    pub fn load_json(flags: &Vec<(String, bool)>) -> (r: Vec<String>)
        ensures
            r.deep_view() == spec_true_labels(flags_view(flags@)),
    {
        let ghost fv = flags_view(flags@);
        let mut r: Vec<String> = Vec::new();
        let mut i: usize = 0;
        proof {
            assert(fv.take(0) =~= Seq::<(Seq<char>, bool)>::empty());
        }
        while i < flags.len()
            invariant
                i <= flags.len(),
                fv == flags_view(flags@),
                fv.len() == flags@.len(),
                r.deep_view() == spec_true_labels(fv.take(i as int)),
            decreases flags.len() - i,
        {
            let ghost old_r = r.deep_view();
            if flags[i].1 {
                let lab = flags[i].0.clone();
                r.push(lab);
            }
            proof {
                let pred = |f: (Seq<char>, bool)| f.1;
                let proj = |f: (Seq<char>, bool)| f.0;
                assert(fv.take(i + 1) =~= fv.take(i as int).push(fv[i as int]));
                assert(fv.take(i + 1).drop_last() =~= fv.take(i as int));
                assert(fv.take(i + 1).last() == fv[i as int]);
                reveal_with_fuel(Seq::filter, 2);
                assert(fv.take(i + 1).filter(pred) == if pred(fv[i as int]) {
                    fv.take(i as int).filter(pred).push(fv[i as int])
                } else {
                    fv.take(i as int).filter(pred)
                });
                if fv[i as int].1 {
                    assert(fv.take(i as int).filter(pred).push(fv[i as int]).map_values(proj)
                        =~= fv.take(i as int).filter(pred).map_values(proj).push(fv[i as int].0));
                    assert(r.deep_view() =~= old_r.push(fv[i as int].0));
                }
            }
            i = i + 1;
        }
        proof {
            assert(fv.take(flags.len() as int) =~= fv);
        }
        r
    }

    /// Decides how a tag update to `item` is persisted. A record with the
    /// text extension is overwritten whole, with the tags newline-joined;
    /// any other record is a JSON document whose flags are rewritten in
    /// place. The caller performs the write, and only then replaces the
    /// item's in-memory tags.
    pub fn update_tags(&self, item: &DBItem, tags: &Vec<String>) -> (a: UpdateAction)
        requires
            spec_ext(item@.tag_path).len() > 0,
        ensures
            spec_ext(item@.tag_path) == txt_ext() ==> (a matches UpdateAction::WriteText {
                path,
                contents,
            } && path@ == item@.tag_path && contents@ == spec_text_contents(tags.deep_view())),
            spec_ext(item@.tag_path) != txt_ext() ==> (a matches UpdateAction::RewriteJson { path }
                && path@ == item@.tag_path),
    {
        proof {
            reveal_strlit("txt");
            assert("txt"@ =~= txt_ext());
            reveal_strlit("\n");
            assert("\n"@ =~= seq!['\n']);
        }
        if has_ext(item.tag_path.as_str(), "txt") {
            let contents = join_strs(tags, "\n");
            UpdateAction::WriteText { path: item.tag_path.clone(), contents }
        } else {
            UpdateAction::RewriteJson { path: item.tag_path.clone() }
        }
    }
}

impl DBItem {
    /// Replaces the in-memory checked tags. Everything else about the item
    /// is unchanged.
    pub fn set_tags(&mut self, tags: Vec<String>)
        ensures
            final(self)@ == (ItemV { tags: tags.deep_view(), ..old(self)@ }),
    {
        self.checked_tags = tags;
    }
}

/// The view of the index entry built for one image file: the file name
/// itself as the display name, the file's name under the public image root
/// as the served path, the record location derived from the name and the
/// record kind, and the checked tags read from the record.
pub open spec fn spec_new_item(name: Seq<char>, tag_dir: Seq<char>, rec: TagRecordV) -> ItemV {
    ItemV {
        name: name,
        path: spec_path_join(spec_image_root(), name),
        tag_path: spec_path_join(
            tag_dir,
            spec_with_ext(
                name,
                match rec {
                    TagRecordV::Json(_) => json_ext(),
                    _ => txt_ext(),
                },
            ),
        ),
        tags: match rec {
            TagRecordV::Text(c) => spec_text_tags(c),
            TagRecordV::Json(fs) => spec_true_labels(fs),
            TagRecordV::Missing => Seq::empty(),
        },
    }
}

impl TxtDB {
    /// Builds the index entry for one image file from its name and the
    /// contents found at its tag-record location. A text record gives its
    /// non-empty lines; a JSON document gives the labels whose flag is set;
    /// a missing record gives no tags, and the record location keeps the
    /// text extension so that a later update writes a text record.
    pub fn new_item(image_file_name: &str, tag_dir: &str, record: &TagRecord) -> (r: DBItem)
        ensures
            r@ == spec_new_item(image_file_name@, tag_dir@, record@),
    {
        proof {
            reveal_strlit("txt");
            reveal_strlit("json");
            reveal_strlit("/images");
            assert("txt"@ =~= txt_ext());
            assert("json"@ =~= json_ext());
            assert("/images"@ =~= spec_image_root());
        }
        let image_name = String::from_str(image_file_name);
        let image_path = path_join("/images", image_file_name);
        let ext = match record {
            TagRecord::Json(_) => "json",
            _ => "txt",
        };
        let tag_path = path_join(tag_dir, with_extension(image_file_name, ext).as_str());
        let checked_tags = match record {
            TagRecord::Text(c) => Self::load_tags(c.as_str()),
            TagRecord::Json(fs) => Self::load_json(fs),
            TagRecord::Missing => Vec::new(),
        };
        proof {
            if record@ is Missing {
                assert(checked_tags.deep_view() =~= Seq::<Seq<char>>::empty());
            }
        }
        DBItem { image_name, image_path, tag_path, checked_tags }
    }
}

} // verus!
