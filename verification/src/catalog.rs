//! The computing part of a font catalogue: which font files to drop from and
//! add to the catalogue, which files are font files, and which family names
//! a font file declares.
use vstd::prelude::*;
use crate::font_set::string_views;
use crate::text::{ascii_lower_code, chars_of, eq_ignore_ascii_case, eq_ignore_ascii_case_chars};

verus! {

/// Whether `v` holds a string with the text `s`.
fn holds_string(v: &Vec<String>, s: &String) -> (r: bool)
    ensures
        r == string_views(v@).contains(s@),
{
    let mut i: usize = 0;
    while i < v.len()
        invariant
            i <= v.len(),
            forall|j: int| 0 <= j < i ==> v@[j]@ != s@,
        decreases v.len() - i,
    {
        if v[i] == *s {
            assert(string_views(v@)[i as int] == s@);
            return true;
        }
        i += 1;
    }
    proof {
        if string_views(v@).contains(s@) {
            let j = choose|j: int| 0 <= j < string_views(v@).len() && string_views(v@)[j] == s@;
            assert(v@[j]@ == s@);
        }
    }
    false
}

/// What tells one state of a font file from another: its size and the time
/// it was last modified (in nanoseconds since the Unix epoch).
#[derive(Clone, Copy, Debug, PartialEq, Eq, Structural)]
pub struct FileStamp {
    pub size: i64,
    pub modified_nanos: i64,
}

/// A font file as the catalogue records it: its path and its stamp.
#[derive(Debug)]
pub struct CatalogEntry {
    pub path: String,
    pub stamp: FileStamp,
}

impl View for CatalogEntry {
    type V = (Seq<char>, FileStamp);

    open spec fn view(&self) -> (Seq<char>, FileStamp) {
        (self.path@, self.stamp)
    }
}

impl CatalogEntry {
    /// A copy of the entry.
    pub fn duplicate(&self) -> (r: CatalogEntry)
        ensures
            r@ == self@,
    {
        CatalogEntry { path: self.path.clone(), stamp: self.stamp }
    }
}

/// The views of a sequence of entries.
pub open spec fn entry_views(v: Seq<CatalogEntry>) -> Seq<(Seq<char>, FileStamp)> {
    v.map_values(|e: CatalogEntry| e@)
}

/// Whether `v` holds an entry equal to `e` (same path, same stamp).
fn holds_entry(v: &Vec<CatalogEntry>, e: &CatalogEntry) -> (r: bool)
    ensures
        r == entry_views(v@).contains(e@),
{
    let mut i: usize = 0;
    while i < v.len()
        invariant
            i <= v.len(),
            forall|j: int| 0 <= j < i ==> v@[j]@ != e@,
        decreases v.len() - i,
    {
        if v[i].path == e.path && v[i].stamp == e.stamp {
            assert(entry_views(v@)[i as int] == e@);
            return true;
        }
        i += 1;
    }
    proof {
        if entry_views(v@).contains(e@) {
            let j = choose|j: int| 0 <= j < entry_views(v@).len() && entry_views(v@)[j] == e@;
            assert(v@[j]@ == e@);
        }
    }
    false
}

/// `out` holds, once each, the items that `a` holds and `b` does not.
pub open spec fn lists_difference<A>(out: Seq<A>, a: Seq<A>, b: Seq<A>) -> bool {
    &&& out.no_duplicates()
    &&& forall|x: A| #[trigger] out.contains(x) <==> (a.contains(x) && !b.contains(x))
}

/// The entries of `a` that `b` does not hold, once each, in the order in
/// which they first occur in `a`.
pub fn difference(a: &Vec<CatalogEntry>, b: &Vec<CatalogEntry>) -> (r: Vec<CatalogEntry>)
    ensures
        lists_difference(entry_views(r@), entry_views(a@), entry_views(b@)),
{
    let ghost av = entry_views(a@);
    let ghost bv = entry_views(b@);
    let mut r: Vec<CatalogEntry> = Vec::new();
    let mut i: usize = 0;
    while i < a.len()
        invariant
            i <= a.len(),
            av == entry_views(a@),
            bv == entry_views(b@),
            entry_views(r@).no_duplicates(),
            forall|x: (Seq<char>, FileStamp)|
                #[trigger] entry_views(r@).contains(x) <==> (av.take(i as int).contains(x)
                    && !bv.contains(x)),
        decreases a.len() - i,
    {
        let ghost before = entry_views(r@);
        let ghost x = a@[i as int]@;
        assert(av.take(i + 1) =~= av.take(i as int).push(x));
        if !holds_entry(b, &a[i]) && !holds_entry(&r, &a[i]) {
            let e = a[i].duplicate();
            r.push(e);
            assert(entry_views(r@) =~= before.push(x));
            assert(entry_views(r@)[before.len() as int] == x);
            assert(av.take(i + 1)[i as int] == x);
            assert forall|y: (Seq<char>, FileStamp)| #[trigger] entry_views(r@).contains(y) <==> (
            av.take(i + 1).contains(y) && !bv.contains(y)) by {
                if av.take(i + 1).contains(y) && y != x {
                    let j = choose|j: int| 0 <= j < i + 1 && #[trigger] av.take(i + 1)[j] == y;
                    assert(av.take(i as int)[j] == y);
                }
                if entry_views(r@).contains(y) && y != x {
                    let j = choose|j: int|
                        0 <= j < entry_views(r@).len() && #[trigger] entry_views(r@)[j] == y;
                    assert(before[j] == y);
                }
                if before.contains(y) {
                    let j = choose|j: int| 0 <= j < before.len() && #[trigger] before[j] == y;
                    assert(entry_views(r@)[j] == y);
                }
                if av.take(i as int).contains(y) {
                    let j = choose|j: int| 0 <= j < i && #[trigger] av.take(i as int)[j] == y;
                    assert(av.take(i + 1)[j] == y);
                }
            }
        } else {
            assert forall|y: (Seq<char>, FileStamp)| #[trigger] entry_views(r@).contains(y) <==> (
            av.take(i + 1).contains(y) && !bv.contains(y)) by {
                if av.take(i + 1).contains(y) && y != x {
                    let j = choose|j: int| 0 <= j < i + 1 && #[trigger] av.take(i + 1)[j] == y;
                    assert(av.take(i as int)[j] == y);
                }
                if av.take(i as int).contains(y) {
                    let j = choose|j: int| 0 <= j < i && #[trigger] av.take(i as int)[j] == y;
                    assert(av.take(i + 1)[j] == y);
                }
            }
        }
        i += 1;
    }
    assert(av.take(a.len() as int) =~= av);
    r
}

/// What the catalogue must do to match the disk.
pub struct SyncPlan {
    /// Entries of the catalogue that no file on disk matches any more: the
    /// file is gone, or it was modified since it was recorded.
    pub to_delete: Vec<CatalogEntry>,
    /// Files on disk that the catalogue does not hold as they are now: new
    /// files, and modified ones, which are parsed again.
    pub to_add: Vec<CatalogEntry>,
}

/// `to_delete` and `to_add` are what it takes to bring the catalogue `db`
/// to the files on `disk`, a file being known by its path and its stamp.
pub open spec fn is_sync_plan(
    db: Seq<(Seq<char>, FileStamp)>,
    disk: Seq<(Seq<char>, FileStamp)>,
    to_delete: Seq<(Seq<char>, FileStamp)>,
    to_add: Seq<(Seq<char>, FileStamp)>,
) -> bool {
    &&& lists_difference(to_delete, db, disk)
    &&& lists_difference(to_add, disk, db)
}

/// The entries to drop from the catalogue (recorded there, but no file on
/// disk has that path and stamp) and to add to it (a file on disk that the
/// catalogue does not record with its current stamp), each once. So new and
/// modified files are parsed, and unchanged ones are not.
pub fn plan_sync(db: &Vec<CatalogEntry>, disk: &Vec<CatalogEntry>) -> (plan: SyncPlan)
    ensures
        is_sync_plan(
            entry_views(db@),
            entry_views(disk@),
            entry_views(plan.to_delete@),
            entry_views(plan.to_add@),
        ),
{
    SyncPlan { to_delete: difference(db, disk), to_add: difference(disk, db) }
}

/// Once a sync plan is carried out, the catalogue holds exactly the files on
/// disk, each with its current stamp, and no entry is both dropped and
/// added.
pub proof fn law_sync_reaches_disk(
    db: Seq<(Seq<char>, FileStamp)>,
    disk: Seq<(Seq<char>, FileStamp)>,
    to_delete: Seq<(Seq<char>, FileStamp)>,
    to_add: Seq<(Seq<char>, FileStamp)>,
)
    requires
        is_sync_plan(db, disk, to_delete, to_add),
    ensures
        forall|x: (Seq<char>, FileStamp)|
            ((db.contains(x) && !to_delete.contains(x)) || to_add.contains(x)) <==> #[trigger] disk.contains(x),
        forall|x: (Seq<char>, FileStamp)| !(#[trigger] to_delete.contains(x) && to_add.contains(x)),
{
    assert forall|x: (Seq<char>, FileStamp)|
        ((db.contains(x) && !to_delete.contains(x)) || to_add.contains(x)) <==> #[trigger] disk.contains(x) by {
        assert(to_delete.contains(x) <==> (db.contains(x) && !disk.contains(x)));
        assert(to_add.contains(x) <==> (disk.contains(x) && !db.contains(x)));
    }
    assert forall|x: (Seq<char>, FileStamp)| !(#[trigger] to_delete.contains(x) && to_add.contains(x)) by {
        assert(to_delete.contains(x) <==> (db.contains(x) && !disk.contains(x)));
        assert(to_add.contains(x) <==> (disk.contains(x) && !db.contains(x)));
    }
}

/// No path occurs twice among `entries` (a catalogue records each path
/// once, and a directory walk meets each file once).
pub open spec fn paths_once(entries: Seq<(Seq<char>, FileStamp)>) -> bool {
    forall|i: int, j: int|
        0 <= i < entries.len() && 0 <= j < entries.len() && i != j ==> entries[i].0 != entries[j].0
}

/// A file that was modified at a path the catalogue records (its stamp on
/// disk differs from the recorded one) is parsed again: its old entry is
/// dropped and its current one added.
pub proof fn law_modified_files_are_reparsed(
    db: Seq<(Seq<char>, FileStamp)>,
    disk: Seq<(Seq<char>, FileStamp)>,
    to_delete: Seq<(Seq<char>, FileStamp)>,
    to_add: Seq<(Seq<char>, FileStamp)>,
    path: Seq<char>,
    recorded: FileStamp,
    current: FileStamp,
)
    requires
        is_sync_plan(db, disk, to_delete, to_add),
        paths_once(db),
        paths_once(disk),
        db.contains((path, recorded)),
        disk.contains((path, current)),
        recorded != current,
    ensures
        to_add.contains((path, current)),
        to_delete.contains((path, recorded)),
{
    if disk.contains((path, recorded)) {
        let i = choose|i: int| 0 <= i < disk.len() && disk[i] == (path, recorded);
        let j = choose|j: int| 0 <= j < disk.len() && disk[j] == (path, current);
        assert(disk[i].0 == disk[j].0);
    }
    if db.contains((path, current)) {
        let i = choose|i: int| 0 <= i < db.len() && db[i] == (path, recorded);
        let j = choose|j: int| 0 <= j < db.len() && db[j] == (path, current);
        assert(db[i].0 == db[j].0);
    }
    assert(to_add.contains((path, current)) <==> (disk.contains((path, current)) && !db.contains(
        (path, current),
    )));
    assert(to_delete.contains((path, recorded)) <==> (db.contains((path, recorded))
        && !disk.contains((path, recorded))));
}

/// A file whose path and stamp the catalogue records as they are on disk
/// is neither dropped nor parsed again.
pub proof fn law_unchanged_files_are_kept(
    db: Seq<(Seq<char>, FileStamp)>,
    disk: Seq<(Seq<char>, FileStamp)>,
    to_delete: Seq<(Seq<char>, FileStamp)>,
    to_add: Seq<(Seq<char>, FileStamp)>,
    entry: (Seq<char>, FileStamp),
)
    requires
        is_sync_plan(db, disk, to_delete, to_add),
        db.contains(entry),
        disk.contains(entry),
    ensures
        !to_add.contains(entry),
        !to_delete.contains(entry),
{
    assert(to_add.contains(entry) <==> (disk.contains(entry) && !db.contains(entry)));
    assert(to_delete.contains(entry) <==> (db.contains(entry) && !disk.contains(entry)));
}

/// The most paths deleted by one statement, below SQLite's limit on the
/// parameters of a statement.
pub const DELETE_BATCH_SIZE: usize = 10000;

/// The items of the batches, in order.
pub open spec fn flatten(batches: Seq<Seq<String>>) -> Seq<String>
    decreases batches.len(),
{
    if batches.len() == 0 {
        Seq::empty()
    } else {
        flatten(batches.drop_last()) + batches.last()
    }
}

/// The views of a sequence of vectors.
pub open spec fn batch_views(v: Seq<Vec<String>>) -> Seq<Seq<String>> {
    v.map_values(|b: Vec<String>| b@)
}

/// `slice::chunks(DELETE_BATCH_SIZE)`: the paths in batches of
/// `DELETE_BATCH_SIZE`, the last batch holding the rest.
pub fn delete_batches(paths: &Vec<String>) -> (r: Vec<Vec<String>>)
    ensures
        flatten(batch_views(r@)) == paths@,
        forall|i: int| 0 <= i < r@.len() ==> 0 < #[trigger] r@[i].len() <= DELETE_BATCH_SIZE,
        forall|i: int| 0 <= i < r@.len() - 1 ==> #[trigger] r@[i].len() == DELETE_BATCH_SIZE,
{
    let mut r: Vec<Vec<String>> = Vec::new();
    let mut batch: Vec<String> = Vec::new();
    let mut i: usize = 0;
    while i < paths.len()
        invariant
            i <= paths.len(),
            batch@.len() < DELETE_BATCH_SIZE,
            flatten(batch_views(r@)) + batch@ == paths@.take(i as int),
            forall|k: int| 0 <= k < r@.len() ==> #[trigger] r@[k].len() == DELETE_BATCH_SIZE,
        decreases paths.len() - i,
    {
        let ghost before = flatten(batch_views(r@));
        batch.push(paths[i].clone());
        assert(paths@.take(i + 1) =~= paths@.take(i as int).push(paths@[i as int]));
        assert(before + batch@ =~= paths@.take(i + 1));
        if batch.len() == DELETE_BATCH_SIZE {
            let ghost full = batch@;
            let ghost old_r = r@;
            let mut next: Vec<String> = Vec::new();
            std::mem::swap(&mut next, &mut batch);
            r.push(next);
            assert(batch_views(r@).drop_last() =~= batch_views(old_r));
            assert(batch_views(r@).last() == full);
            assert(flatten(batch_views(r@)) =~= before + full);
            assert(flatten(batch_views(r@)) + batch@ =~= paths@.take(i + 1));
        }
        i += 1;
    }
    assert(paths@.take(paths.len() as int) =~= paths@);
    if batch.len() > 0 {
        let ghost before = flatten(batch_views(r@));
        let ghost last = batch@;
        let ghost old_r = r@;
        r.push(batch);
        assert(batch_views(r@).drop_last() =~= batch_views(old_r));
        assert(batch_views(r@).last() == last);
        assert(flatten(batch_views(r@)) =~= before + last);
    } else {
        assert(flatten(batch_views(r@)) + batch@ =~= flatten(batch_views(r@)));
    }
    r
}

/// Which extensions font files have: `ttf`, `otf` and `ttc`, in any ASCII
/// case.
pub open spec fn is_font_extension_text(ext: Seq<char>) -> bool {
    eq_ignore_ascii_case(ext, "ttf"@) || eq_ignore_ascii_case(ext, "otf"@)
        || eq_ignore_ascii_case(ext, "ttc"@)
}

/// The font-file extensions are exactly the three-letter texts `ttf`,
/// `otf` and `ttc`, each letter in either case.
pub proof fn law_font_extensions(ext: Seq<char>)
    ensures
        is_font_extension_text(ext) <==> ext.len() == 3 && (((ext[0] == 't' || ext[0] == 'T') && (
        ext[1] == 't' || ext[1] == 'T') && (ext[2] == 'f' || ext[2] == 'F')) || ((ext[0] == 'o'
            || ext[0] == 'O') && (ext[1] == 't' || ext[1] == 'T') && (ext[2] == 'f' || ext[2]
            == 'F')) || ((ext[0] == 't' || ext[0] == 'T') && (ext[1] == 't' || ext[1] == 'T') && (
        ext[2] == 'c' || ext[2] == 'C'))),
{
    reveal_strlit("ttf");
    reveal_strlit("otf");
    reveal_strlit("ttc");
    if ext.len() == 3 {
        lemma_lower_is(ext[0]);
        lemma_lower_is(ext[1]);
        lemma_lower_is(ext[2]);
        assert(eq_ignore_ascii_case(ext, "ttf"@) <==> (ascii_lower_code(ext[0]) == 0x74
            && ascii_lower_code(ext[1]) == 0x74 && ascii_lower_code(ext[2]) == 0x66));
        assert(eq_ignore_ascii_case(ext, "otf"@) <==> (ascii_lower_code(ext[0]) == 0x6F
            && ascii_lower_code(ext[1]) == 0x74 && ascii_lower_code(ext[2]) == 0x66));
        assert(eq_ignore_ascii_case(ext, "ttc"@) <==> (ascii_lower_code(ext[0]) == 0x74
            && ascii_lower_code(ext[1]) == 0x74 && ascii_lower_code(ext[2]) == 0x63));
    }
}

/// Which chars lower to the letters of the font extensions.
proof fn lemma_lower_is(c: char)
    ensures
        ascii_lower_code(c) == 0x74 <==> (c == 't' || c == 'T'),
        ascii_lower_code(c) == 0x66 <==> (c == 'f' || c == 'F'),
        ascii_lower_code(c) == 0x6F <==> (c == 'o' || c == 'O'),
        ascii_lower_code(c) == 0x63 <==> (c == 'c' || c == 'C'),
{
}

/// Whether `ext` is the extension of a font file.
pub fn is_font_extension(ext: &str) -> (r: bool)
    ensures
        r == is_font_extension_text(ext@),
{
    let e = chars_of(ext);
    eq_ignore_ascii_case_chars(&e, &chars_of("ttf")) || eq_ignore_ascii_case_chars(
        &e,
        &chars_of("otf"),
    ) || eq_ignore_ascii_case_chars(&e, &chars_of("ttc"))
}

/// The extension of a path as `camino::Utf8Path::extension` gives it.
pub uninterp spec fn path_extension(path: Seq<char>) -> Option<Seq<char>>;

/// `camino::Utf8Path::extension`. Claimed: the answer is `path_extension`
/// of the path's text.
#[verifier::external_body]
fn extension_of(path: &str) -> (r: Option<String>)
    ensures
        r matches Some(e) ==> path_extension(path@) == Some(e@),
        r is None ==> path_extension(path@) is None,
{
    match camino::Utf8Path::new(path).extension() {
        Some(e) => Some(e.to_owned()),
        None => None,
    }
}

/// Whether the file at `path` is a font file, by its extension.
pub fn is_font_path(path: &str) -> (r: bool)
    ensures
        r == match path_extension(path@) {
            Some(e) => is_font_extension_text(e),
            None => false,
        },
{
    match extension_of(path) {
        Some(e) => is_font_extension(e.as_str()),
        None => false,
    }
}


/// The number of faces that a font collection (TrueType/OpenType `ttcf`
/// file) declares in its header; `None` when `data` is not a collection.
pub open spec fn collection_size(data: Seq<u8>) -> Option<u32> {
    if data.len() >= 12 && data[0] == 0x74u8 && data[1] == 0x74u8 && data[2] == 0x63u8 && data[3]
        == 0x66u8 {
        Some(
            ((data[8] as int) * 0x1000000 + (data[9] as int) * 0x10000 + (data[10] as int) * 0x100
                + (data[11] as int)) as u32,
        )
    } else {
        None
    }
}

/// `ttf_parser::fonts_in_collection`. Claimed: a collection is recognised
/// by its `ttcf` tag, and its face count is the big-endian `u32` at bytes 8
/// to 11; anything else gives `None`.
#[verifier::external_body]
fn fonts_in_collection(data: &[u8]) -> (r: Option<u32>)
    ensures
        r == collection_size(data@),
{
    ttf_parser::fonts_in_collection(data)
}

/// An entry of the `name` table of a font face: its name id, and its text
/// when the entry is Unicode-encoded and decodes.
pub struct NameRecord {
    pub name_id: u16,
    pub text: Option<String>,
}

/// The plain value of a name entry.
pub open spec fn record_view(r: NameRecord) -> (u16, Option<Seq<char>>) {
    (
        r.name_id,
        match r.text {
            Some(t) => Some(t@),
            None => None,
        },
    )
}

/// The entries of the `name` table of face `index` of the font file `data`,
/// as `ttf_parser` reads them; `None` when the face does not parse.
pub uninterp spec fn face_name_table(data: Seq<u8>, index: u32) -> Option<
    Seq<(u16, Option<Seq<char>>)>,
>;

/// `ttf_parser::Face::parse`, read through `Face::names` with each
/// `Name::to_string`. Claimed: the entries, converted one for one, are
/// `face_name_table` of the data and the index.
#[verifier::external_body]
fn face_names(data: &[u8], index: u32) -> (r: Option<Vec<NameRecord>>)
    ensures
        r matches Some(v) ==> face_name_table(data@, index) == Some(
            v@.map_values(|n: NameRecord| record_view(n)),
        ),
        r is None ==> face_name_table(data@, index) is None,
{
    let face = ttf_parser::Face::parse(data, index).ok()?;
    let mut out = Vec::new();
    for name in face.names() {
        out.push(NameRecord { name_id: name.name_id, text: name.to_string() });
    }
    Some(out)
}

/// The name id of a font's family name.
pub const FAMILY_NAME_ID: u16 = 1;

/// Whether the entries declare `name` as a family name.
pub open spec fn declares_family(table: Seq<(u16, Option<Seq<char>>)>, name: Seq<char>) -> bool {
    exists|k: int| 0 <= k < table.len() && #[trigger] table[k] == (FAMILY_NAME_ID, Some(name))
}

/// Only the records of name id 1 (the family name) declare families: an
/// empty table declares none; a record of another id, or without text, or
/// with another text, changes nothing in whether `name` is declared; and a
/// family record whose text is `name` declares it.
pub proof fn law_only_family_records_declare(
    table: Seq<(u16, Option<Seq<char>>)>,
    id: u16,
    text: Option<Seq<char>>,
    name: Seq<char>,
)
    ensures
        !declares_family(Seq::<(u16, Option<Seq<char>>)>::empty(), name),
        (id != 1u16 || text != Some(name)) ==> (declares_family(table.push((id, text)), name)
            == declares_family(table, name)),
        declares_family(table.push((1u16, Some(name))), name),
{
    let t = table.push((id, text));
    if declares_family(table, name) {
        let k = choose|k: int| 0 <= k < table.len() && #[trigger] table[k] == (FAMILY_NAME_ID, Some(name));
        assert(t[k] == table[k]);
    }
    if (id != 1u16 || text != Some(name)) && declares_family(t, name) {
        let k = choose|k: int| 0 <= k < t.len() && #[trigger] t[k] == (FAMILY_NAME_ID, Some(name));
        assert(k < table.len());
        assert(table[k] == t[k]);
    }
    let u = table.push((1u16, Some(name)));
    assert(u[table.len() as int] == (FAMILY_NAME_ID, Some(name)));
}

/// How many faces are read from the font file `data`: those of the
/// collection, or one.
pub open spec fn faces_to_read(data: Seq<u8>) -> u32 {
    match collection_size(data) {
        Some(n) => n,
        None => 1,
    }
}

/// Whether face `index` of `data` parses and declares `name` as its family.
pub open spec fn face_declares(data: Seq<u8>, index: u32, name: Seq<char>) -> bool {
    face_name_table(data, index) matches Some(table) && declares_family(table, name)
}

/// Whether a face of the font file `data` declares `name` as its family.
pub open spec fn is_family_name(data: Seq<u8>, name: Seq<char>) -> bool {
    exists|index: u32| index < faces_to_read(data) && #[trigger] face_declares(data, index, name)
}

/// Adds to `found` the family names that `records` declare, keeping each
/// name once.
pub fn collect_family_names(found: &mut Vec<String>, records: &Vec<NameRecord>)
    requires
        string_views(old(found)@).no_duplicates(),
    ensures
        string_views(final(found)@).no_duplicates(),
        forall|x: Seq<char>|
            #[trigger] string_views(final(found)@).contains(x) <==> (string_views(
                old(found)@,
            ).contains(x) || declares_family(
                records@.map_values(|n: NameRecord| record_view(n)),
                x,
            )),
{
    let ghost table = records@.map_values(|n: NameRecord| record_view(n));
    let ghost start = string_views(found@);
    let mut i: usize = 0;
    while i < records.len()
        invariant
            i <= records.len(),
            table == records@.map_values(|n: NameRecord| record_view(n)),
            string_views(found@).no_duplicates(),
            forall|x: Seq<char>|
                #[trigger] string_views(found@).contains(x) <==> (start.contains(x)
                    || declares_family(table.take(i as int), x)),
        decreases records.len() - i,
    {
        let ghost before = string_views(found@);
        assert(table.take(i + 1) =~= table.take(i as int).push(table[i as int]));
        assert(table[i as int] == record_view(records@[i as int]));
        if records[i].name_id == FAMILY_NAME_ID {
            match &records[i].text {
                Some(t) => {
                    if !holds_string(found, t) {
                        found.push(t.clone());
                        assert(string_views(found@) =~= before.push(t@));
                        assert(string_views(found@)[before.len() as int] == t@);
                    }
                },
                None => {},
            }
        }
        assert forall|x: Seq<char>| #[trigger] string_views(found@).contains(x) <==> (
        start.contains(x) || declares_family(table.take(i + 1), x)) by {
            if declares_family(table.take(i + 1), x) {
                let k = choose|k: int|
                    0 <= k < table.take(i + 1).len() && #[trigger] table.take(i + 1)[k] == (
                    FAMILY_NAME_ID, Some(x));
                if k < i {
                    assert(table.take(i as int)[k] == table.take(i + 1)[k]);
                } else {
                    assert(table[i as int] == (FAMILY_NAME_ID, Some(x)));
                    assert(before.contains(x) || string_views(found@)[before.len() as int]
                        == x);
                }
            }
            if declares_family(table.take(i as int), x) {
                let k = choose|k: int|
                    0 <= k < table.take(i as int).len() && #[trigger] table.take(i as int)[k]
                        == (FAMILY_NAME_ID, Some(x));
                assert(table.take(i + 1)[k] == table.take(i as int)[k]);
            }
            if before.contains(x) {
                let k = choose|k: int| 0 <= k < before.len() && #[trigger] before[k] == x;
                assert(string_views(found@)[k] == x);
            }
            if string_views(found@).contains(x) && !before.contains(x) {
                let k = choose|k: int|
                    0 <= k < string_views(found@).len() && #[trigger] string_views(found@)[k]
                        == x;
                assert(k == before.len());
                assert(table.take(i + 1)[i as int] == (FAMILY_NAME_ID, Some(x)));
            }
        }
        i += 1;
    }
    assert(table.take(records.len() as int) =~= table);
}

/// The family names that the faces of the font file `font_data` declare,
/// each once: every face of a collection is read, or the one face of a
/// plain font file; faces that do not parse are skipped.
pub fn get_font_family_names(font_data: &[u8]) -> (r: Vec<String>)
    ensures
        string_views(r@).no_duplicates(),
        forall|x: Seq<char>| #[trigger] string_views(r@).contains(x) <==> is_family_name(font_data@, x),
{
    let count = match fonts_in_collection(font_data) {
        Some(n) => n,
        None => 1,
    };
    let mut found: Vec<String> = Vec::new();
    let mut index: u32 = 0;
    while index < count
        invariant
            index <= count,
            count == faces_to_read(font_data@),
            string_views(found@).no_duplicates(),
            forall|x: Seq<char>|
                #[trigger] string_views(found@).contains(x) <==> exists|j: u32|
                    j < index && #[trigger] face_declares(font_data@, j, x),
        decreases count - index,
    {
        let ghost before = string_views(found@);
        match face_names(font_data, index) {
            Some(records) => {
                collect_family_names(&mut found, &records);
            },
            None => {},
        }
        assert forall|x: Seq<char>| #[trigger] string_views(found@).contains(x) <==> exists|j: u32|
            j < index + 1 && #[trigger] face_declares(font_data@, j, x) by {
            if exists|j: u32| j < index + 1 && #[trigger] face_declares(font_data@, j, x) {
                let j = choose|j: u32| j < index + 1 && #[trigger] face_declares(font_data@, j, x);
                if j < index {
                    assert(before.contains(x));
                }
            }
            if string_views(found@).contains(x) && !before.contains(x) {
                assert(face_declares(font_data@, index, x));
            }
        }
        index += 1;
    }
    found
}

} // verus!
