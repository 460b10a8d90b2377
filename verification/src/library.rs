//! The catalogue of libraries and the per-library content metadata.
use vstd::prelude::*;

use crate::outside::{local_today, uuid_v4_string};
use crate::keyed::{KeyedList, entries_insert, has_key, keys_distinct};
use crate::text::is_uuid_v4_text;

verus! {

/// A calendar date.
#[derive(Clone, Copy, Debug, PartialEq, Eq, Structural)]
pub struct Date {
    pub year: i32,
    pub month: u32,
    pub day: u32,
}

/// Gregorian leap year.
pub open spec fn is_leap_year(year: int) -> bool {
    (year % 4 == 0 && year % 100 != 0) || year % 400 == 0
}

/// Number of days of `month` (1 to 12) in `year`.
pub open spec fn days_in_month(year: int, month: int) -> int {
    if month == 2 {
        if is_leap_year(year) { 29 } else { 28 }
    } else if month == 4 || month == 6 || month == 9 || month == 11 {
        30
    } else {
        31
    }
}

/// `d` names a day of the proleptic Gregorian calendar.
pub open spec fn is_valid_date(d: Date) -> bool {
    1 <= d.month <= 12 && 1 <= d.day <= days_in_month(d.year as int, d.month as int)
}

} // verus!

verus! {

/// A library: a directory of archives registered in the catalogue.
pub struct Library {
    pub id: String,
    pub name: String,
    pub path: String,
}

/// The plain value of a `Library`.
pub struct LibraryView {
    pub id: Seq<char>,
    pub name: Seq<char>,
    pub path: Seq<char>,
}

impl View for Library {
    type V = LibraryView;

    open spec fn view(&self) -> LibraryView {
        LibraryView { id: self.id@, name: self.name@, path: self.path@ }
    }
}

impl Library {
    pub fn new(id: String, name: String, path: String) -> (res: Self)
        ensures
            res.id == id,
            res.name == name,
            res.path == path,
    {
        Library { id, name, path }
    }
}

/// The views of a sequence of libraries.
pub open spec fn library_views(s: Seq<Library>) -> Seq<LibraryView> {
    s.map_values(|l: Library| l@)
}

/// The libraries of `s` whose path is not `path`, in their order.
pub open spec fn without_path(s: Seq<LibraryView>, path: Seq<char>) -> Seq<LibraryView> {
    s.filter(|l: LibraryView| l.path != path)
}

/// The catalogue of libraries.
pub struct LibraryInfo {
    pub library_lists: Vec<Library>,
}

impl View for LibraryInfo {
    type V = Seq<LibraryView>;

    open spec fn view(&self) -> Seq<LibraryView> {
        library_views(self.library_lists@)
    }
}

impl LibraryInfo {
    /// An empty catalogue.
    pub fn new() -> (res: Self)
        ensures
            res.library_lists@ == Seq::<Library>::empty(),
    {
        LibraryInfo { library_lists: Vec::new() }
    }

    /// Appends a new library with the given name and path under a fresh
    /// random id, and returns the id.
    pub fn register(&mut self, name: String, path: String) -> (id: String)
        ensures
            is_uuid_v4_text(id@),
            final(self)@ == old(self)@.push(LibraryView { id: id@, name: name@, path: path@ }),
    {
        let id = uuid_v4_string();
        let library = Library::new(id.clone(), name, path);
        self.library_lists.push(library);
        proof {
            assert(final(self)@ =~= old(self)@.push(LibraryView { id: id@, name: name@, path: path@ }));
        }
        id
    }

    /// Drops every library whose path is `path`, keeping the others in order.
    pub fn remove_path(&mut self, path: &String)
        ensures
            final(self)@ == without_path(old(self)@, path@),
    {
        let ghost orig = self@;
        let mut kept: Vec<Library> = Vec::new();
        let n = self.library_lists.len();
        let mut i: usize = 0;
        while i < n
            invariant
                n == self.library_lists@.len(),
                i <= n,
                orig == self@,
                library_views(kept@) == without_path(orig.take(i as int), path@),
            decreases n - i,
        {
            let lib = &self.library_lists[i];
            let keep = !(lib.path == *path);
            proof {
                assert(orig.take(i + 1).drop_last() =~= orig.take(i as int));
                assert(orig.take(i + 1).last() == lib@);
                assert(keep == (lib@.path != path@));
                reveal_with_fuel(Seq::filter, 1);
                assert(without_path(orig.take(i + 1), path@) == if keep {
                    without_path(orig.take(i as int), path@).push(lib@)
                } else {
                    without_path(orig.take(i as int), path@)
                });
            }
            if keep {
                let l = Library::new(lib.id.clone(), lib.name.clone(), lib.path.clone());
                let ghost before = kept@;
                kept.push(l);
                proof {
                    assert(library_views(kept@) =~= library_views(before).push(l@));
                    assert(l@ == lib@);
                }
            }
            i = i + 1;
        }
        assert(orig.take(n as int) =~= orig);
        self.library_lists = kept;
    }
}

} // verus!

verus! {

/// An archive of a library that has a cover thumbnail: its id (which also
/// names the thumbnail), its file name and the day it was added.
pub struct Content {
    pub id: String,
    pub file_name: String,
    pub added: Date,
}

/// The plain value of a `Content`.
pub struct ContentView {
    pub id: Seq<char>,
    pub file_name: Seq<char>,
    pub added: Date,
}

impl View for Content {
    type V = ContentView;

    open spec fn view(&self) -> ContentView {
        ContentView { id: self.id@, file_name: self.file_name@, added: self.added }
    }
}

impl Content {
    pub fn new(id: String, file_name: String, added: Date) -> (res: Self)
        ensures
            res.id == id,
            res.file_name == file_name,
            res.added == added,
    {
        Content { id, file_name, added }
    }

    /// A copy with equal fields.
    pub fn duplicate(&self) -> (res: Self)
        ensures
            res@ == self@,
    {
        Content { id: self.id.clone(), file_name: self.file_name.clone(), added: self.added }
    }
}

/// An entry of the metadata: the key (an archive's file name) and its content.
pub type EntryView = (Seq<char>, ContentView);

/// The contents of the entries, in entry order.
pub open spec fn entries_contents(s: Seq<EntryView>) -> Seq<ContentView> {
    s.map_values(|e: EntryView| e.1)
}

/// The names of `names` that are not keys of `s`, in their order.
pub open spec fn not_yet_recorded(names: Seq<Seq<char>>, s: Seq<EntryView>) -> Seq<Seq<char>> {
    names.filter(|n: Seq<char>| !has_key(s, n))
}

/// One step of an update of the metadata: where the archive `name` got a
/// thumbnail, its content (id `id`, added on `date`) is recorded under its
/// name; otherwise nothing changes. This is what `finish_content` does.
pub open spec fn update_step(m: Seq<EntryView>, name: Seq<char>, made: bool, id: Seq<char>, date: Date) -> Seq<EntryView> {
    if made {
        entries_insert(m, name, ContentView { id, file_name: name, added: date })
    } else {
        m
    }
}

/// An update run over `targets` in order: `made` tells for each archive
/// whether its thumbnail was made, `ids` and `dates` give the id and date of
/// the step at each position.
pub open spec fn update_run(
    m: Seq<EntryView>,
    targets: Seq<Seq<char>>,
    made: spec_fn(Seq<char>) -> bool,
    ids: spec_fn(int) -> Seq<char>,
    dates: spec_fn(int) -> Date,
) -> Seq<EntryView>
    decreases targets.len(),
{
    if targets.len() == 0 {
        m
    } else {
        let i = targets.len() - 1;
        update_step(update_run(m, targets.drop_last(), made, ids, dates), targets[i], made(targets[i]), ids(i), dates(i))
    }
}

/// The views of a sequence of strings.
pub open spec fn name_views(s: Seq<String>) -> Seq<Seq<char>> {
    s.map_values(|x: String| x@)
}

/// The metadata of a library: its contents keyed by archive file name, in
/// the order they were recorded.
pub struct LibraryMetadata {
    contents: KeyedList<Content>,
}

impl View for LibraryMetadata {
    type V = Seq<EntryView>;

    closed spec fn view(&self) -> Seq<EntryView> {
        self.contents@
    }
}

impl LibraryMetadata {
    /// Empty metadata.
    pub fn new() -> (res: Self)
        ensures
            res@ == Seq::<EntryView>::empty(),
    {
        LibraryMetadata { contents: KeyedList::new() }
    }

    /// Number of recorded contents.
    pub fn len(&self) -> (n: usize)
        ensures
            n == self@.len(),
            keys_distinct(self@),
    {
        self.contents.len()
    }

    /// Whether `key` is recorded.
    pub fn contains_key(&self, key: &String) -> (res: bool)
        ensures
            res == has_key(self@, key@),
    {
        self.contents.position(key).is_some()
    }

    /// Records `content` under `key`, replacing what `key` held before.
    pub fn insert(&mut self, key: String, content: Content)
        ensures
            final(self)@ == entries_insert(old(self)@, key@, content@),
            keys_distinct(final(self)@),
    {
        self.contents.insert(key, content);
    }

    /// The recorded keys with their contents, in the order they were recorded.
    pub fn entries_list(&self) -> (res: Vec<(String, Content)>)
        ensures
            res@.map_values(|e: (String, Content)| (e.0@, e.1@)) == self@,
    {
        let mut res: Vec<(String, Content)> = Vec::new();
        let n = self.contents.len();
        let mut i: usize = 0;
        while i < n
            invariant
                n == self@.len(),
                i <= n,
                res@.len() == i,
                forall|j: int| 0 <= j < i ==> (#[trigger] res@[j].0@, res@[j].1@) == self@[j],
            decreases n - i,
        {
            let key = self.contents.key_at(i).clone();
            let content = self.contents.value_at(i).duplicate();
            res.push((key, content));
            i = i + 1;
        }
        assert(res@.map_values(|e: (String, Content)| (e.0@, e.1@)) =~= self@);
        res
    }

    /// The recorded contents, in the order they were recorded.
    pub fn contents_list(&self) -> (res: Vec<Content>)
        ensures
            res@.map_values(|c: Content| c@) == entries_contents(self@),
    {
        let mut res: Vec<Content> = Vec::new();
        let n = self.contents.len();
        let mut i: usize = 0;
        while i < n
            invariant
                n == self@.len(),
                i <= n,
                res@.len() == i,
                forall|j: int| 0 <= j < i ==> #[trigger] res@[j]@ == self@[j].1,
            decreases n - i,
        {
            res.push(self.contents.value_at(i).duplicate());
            i = i + 1;
        }
        assert(res@.map_values(|c: Content| c@) =~= entries_contents(self@));
        res
    }

    /// The archive names of `zip_files` that have no content yet, in order.
    pub fn pending_targets(&self, zip_files: &Vec<String>) -> (res: Vec<String>)
        ensures
            name_views(res@) == not_yet_recorded(name_views(zip_files@), self@),
    {
        let ghost names = name_views(zip_files@);
        let mut res: Vec<String> = Vec::new();
        let n = zip_files.len();
        let mut i: usize = 0;
        while i < n
            invariant
                n == zip_files@.len(),
                names == name_views(zip_files@),
                i <= n,
                name_views(res@) == not_yet_recorded(names.take(i as int), self@),
            decreases n - i,
        {
            let known = self.contains_key(&zip_files[i]);
            proof {
                assert(names.take(i + 1).drop_last() =~= names.take(i as int));
                assert(names.take(i + 1).last() == zip_files@[i as int]@);
                reveal_with_fuel(Seq::filter, 1);
            }
            if !known {
                let ghost before = res@;
                res.push(zip_files[i].clone());
                proof {
                    assert(name_views(res@) =~= name_views(before).push(zip_files@[i as int]@));
                }
            }
            i = i + 1;
        }
        assert(names.take(n as int) =~= names);
        res
    }
}

} // verus!

verus! {

/// An archive whose thumbnail is being made: the fresh id that will name
/// the thumbnail and the content, and the archive's file name.
pub struct PendingContent {
    pub content_id: String,
    pub file_name: String,
}

impl PendingContent {
    /// Starts work on the archive `file_name` under a fresh random id.
    pub fn begin(file_name: String) -> (res: Self)
        ensures
            res.file_name == file_name,
            is_uuid_v4_text(res.content_id@),
    {
        PendingContent { content_id: uuid_v4_string(), file_name }
    }
}

impl LibraryMetadata {
    /// Ends work on an archive. Where its thumbnail was made, records a
    /// content under the archive's file name, with the pending id and today's
    /// date, and returns that date; where it was not, changes nothing.
    pub fn finish_content(&mut self, pending: PendingContent, thumbnail_created: bool) -> (added: Option<Date>)
        ensures
            thumbnail_created == added is Some,
            !thumbnail_created ==> final(self)@ == old(self)@,
            added matches Some(d) ==> final(self)@ == update_step(
                old(self)@, pending.file_name@, true, pending.content_id@, d),
            added matches Some(d) ==> is_valid_date(d),
    {
        if thumbnail_created {
            let today = local_today();
            let key = pending.file_name.clone();
            let content = Content::new(pending.content_id, pending.file_name, today);
            self.insert(key, content);
            Some(today)
        } else {
            None
        }
    }
}

} // verus!

verus! {

/// How removing a library's private directory went.
pub enum RemovalOutcome {
    /// The directory was removed.
    Removed,
    /// There was no such directory.
    NotFound,
    /// Removing failed for another reason, described by the text.
    Failed(String),
}

/// Whether the removal of a library may go on to drop it from the
/// catalogue: a missing directory is no obstacle, any other failure is
/// reported as `Failed to remove .taureria: {reason}`.
pub fn removal_result(outcome: RemovalOutcome) -> (res: Result<(), String>)
    ensures
        match outcome {
            RemovalOutcome::Removed => res is Ok,
            RemovalOutcome::NotFound => res is Ok,
            RemovalOutcome::Failed(reason) => res matches Err(m) && m@ == "Failed to remove .taureria: "@ + reason@,
        },
{
    match outcome {
        RemovalOutcome::Removed => Ok(()),
        RemovalOutcome::NotFound => Ok(()),
        RemovalOutcome::Failed(reason) => {
            let mut m = String::from_str("Failed to remove .taureria: ");
            m.append(reason.as_str());
            Err(m)
        },
    }
}

} // verus!
