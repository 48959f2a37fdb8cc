//! Sorting the entries of a source tree into pages, files and directories.

use crate::error::{SiteError, SiteErrorView};
use crate::names::{is_page, is_page_name, is_skipped_name, must_skip};
use crate::path::{PathView, SitePath};
use vstd::prelude::*;

verus! {

/// What a symbolic link leads to.
#[derive(Debug, Clone, Copy, PartialEq, Eq, Structural)]
pub enum Target {
    File,
    Dir,
    /// Neither a regular file nor a directory.
    Other,
}

/// What an entry of a directory is on disk.
#[derive(Debug, PartialEq, Eq)]
pub enum EntryKind {
    /// A directory, with its own entries in listing order.
    Dir(Vec<Entry>),
    File,
    Symlink(Target),
    /// Anything else, such as a socket or a device.
    Other,
}

/// One entry of a directory listing.
///
/// The classifier looks at `kind` only where `reads_kind` says so of `name`:
/// for any other entry it may be left at `Other` without being read.
#[derive(Debug, PartialEq, Eq)]
pub struct Entry {
    pub name: String,
    pub kind: EntryKind,
}

/// What an entry kind is in contracts.
pub enum KindView {
    Dir(Seq<EntryView>),
    File,
    Symlink(Target),
    Other,
}

/// What an entry is in contracts.
pub struct EntryView {
    pub name: Seq<char>,
    pub kind: KindView,
}

impl View for Entry {
    type V = EntryView;

    open spec fn view(&self) -> EntryView
        decreases self,
    {
        EntryView {
            name: self.name@,
            kind: match self.kind {
                EntryKind::Dir(children) => KindView::Dir(
                    Seq::new(
                        children@.len(),
                        |i: int|
                            if 0 <= i < children@.len() {
                                children@[i]@
                            } else {
                                arbitrary()
                            },
                    ),
                ),
                EntryKind::File => KindView::File,
                EntryKind::Symlink(target) => KindView::Symlink(target),
                EntryKind::Other => KindView::Other,
            },
        }
    }
}

impl DeepView for Entry {
    type V = EntryView;

    open spec fn deep_view(&self) -> EntryView {
        self@
    }
}

/// An entry of the source tree with the part it plays in the site.
#[derive(Debug, PartialEq, Eq)]
pub enum InputFile {
    /// A template to render.
    Page(SitePath),
    /// A file to copy as it is.
    File(SitePath),
    /// A directory to copy whole, as it is.
    Dir(SitePath),
}

/// What a classified entry is in contracts.
pub enum InputFileView {
    Page(PathView),
    File(PathView),
    Dir(PathView),
}

impl View for InputFile {
    type V = InputFileView;

    open spec fn view(&self) -> InputFileView {
        match self {
            InputFile::Page(path) => InputFileView::Page(path@),
            InputFile::File(path) => InputFileView::File(path@),
            InputFile::Dir(path) => InputFileView::Dir(path@),
        }
    }
}

impl DeepView for InputFile {
    type V = InputFileView;

    open spec fn deep_view(&self) -> InputFileView {
        self@
    }
}

impl InputFileView {
    /// The path of the entry.
    pub open spec fn path(self) -> PathView {
        match self {
            InputFileView::Page(path) => path,
            InputFileView::File(path) => path,
            InputFileView::Dir(path) => path,
        }
    }
}

/// What is reported of a link that leads to neither a file nor a directory.
pub open spec fn stray_link_text() -> Seq<char> {
    "unexpected condition met"@
}

/// Whether every entry of a listing has a skipped name.
pub open spec fn all_skipped(entries: Seq<EntryView>) -> bool {
    forall|i: int| 0 <= i < entries.len() ==> is_skipped_name(#[trigger] entries[i].name)
}

/// Whether a directory with these entries holds skipped content and nothing
/// else: it has entries, and each of them has a skipped name.
pub open spec fn holds_only_skipped(entries: Seq<EntryView>) -> bool {
    entries.len() > 0 && all_skipped(entries)
}

/// The classified entries that one entry of the directory `dir` gives, or
/// `None` where a link in it leads to neither a file nor a directory.
///
/// The name decides first: a skipped name gives nothing, a page name gives a
/// page, whatever the entry is on disk. Otherwise a file, or a link to one,
/// gives a file; a link to a directory gives a directory; a directory gives
/// what its own entries give, or itself as a directory where it has entries
/// and all of them are skipped; anything else gives nothing, and so does a
/// directory without entries. A link goes by its own path, not by
/// the path of what it leads to, so that every path begins with `dir`.
pub open spec fn classify_entry(dir: PathView, entry: EntryView) -> Option<Seq<InputFileView>>
    decreases entry,
{
    let path = dir.push(entry.name);
    if is_skipped_name(entry.name) {
        Some(seq![])
    } else if is_page_name(entry.name) {
        Some(seq![InputFileView::Page(path)])
    } else {
        match entry.kind {
            KindView::Dir(children) => if holds_only_skipped(children) {
                Some(seq![InputFileView::Dir(path)])
            } else {
                classify_entries(path, children)
            },
            KindView::File => Some(seq![InputFileView::File(path)]),
            KindView::Symlink(Target::File) => Some(seq![InputFileView::File(path)]),
            KindView::Symlink(Target::Dir) => Some(seq![InputFileView::Dir(path)]),
            KindView::Symlink(Target::Other) => None,
            KindView::Other => Some(seq![]),
        }
    }
}

/// What the entries of the directory `dir` give, one after another in
/// listing order.
pub open spec fn classify_entries(dir: PathView, entries: Seq<EntryView>) -> Option<
    Seq<InputFileView>,
>
    decreases entries,
{
    if entries.len() == 0 {
        Some(seq![])
    } else {
        match (classify_entries(dir, entries.drop_last()), classify_entry(dir, entries.last())) {
            (Some(before), Some(last)) => Some(before + last),
            _ => None,
        }
    }
}

/// The view of a directory entry holds the views of its entries.
pub proof fn lemma_dir_view(entry: Entry)
    requires
        entry.kind is Dir,
    ensures
        entry@.kind == KindView::Dir(entry.kind->Dir_0.deep_view()),
{
    reveal_with_fuel(<Entry as View>::view, 2);
    assert(entry@.kind->Dir_0 =~= entry.kind->Dir_0.deep_view());
}

/// Whether every entry of the listing has a skipped name.
fn only_skipped(entries: &Vec<Entry>) -> (all: bool)
    ensures
        all == all_skipped(entries.deep_view()),
{
    let mut i: usize = 0;
    while i < entries.len()
        invariant
            i <= entries.len(),
            forall|j: int| 0 <= j < i ==> is_skipped_name(#[trigger] entries.deep_view()[j].name),
        decreases entries.len() - i,
    {
        if !must_skip(entries[i].name.as_str()) {
            assert(!is_skipped_name(entries.deep_view()[i as int].name));
            return false;
        }
        i += 1;
    }
    true
}

/// Classifies the entries of the directory `base_dir`, given in listing
/// order, and those of the directories below it.
pub fn get_input_files(base_dir: &SitePath, entries: &Vec<Entry>) -> (found: Result<
    Vec<InputFile>,
    SiteError,
>)
    ensures
        match found {
            Ok(files) => classify_entries(base_dir@, entries.deep_view()) == Some(
                files.deep_view(),
            ),
            Err(error) => classify_entries(base_dir@, entries.deep_view()) is None && error@
                == SiteErrorView::Unexpected(stray_link_text()),
        },
    decreases entries,
{
    let mut result: Vec<InputFile> = Vec::new();
    let mut i: usize = 0;
    assert(entries.deep_view().take(0) =~= Seq::<EntryView>::empty());
    assert(result.deep_view() =~= Seq::<InputFileView>::empty());
    while i < entries.len()
        invariant
            i <= entries.len(),
            classify_entries(base_dir@, entries.deep_view().take(i as int)) == Some(
                result.deep_view(),
            ),
        decreases entries.len() - i,
    {
        let entry = &entries[i];
        let ghost all = entries.deep_view();
        let ghost before = result.deep_view();
        proof {
            lemma_classify_next(base_dir@, all, i as int);
            assert(all[i as int] == entry@);
            if entry.kind is Dir {
                lemma_dir_view(*entry);
            }
        }
        let filename = entry.name.as_str();
        if must_skip(filename) {
            assert(classify_entry(base_dir@, entry@) == Some(Seq::<InputFileView>::empty()));
            assert(before + Seq::<InputFileView>::empty() =~= before);
        } else {
            let path = base_dir.child(filename);
            if is_page(filename) {
                result.push(InputFile::Page(path));
                assert(result.deep_view() =~= before + seq![InputFileView::Page(path@)]);
            } else {
                match &entry.kind {
                    EntryKind::Dir(children) => {
                        if children.len() > 0 && only_skipped(children) {
                            result.push(InputFile::Dir(path));
                            assert(result.deep_view() =~= before + seq![InputFileView::Dir(path@)]);
                        } else {
                            match get_input_files(&path, children) {
                                Ok(mut nested) => {
                                    let ghost inner = nested.deep_view();
                                    result.append(&mut nested);
                                    assert(classify_entry(base_dir@, entry@) == Some(inner));
                                    assert(result.deep_view() =~= before + inner);
                                },
                                Err(error) => {
                                    proof {
                                        lemma_failure_spreads(base_dir@, all, i as int);
                                    }
                                    return Err(error);
                                },
                            }
                        }
                    },
                    EntryKind::File => {
                        result.push(InputFile::File(path));
                        assert(result.deep_view() =~= before + seq![InputFileView::File(path@)]);
                    },
                    EntryKind::Symlink(Target::File) => {
                        result.push(InputFile::File(path));
                        assert(result.deep_view() =~= before + seq![InputFileView::File(path@)]);
                    },
                    EntryKind::Symlink(Target::Dir) => {
                        result.push(InputFile::Dir(path));
                        assert(result.deep_view() =~= before + seq![InputFileView::Dir(path@)]);
                    },
                    EntryKind::Symlink(Target::Other) => {
                        proof {
                            lemma_failure_spreads(base_dir@, all, i as int);
                        }
                        return Err(SiteError::Unexpected("unexpected condition met".to_owned()));
                    },
                    EntryKind::Other => {
                        assert(classify_entry(base_dir@, entry@) == Some(
                            Seq::<InputFileView>::empty(),
                        ));
                        assert(before + Seq::<InputFileView>::empty() =~= before);
                    },
                }
            }
        }
        i += 1;
    }
    assert(entries.deep_view().take(entries.len() as int) =~= entries.deep_view());
    Ok(result)
}

/// The first `at + 1` entries of a listing give what the first `at` give,
/// followed by what the entry at `at` gives.
pub proof fn lemma_classify_next(dir: PathView, entries: Seq<EntryView>, at: int)
    requires
        0 <= at < entries.len(),
    ensures
        classify_entries(dir, entries.take(at + 1)) == followed_by(
            classify_entries(dir, entries.take(at)),
            classify_entry(dir, entries[at]),
        ),
{
    assert(entries.take(at + 1).drop_last() =~= entries.take(at));
    assert(entries.take(at + 1).last() == entries[at]);
}

/// Where one entry of a listing cannot be classified, the listing cannot.
pub proof fn lemma_failure_spreads(dir: PathView, entries: Seq<EntryView>, at: int)
    requires
        0 <= at < entries.len(),
        classify_entry(dir, entries[at]) is None,
    ensures
        classify_entries(dir, entries) is None,
    decreases entries.len(),
{
    if at < entries.len() - 1 {
        lemma_failure_spreads(dir, entries.drop_last(), at);
    }
}

/// Whether the classifier looks at what an entry of this name is on disk:
/// it does unless the name alone decides.
pub fn reads_kind(filename: &str) -> (reads: bool)
    ensures
        reads == (!is_skipped_name(filename@) && !is_page_name(filename@)),
{
    !must_skip(filename) && !is_page(filename)
}

/// A path lies cleanly below `dir` when it begins with the names of `dir`,
/// goes on after them, and none of the names after them is skipped.
pub open spec fn clean_below(dir: PathView, path: PathView) -> bool {
    &&& dir.is_prefix_of(path)
    &&& path.len() > dir.len()
    &&& forall|j: int| dir.len() <= j < path.len() ==> !is_skipped_name(#[trigger] path[j])
}

/// An entry with a skipped name gives nothing, whatever it is on disk.
pub proof fn lemma_skipped_name_gives_nothing(dir: PathView, entry: EntryView)
    requires
        is_skipped_name(entry.name),
    ensures
        classify_entry(dir, entry) == Some(Seq::<InputFileView>::empty()),
{
}

/// An entry whose name is a page name, and not skipped, gives one page at
/// its own path, whatever it is on disk.
pub proof fn lemma_page_name_gives_page(dir: PathView, entry: EntryView)
    requires
        !is_skipped_name(entry.name),
        is_page_name(entry.name),
    ensures
        classify_entry(dir, entry) == Some(seq![InputFileView::Page(dir.push(entry.name))]),
{
}

/// Whatever one entry of `dir` gives lies cleanly below `dir`.
pub proof fn lemma_entry_gives_clean_paths(dir: PathView, entry: EntryView)
    requires
        classify_entry(dir, entry) is Some,
    ensures
        forall|i: int|
            0 <= i < classify_entry(dir, entry)->0.len() ==> clean_below(
                dir,
                #[trigger] classify_entry(dir, entry)->0[i].path(),
            ),
    decreases entry,
{
    let path = dir.push(entry.name);
    let files = classify_entry(dir, entry)->0;
    assert(dir =~= path.subrange(0, dir.len() as int));
    if !is_skipped_name(entry.name) && !is_page_name(entry.name) {
        if let KindView::Dir(children) = entry.kind {
            if !holds_only_skipped(children) {
                lemma_no_skipped_name_classified(path, children);
                assert forall|i: int| 0 <= i < files.len() implies clean_below(
                    dir,
                    #[trigger] files[i].path(),
                ) by {
                    let found = files[i].path();
                    assert(clean_below(path, found));
                    assert(dir =~= found.subrange(0, dir.len() as int));
                    assert forall|j: int| dir.len() <= j < found.len() implies !is_skipped_name(
                        #[trigger] found[j],
                    ) by {
                        if j == dir.len() {
                            assert(found[j] == path[j]);
                        }
                    }
                }
            }
        }
    }
}

/// No classified entry has a skipped name: each lies cleanly below the
/// directory that was listed.
pub proof fn lemma_no_skipped_name_classified(dir: PathView, entries: Seq<EntryView>)
    requires
        classify_entries(dir, entries) is Some,
    ensures
        forall|i: int|
            0 <= i < classify_entries(dir, entries)->0.len() ==> clean_below(
                dir,
                #[trigger] classify_entries(dir, entries)->0[i].path(),
            ),
    decreases entries,
{
    if entries.len() > 0 {
        lemma_no_skipped_name_classified(dir, entries.drop_last());
        lemma_entry_gives_clean_paths(dir, entries.last());
    }
}

/// What two listings give one after the other.
pub open spec fn followed_by(
    first: Option<Seq<InputFileView>>,
    second: Option<Seq<InputFileView>>,
) -> Option<Seq<InputFileView>> {
    match (first, second) {
        (Some(a), Some(b)) => Some(a + b),
        _ => None,
    }
}

/// A listing in two parts gives what the first part gives, followed by what
/// the second part gives.
pub proof fn lemma_classify_in_parts(dir: PathView, first: Seq<EntryView>, second: Seq<EntryView>)
    ensures
        classify_entries(dir, first + second) == followed_by(
            classify_entries(dir, first),
            classify_entries(dir, second),
        ),
    decreases second.len(),
{
    if second.len() == 0 {
        assert(first + second =~= first);
        if let Some(a) = classify_entries(dir, first) {
            assert(a + Seq::<InputFileView>::empty() =~= a);
        }
    } else {
        assert((first + second).drop_last() =~= first + second.drop_last());
        assert((first + second).last() == second.last());
        lemma_classify_in_parts(dir, first, second.drop_last());
        if let (Some(a), Some(b), Some(c)) = (
            classify_entries(dir, first),
            classify_entries(dir, second.drop_last()),
            classify_entry(dir, second.last()),
        ) {
            assert((a + b) + c =~= a + (b + c));
        }
    }
}

/// An entry with a skipped name, such as the output directory once it
/// exists, changes nothing wherever it stands in the listing.
pub proof fn lemma_skipped_entry_changes_nothing(
    dir: PathView,
    entries: Seq<EntryView>,
    at: int,
    entry: EntryView,
)
    requires
        0 <= at <= entries.len(),
        is_skipped_name(entry.name),
    ensures
        classify_entries(dir, entries.insert(at, entry)) == classify_entries(dir, entries),
{
    let first = entries.take(at);
    let second = entries.skip(at);
    assert(entries =~= first + second);
    assert(entries.insert(at, entry) =~= (first + seq![entry]) + second);
    lemma_classify_in_parts(dir, first, second);
    lemma_classify_in_parts(dir, first + seq![entry], second);
    lemma_classify_in_parts(dir, first, seq![entry]);
    assert(classify_entries(dir, seq![entry]) == Some(Seq::<InputFileView>::empty())) by {
        let nothing = Seq::<InputFileView>::empty();
        assert(seq![entry].drop_last() =~= Seq::<EntryView>::empty());
        assert(seq![entry].last() == entry);
        assert(classify_entries(dir, Seq::<EntryView>::empty()) == Some(nothing));
        assert(classify_entry(dir, entry) == Some(nothing));
        assert(nothing + nothing =~= nothing);
    }
    if let Some(a) = classify_entries(dir, first) {
        assert(a + Seq::<InputFileView>::empty() =~= a);
    }
}

/// A listing is well formed when no two of its entries share a name, and the
/// same holds in every directory below it: what a file system gives.
pub open spec fn well_listed(entries: Seq<EntryView>) -> bool
    decreases entries,
{
    &&& forall|i: int, j: int|
        0 <= i < j < entries.len() ==> (#[trigger] entries[i]).name != (#[trigger] entries[j]).name
    &&& forall|i: int|
        0 <= i < entries.len() ==> (#[trigger] entries[i].kind matches KindView::Dir(inner)
            ==> well_listed(inner))
}

/// Whether `inner` lies at or inside the path of `outer`.
pub open spec fn lies_in(inner: InputFileView, outer: InputFileView) -> bool {
    outer.path().is_prefix_of(inner.path())
}

/// No entry of `files` lies at or inside the path of another.
pub open spec fn apart(files: Seq<InputFileView>) -> bool {
    forall|i: int, j: int|
        0 <= i < files.len() && 0 <= j < files.len() && i != j ==> !lies_in(
            #[trigger] files[j],
            #[trigger] files[i],
        )
}

/// The path `path` lies at or below the entry called `name` of `dir`.
pub open spec fn below_entry(dir: PathView, name: Seq<char>, path: PathView) -> bool {
    dir.len() < path.len() && dir.is_prefix_of(path) && path[dir.len() as int] == name
}

/// The path `path` lies at or below one of the entries `entries` of `dir`.
pub open spec fn below_some_entry(dir: PathView, entries: Seq<EntryView>, path: PathView) -> bool {
    exists|k: int| 0 <= k < entries.len() && below_entry(dir, (#[trigger] entries[k]).name, path)
}

/// Whatever an entry gives lies at or below the entry.
pub proof fn lemma_entry_gives_paths_below_itself(dir: PathView, entry: EntryView)
    requires
        classify_entry(dir, entry) is Some,
    ensures
        forall|i: int|
            0 <= i < classify_entry(dir, entry)->0.len() ==> below_entry(
                dir,
                entry.name,
                #[trigger] classify_entry(dir, entry)->0[i].path(),
            ),
{
    let path = dir.push(entry.name);
    let files = classify_entry(dir, entry)->0;
    assert(dir =~= path.subrange(0, dir.len() as int));
    if !is_skipped_name(entry.name) && !is_page_name(entry.name) {
        if let KindView::Dir(children) = entry.kind {
            if !holds_only_skipped(children) {
                lemma_no_skipped_name_classified(path, children);
                assert forall|i: int| 0 <= i < files.len() implies below_entry(
                    dir,
                    entry.name,
                    #[trigger] files[i].path(),
                ) by {
                    let found = files[i].path();
                    assert(clean_below(path, found));
                    assert(dir =~= found.subrange(0, dir.len() as int));
                    assert(found.subrange(0, path.len() as int)[dir.len() as int]
                        == found[dir.len() as int]);
                }
            }
        }
    }
}

/// Whatever a listing gives lies at or below one of its entries.
pub proof fn lemma_listing_gives_paths_below_entries(dir: PathView, entries: Seq<EntryView>)
    requires
        classify_entries(dir, entries) is Some,
    ensures
        forall|i: int|
            0 <= i < classify_entries(dir, entries)->0.len() ==> below_some_entry(
                dir,
                entries,
                #[trigger] classify_entries(dir, entries)->0[i].path(),
            ),
    decreases entries.len(),
{
    if entries.len() > 0 {
        let files = classify_entries(dir, entries)->0;
        let before = classify_entries(dir, entries.drop_last())->0;
        let last = classify_entry(dir, entries.last())->0;
        lemma_listing_gives_paths_below_entries(dir, entries.drop_last());
        lemma_entry_gives_paths_below_itself(dir, entries.last());
        assert forall|i: int| 0 <= i < files.len() implies below_some_entry(
            dir,
            entries,
            #[trigger] files[i].path(),
        ) by {
            if i < before.len() {
                assert(files[i] == before[i]);
                assert(below_some_entry(dir, entries.drop_last(), before[i].path()));
                let k = choose|k: int|
                    0 <= k < entries.drop_last().len() && below_entry(
                        dir,
                        (#[trigger] entries.drop_last()[k]).name,
                        before[i].path(),
                    );
                assert(entries[k] == entries.drop_last()[k]);
            } else {
                assert(files[i] == last[i - before.len()]);
                assert(entries[entries.len() - 1] == entries.last());
            }
        }
    }
}

/// What one entry of a well formed listing gives lies apart: no entry at or
/// inside another.
pub proof fn lemma_entry_gives_entries_apart(dir: PathView, entry: EntryView)
    requires
        entry.kind matches KindView::Dir(children) ==> well_listed(children),
        classify_entry(dir, entry) is Some,
    ensures
        apart(classify_entry(dir, entry)->0),
    decreases entry,
{
    if !is_skipped_name(entry.name) && !is_page_name(entry.name) {
        if let KindView::Dir(children) = entry.kind {
            if !holds_only_skipped(children) {
                lemma_no_entry_inside_another(dir.push(entry.name), children);
            }
        }
    }
}

/// No classified entry lies at or inside another: what is copied whole as a
/// directory holds nothing that is classified by itself, and nothing is
/// classified twice.
pub proof fn lemma_no_entry_inside_another(dir: PathView, entries: Seq<EntryView>)
    requires
        well_listed(entries),
        classify_entries(dir, entries) is Some,
    ensures
        apart(classify_entries(dir, entries)->0),
    decreases entries,
{
    if entries.len() > 0 {
        let rest = entries.drop_last();
        let files = classify_entries(dir, entries)->0;
        let before = classify_entries(dir, rest)->0;
        let last = classify_entry(dir, entries.last())->0;
        assert(well_listed(rest)) by {
            assert forall|i: int| 0 <= i < rest.len() implies rest[i] == entries[i] by {}
        }
        assert(entries[entries.len() - 1] == entries.last());
        lemma_no_entry_inside_another(dir, rest);
        lemma_entry_gives_entries_apart(dir, entries.last());
        lemma_listing_gives_paths_below_entries(dir, rest);
        lemma_entry_gives_paths_below_itself(dir, entries.last());
        assert forall|i: int, j: int|
            0 <= i < files.len() && 0 <= j < files.len() && i != j implies !lies_in(
            #[trigger] files[j],
            #[trigger] files[i],
        ) by {
            let outer = files[i].path();
            let inner = files[j].path();
            let at = dir.len() as int;
            if i < before.len() && j < before.len() {
                assert(files[i] == before[i] && files[j] == before[j]);
            } else if i >= before.len() && j >= before.len() {
                assert(files[i] == last[i - before.len()] && files[j] == last[j - before.len()]);
            } else {
                // One of the two comes from an entry of `rest`, the other from
                // the last entry: their paths part at the name of the entry.
                let (first, second) = if i < before.len() {
                    (i, j)
                } else {
                    (j, i)
                };
                assert(files[first] == before[first]);
                assert(files[second] == last[second - before.len()]);
                assert(below_some_entry(dir, rest, before[first].path()));
                let k = choose|k: int|
                    0 <= k < rest.len() && below_entry(
                        dir,
                        (#[trigger] rest[k]).name,
                        before[first].path(),
                    );
                assert(rest[k] == entries[k]);
                assert(entries[k].name != entries[entries.len() - 1].name);
                assert(outer[at] != inner[at]);
                if outer.is_prefix_of(inner) {
                    assert(inner.subrange(0, outer.len() as int)[at] == inner[at]);
                }
            }
        }
    }
}

} // verus!
